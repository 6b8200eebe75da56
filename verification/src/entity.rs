//! Entity handles.
use vstd::prelude::*;

verus! {

/// A handle to an entity. It works like a weak reference: it owns nothing and
/// names a slot of the world's index table and the generation of that slot
/// for which the handle was made.
#[derive(Debug, Clone, Copy, PartialEq, Eq, Structural)]
pub struct Entity {
    pub index: usize,
    pub generation: u32,
}

/// The index table's entry for one entity index: the generation that a handle
/// must carry to be valid, whether an entity lives there, and the table and
/// row that hold its components.
#[derive(Debug, Clone, Copy, PartialEq, Eq, Structural)]
pub struct EntityTableData {
    pub generation: u32,
    pub table_index: usize,
    pub inner_table_index: usize,
    pub live: bool,
}

} // verus!
