//! The component identity registry: identifier strings to dense ids.
use vstd::hash_map::StringHashMap;
use vstd::prelude::*;

verus! {

/// The registry after `name` has been looked up: a name that is already known
/// keeps its id, a new one gets the next id in sequence.
pub open spec fn register(known: Map<Seq<char>, usize>, name: Seq<char>) -> Map<Seq<char>, usize> {
    if known.contains_key(name) {
        known
    } else {
        known.insert(name, known.len() as usize)
    }
}

/// The registry after every name of `names` has been looked up, in order.
pub open spec fn register_all(known: Map<Seq<char>, usize>, names: Seq<Seq<char>>) -> Map<
    Seq<char>,
    usize,
>
    decreases names.len(),
{
    if names.len() == 0 {
        known
    } else {
        register(register_all(known, names.drop_last()), names.last())
    }
}

/// What holds of every registry: it is finite, its ids are exactly
/// `0, 1, .., len - 1`, and no two names share an id.
pub open spec fn dense(known: Map<Seq<char>, usize>) -> bool {
    &&& known.dom().finite()
    &&& forall|name: Seq<char>| #[trigger] known.contains_key(name) ==> known[name] < known.len()
    &&& forall|a: Seq<char>, b: Seq<char>|
        #[trigger] known.contains_key(a) && #[trigger] known.contains_key(b) && known[a] == known[b]
            ==> a == b
}

/// Looking a name up keeps a registry dense, keeps every id that was already
/// given, and leaves the name registered.
pub proof fn lemma_register(known: Map<Seq<char>, usize>, name: Seq<char>)
    requires
        dense(known),
        known.len() <= usize::MAX,
    ensures
        dense(register(known, name)),
        register(known, name).contains_key(name),
        known.submap_of(register(known, name)),
        register(known, name).len() == known.len() + if known.contains_key(name) {
            0int
        } else {
            1int
        },
{
    let after = register(known, name);
    if !known.contains_key(name) {
        assert(after.dom() =~= known.dom().insert(name));
        assert forall|a: Seq<char>, b: Seq<char>|
            #[trigger] after.contains_key(a) && #[trigger] after.contains_key(b) && after[a]
                == after[b] implies a == b by {
            if a != name {
                assert(known.contains_key(a));
            }
            if b != name {
                assert(known.contains_key(b));
            }
        }
        assert forall|n: Seq<char>| #[trigger] after.contains_key(n) implies after[n]
            < after.len() by {
            if n != name {
                assert(known.contains_key(n));
            }
        }
    }
}

/// A finite registry stays finite when names are looked up, and holds no
/// fewer names than before.
pub proof fn lemma_register_all_grows(known: Map<Seq<char>, usize>, names: Seq<Seq<char>>)
    requires
        known.dom().finite(),
    ensures
        register_all(known, names).dom().finite(),
        known.len() <= register_all(known, names).len(),
    decreases names.len(),
{
    if names.len() > 0 {
        let before = register_all(known, names.drop_last());
        lemma_register_all_grows(known, names.drop_last());
        if !before.contains_key(names.last()) {
            assert(register(before, names.last()).dom() =~= before.dom().insert(names.last()));
        }
    }
}

/// Looking names up one after the other keeps a registry dense, keeps every
/// id that was already given, and leaves every one of the names registered.
pub proof fn lemma_register_all(known: Map<Seq<char>, usize>, names: Seq<Seq<char>>)
    requires
        dense(known),
        register_all(known, names).len() <= usize::MAX,
    ensures
        dense(register_all(known, names)),
        known.submap_of(register_all(known, names)),
        known.len() <= register_all(known, names).len(),
        forall|k: int|
            0 <= k < names.len() ==> register_all(known, names).contains_key(#[trigger] names[k]),
    decreases names.len(),
{
    lemma_register_all_grows(known, names);
    if names.len() > 0 {
        let before = register_all(known, names.drop_last());
        let after = register_all(known, names);
        lemma_register_all_grows(known, names.drop_last());
        if !before.contains_key(names.last()) {
            assert(after.dom() =~= before.dom().insert(names.last()));
        }
        lemma_register_all(known, names.drop_last());
        lemma_register(before, names.last());
        assert forall|k: int| 0 <= k < names.len() implies after.contains_key(
            #[trigger] names[k],
        ) by {
            if k < names.len() - 1 {
                assert(names.drop_last()[k] == names[k]);
                assert(before.dom().contains(names[k]));
            }
        }
        assert(known.submap_of(after)) by {
            assert forall|name: Seq<char>| #[trigger] known.dom().contains(name) implies after.dom().contains(
                name,
            ) && known[name] == after[name] by {
                assert(before.dom().contains(name));
            }
        }
    }
}

/// Maps a component's identifier string to a dense integer id, assigned in
/// first-seen order and never taken back.
pub struct ComponentLookup {
    next_id: usize,
    component_id_to_index: StringHashMap<usize>,
}

impl View for ComponentLookup {
    type V = Map<Seq<char>, usize>;

    closed spec fn view(&self) -> Map<Seq<char>, usize> {
        self.component_id_to_index@
    }
}

impl ComponentLookup {
    /// The registry's invariant: it is dense, and the next id to hand out is
    /// the number of names it knows.
    pub closed spec fn wf(&self) -> bool {
        &&& dense(self@)
        &&& self.next_id == self@.len()
    }

    /// The id that the next new identifier gets.
    pub closed spec fn next_id(&self) -> usize {
        self.next_id
    }

    /// A well-formed registry is dense and holds at most `usize::MAX` names,
    /// and the next id that it hands out is the number of names it knows.
    pub proof fn lemma_wf_dense(&self)
        requires
            self.wf(),
        ensures
            dense(self@),
            self@.len() <= usize::MAX,
            self.next_id() == self@.len(),
    {
    }

    /// An empty registry: the first id it hands out is 0.
    pub fn new() -> (lookup: ComponentLookup)
        ensures
            lookup.wf(),
            lookup@ == Map::<Seq<char>, usize>::empty(),
    {
        ComponentLookup { next_id: 0, component_id_to_index: StringHashMap::new() }
    }

    /// The id of `id`, which is registered under the next free id if it was
    /// not known before.
    pub fn get_or_create(&mut self, id: String) -> (index: usize)
        requires
            old(self).wf(),
        ensures
            final(self).wf(),
            final(self)@ == register(old(self)@, id@),
            index == final(self)@[id@],
    {
        proof {
            lemma_register(self@, id@);
        }
        let known = match self.component_id_to_index.get(id.as_str()) {
            Some(index) => Some(*index),
            None => None,
        };
        match known {
            Some(index) => index,
            None => {
                let current_id = self.next_id;
                self.component_id_to_index.insert(id, current_id);
                self.next_id = self.component_id_to_index.len();
                current_id
            },
        }
    }

    /// The id of `id` if it has been registered. Registers nothing.
    pub fn get(&self, id: &str) -> (index: Option<usize>)
        ensures
            index == if self@.contains_key(id@) {
                Some(self@[id@])
            } else {
                None
            },
    {
        match self.component_id_to_index.get(id) {
            Some(index) => Some(*index),
            None => None,
        }
    }

    /// How many identifiers are registered: the id that the next new one gets.
    pub fn len(&self) -> (count: usize)
        requires
            self.wf(),
        ensures
            count == self@.len(),
            count == self.next_id(),
    {
        self.next_id
    }
}

} // verus!
