//! Archetype tables: columnar storage for the entities of one component set.
use crate::component::ErasedComponent;
use crate::entity::Entity;
use vstd::prelude::*;

verus! {

/// Whether every element of `ids` is smaller than all that follow it.
pub open spec fn strictly_increasing(ids: Seq<usize>) -> bool {
    forall|i: int, j: int| 0 <= i < j < ids.len() ==> ids[i] < ids[j]
}

/// The number of column slots of a table with the component set `ids`: one
/// more than its highest id.
pub open spec fn column_slots(ids: Seq<usize>) -> nat {
    if ids.len() == 0 {
        0
    } else {
        (ids.last() + 1) as nat
    }
}

/// The contents of a table.
#[verifier::ext_equal]
pub struct TableView {
    /// The ids of the table's component types, in increasing order.
    pub component_set: Seq<usize>,
    /// One slot per component id up to the highest of the set; the slot of an
    /// id of the set holds that component's column, one cell per row.
    pub columns: Seq<Option<Seq<Option<ErasedComponent>>>>,
    /// One slot per row: the entity that owns the row, if it is occupied.
    pub entities: Seq<Option<Entity>>,
    /// The vacant rows, a stack: the last one is reused first.
    pub free_rows: Seq<usize>,
}

impl TableView {
    /// A table for `component_set` without rows.
    pub open spec fn empty(component_set: Seq<usize>) -> TableView {
        TableView {
            component_set,
            columns: Seq::new(
                column_slots(component_set),
                |c: int|
                    if component_set.contains(c as usize) {
                        Some(Seq::<Option<ErasedComponent>>::empty())
                    } else {
                        None
                    },
            ),
            entities: Seq::empty(),
            free_rows: Seq::empty(),
        }
    }

    /// Whether `row` is a row that an entity owns.
    pub open spec fn is_occupied(self, row: int) -> bool {
        0 <= row < self.entities.len() && self.entities[row] is Some
    }

    /// The row that the next entity gets: the vacant row that was freed last,
    /// or a new row at the end.
    pub open spec fn next_row(self) -> int {
        if self.free_rows.len() > 0 {
            self.free_rows.last() as int
        } else {
            self.entities.len() as int
        }
    }

    /// The component with id `component` in `row`, if the row is occupied and
    /// the table has that column.
    pub open spec fn cell(self, row: int, component: int) -> Option<ErasedComponent> {
        if 0 <= component < self.columns.len() && self.columns[component] is Some && 0 <= row
            < self.columns[component]->0.len() {
            self.columns[component]->0[row]
        } else {
            None
        }
    }

    /// The table's invariant.
    pub open spec fn wf(self) -> bool {
        &&& strictly_increasing(self.component_set)
        &&& self.columns.len() == column_slots(self.component_set)
        &&& self.entities.len() <= usize::MAX
        // a column exists exactly for the ids of the component set
        &&& forall|c: int|
            0 <= c < self.columns.len() ==> ((#[trigger] self.columns[c]) is Some
                <==> self.component_set.contains(c as usize))
        // every column has one cell per row
        &&& forall|c: int|
            0 <= c < self.columns.len() && (#[trigger] self.columns[c]) is Some
                ==> self.columns[c]->0.len() == self.entities.len()
        // a row is filled in every column or in none
        &&& forall|c: int, row: int|
            0 <= c < self.columns.len() && (#[trigger] self.columns[c]) is Some && 0 <= row
                < self.entities.len() ==> ((#[trigger] self.entities[row]) is Some
                <==> self.columns[c]->0[row] is Some)
        // the free rows are the vacant rows, each listed once
        &&& forall|i: int|
            0 <= i < self.free_rows.len() ==> (#[trigger] self.free_rows[i]) < self.entities.len()
                && self.entities[self.free_rows[i] as int] is None
        &&& forall|i: int, j: int|
            0 <= i < j < self.free_rows.len() ==> self.free_rows[i] != self.free_rows[j]
        &&& forall|row: int|
            0 <= row < self.entities.len() && (#[trigger] self.entities[row]) is None
                ==> self.free_rows.contains(row as usize)
    }

    /// Whether `post` is this table after `entity` got a row that holds
    /// `components`, the k-th of them in the column of the id `ids[k]`. The
    /// row is `next_row`; every other row, and every column that `ids` does
    /// not name, is as before.
    pub open spec fn row_inserted(
        self,
        entity: Entity,
        ids: Seq<usize>,
        components: Seq<ErasedComponent>,
        post: TableView,
    ) -> bool {
        let row = self.next_row();
        let reuse = self.free_rows.len() > 0;
        &&& post.component_set == self.component_set
        &&& post.free_rows == if reuse {
            self.free_rows.drop_last()
        } else {
            self.free_rows
        }
        &&& post.entities == if reuse {
            self.entities.update(row, Some(entity))
        } else {
            self.entities.push(Some(entity))
        }
        &&& post.columns.len() == self.columns.len()
        &&& forall|c: int|
            0 <= c < self.columns.len() && (#[trigger] self.columns[c]) is None
                ==> post.columns[c] is None
        &&& forall|k: int|
            0 <= k < ids.len() ==> post.columns[(#[trigger] ids[k]) as int] == Some(
                if reuse {
                    self.columns[ids[k] as int]->0.update(row, Some(components[k]))
                } else {
                    self.columns[ids[k] as int]->0.push(Some(components[k]))
                },
            )
    }

    /// Whether `post` is this table after `row` was vacated: the entity slot
    /// and every cell of the row are empty, and the row is free for reuse.
    pub open spec fn row_vacated(self, row: int, post: TableView) -> bool {
        &&& post.component_set == self.component_set
        &&& post.entities == self.entities.update(row, None)
        &&& post.free_rows == self.free_rows.push(row as usize)
        &&& post.columns.len() == self.columns.len()
        &&& forall|c: int|
            0 <= c < self.columns.len() ==> (#[trigger] post.columns[c]) == match self.columns[c] {
                Some(column) => Some(column.update(row, None)),
                None => None,
            }
    }
}

/// The contents of one column slot.
pub open spec fn column_view(column: Option<Vec<Option<ErasedComponent>>>) -> Option<
    Seq<Option<ErasedComponent>>,
> {
    match column {
        Some(cells) => Some(cells@),
        None => None,
    }
}

/// All entities in a table have exactly the same component types.
pub struct Table {
    component_set: Vec<usize>,
    columns: Vec<Option<Vec<Option<ErasedComponent>>>>,
    entities: Vec<Option<Entity>>,
    removed: Vec<usize>,
}

impl View for Table {
    type V = TableView;

    closed spec fn view(&self) -> TableView {
        TableView {
            component_set: self.component_set@,
            columns: Seq::new(self.columns.len() as nat, |c: int| column_view(self.columns[c])),
            entities: self.entities@,
            free_rows: self.removed@,
        }
    }
}

impl Table {
    /// A table without rows for the component set `component_set`.
    pub fn new(component_set: Vec<usize>) -> (table: Table)
        requires
            strictly_increasing(component_set@),
            forall|k: int| 0 <= k < component_set.len() ==> component_set[k] < usize::MAX,
        ensures
            table@ == TableView::empty(component_set@),
            table@.wf(),
    {
        let size = match component_set.last() {
            Some(last) => *last + 1,
            None => 0,
        };
        let mut columns: Vec<Option<Vec<Option<ErasedComponent>>>> = Vec::new();
        while columns.len() < size
            invariant
                columns.len() <= size,
                forall|c: int| 0 <= c < columns.len() ==> columns[c] is None,
            decreases size - columns.len(),
        {
            columns.push(None);
        }
        let mut k: usize = 0;
        while k < component_set.len()
            invariant
                k <= component_set.len(),
                columns.len() == size,
                size == column_slots(component_set@),
                strictly_increasing(component_set@),
                forall|c: int|
                    0 <= c < columns.len() ==> column_view(#[trigger] columns[c]) == (
                    if component_set@.take(k as int).contains(c as usize) {
                        Some(Seq::<Option<ErasedComponent>>::empty())
                    } else {
                        None
                    }),
            decreases component_set.len() - k,
        {
            let column = component_set[k];
            assert(component_set[k as int] <= component_set@.last());
            columns[column] = Some(Vec::new());
            proof {
                lemma_take_next_contains(component_set@, k as int);
            }
            k += 1;
        }
        proof {
            assert(component_set@.take(k as int) =~= component_set@);
        }
        let table = Table { component_set, columns, entities: Vec::new(), removed: Vec::new() };
        proof {
            assert(table@.columns =~= TableView::empty(table.component_set@).columns);
            lemma_empty_wf(table.component_set@);
        }
        table
    }

    /// The ids of the table's component types, in increasing order.
    pub fn component_set(&self) -> (ids: &Vec<usize>)
        ensures
            ids@ == self@.component_set,
    {
        &self.component_set
    }

    /// The number of rows, occupied or vacant.
    pub fn len(&self) -> (rows: usize)
        ensures
            rows == self@.entities.len(),
    {
        self.entities.len()
    }

    /// The number of column slots: one more than the highest id of the
    /// component set, or none for the empty set.
    pub fn column_count(&self) -> (slots: usize)
        ensures
            slots == self@.columns.len(),
    {
        self.columns.len()
    }

    /// The number of cells of the column with the id `component`, if the
    /// table has that column.
    pub fn column_len(&self, component: usize) -> (cells: Option<usize>)
        ensures
            cells is Some <==> component < self@.columns.len()
                && self@.columns[component as int] is Some,
            cells matches Some(count) ==> count == self@.columns[component as int]->0.len(),
    {
        if component < self.columns.len() {
            match &self.columns[component] {
                Some(column) => Some(column.len()),
                None => None,
            }
        } else {
            None
        }
    }

    /// The vacant rows, a stack: the last one is reused first.
    pub fn free_rows(&self) -> (rows: &Vec<usize>)
        ensures
            rows@ == self@.free_rows,
    {
        &self.removed
    }

    /// Whether `row` is a row that an entity owns.
    pub fn is_occupied(&self, row: usize) -> (occupied: bool)
        ensures
            occupied == self@.is_occupied(row as int),
    {
        row < self.entities.len() && self.entities[row].is_some()
    }

    /// The entity that owns `row`, if the row is occupied.
    pub fn entity_at(&self, row: usize) -> (entity: Option<Entity>)
        ensures
            entity is Some <==> self@.is_occupied(row as int),
            entity is Some ==> entity == self@.entities[row as int],
    {
        if row < self.entities.len() {
            self.entities[row]
        } else {
            None
        }
    }

    /// The component with the id `component` in `row`, if the table has that
    /// column and the row is occupied.
    pub fn get(&self, row: usize, component: usize) -> (cell: Option<&ErasedComponent>)
        ensures
            cell is Some <==> self@.cell(row as int, component as int) is Some,
            cell matches Some(found) ==> self@.cell(row as int, component as int) == Some(*found),
    {
        if component < self.columns.len() {
            match &self.columns[component] {
                Some(column) => {
                    if row < column.len() {
                        return column[row].as_ref();
                    }
                },
                None => {},
            }
        }
        None
    }

    /// The first occupied row that is not before `from`, if there is one. To
    /// walk the occupied rows one after the other, start at 0 and go on
    /// behind each row that was found.
    pub fn next_occupied(&self, from: usize) -> (found: Option<usize>)
        ensures
            found matches Some(row) ==> from <= row && self@.is_occupied(row as int) && forall|
                earlier: int,
            |
                from <= earlier < row ==> !self@.is_occupied(earlier),
            found is None ==> forall|row: int| from <= row ==> !self@.is_occupied(row),
    {
        let mut row = from;
        while row < self.entities.len()
            invariant
                from <= row,
                forall|earlier: int| from <= earlier < row ==> !self@.is_occupied(earlier),
            decreases self.entities.len() - row,
        {
            if self.entities[row].is_some() {
                return Some(row);
            }
            row += 1;
        }
        None
    }

    /// The occupied rows, in increasing order. A row is occupied if its
    /// entity slot is.
    pub fn occupied_rows(&self) -> (rows: Vec<usize>)
        ensures
            strictly_increasing(rows@),
            forall|row: usize| rows@.contains(row) <==> self@.is_occupied(row as int),
    {
        let mut rows: Vec<usize> = Vec::new();
        let mut row: usize = 0;
        while row < self.entities.len()
            invariant
                row <= self.entities.len(),
                strictly_increasing(rows@),
                forall|k: int| 0 <= k < rows.len() ==> rows[k] < row,
                forall|r: usize| rows@.contains(r) <==> r < row && self@.is_occupied(r as int),
            decreases self.entities.len() - row,
        {
            if self.entities[row].is_some() {
                let ghost before = rows@;
                rows.push(row);
                assert forall|r: usize| rows@.contains(r) <==> r < row + 1 && self@.is_occupied(
                    r as int,
                ) by {
                    if before.contains(r) {
                        let k = before.index_of(r);
                        assert(rows[k] == r);
                    }
                    if r == row {
                        assert(rows[before.len() as int] == r);
                    }
                }
            }
            row += 1;
        }
        rows
    }

    /// Whether this table's component set is `ids`.
    pub fn has_component_set(&self, ids: &[usize]) -> (same: bool)
        ensures
            same == (self@.component_set == ids@),
    {
        if self.component_set.len() != ids.len() {
            return false;
        }
        let mut k: usize = 0;
        while k < ids.len()
            invariant
                k <= ids.len(),
                self.component_set.len() == ids.len(),
                forall|j: int| 0 <= j < k ==> self.component_set[j] == ids[j],
            decreases ids.len() - k,
        {
            if self.component_set[k] != ids[k] {
                return false;
            }
            k += 1;
        }
        assert(self.component_set@ =~= ids@);
        true
    }

    /// Vacates the row `index`: the entity slot and every cell of the row are
    /// emptied and the row is put on the stack of free rows. A row that is
    /// vacant already, or that the table does not have, is left alone, so no
    /// row is ever listed as free twice. Returns whether a row was vacated.
    pub fn remove(&mut self, index: usize) -> (vacated: bool)
        requires
            old(self)@.wf(),
        ensures
            vacated == old(self)@.is_occupied(index as int),
            vacated ==> old(self)@.row_vacated(index as int, final(self)@),
            !vacated ==> final(self)@ == old(self)@,
            final(self)@.wf(),
    {
        if index >= self.entities.len() || self.entities[index].is_none() {
            return false;
        }
        let mut k: usize = 0;
        while k < self.component_set.len()
            invariant
                old(self)@.wf(),
                index < old(self).entities.len(),
                k <= self.component_set.len(),
                self.component_set == old(self).component_set,
                self.entities == old(self).entities,
                self.removed == old(self).removed,
                self.columns.len() == old(self).columns.len(),
                forall|c: int|
                    0 <= c < self.columns.len() ==> column_view(#[trigger] self.columns[c]) == (
                    if self.component_set@.take(k as int).contains(c as usize) {
                        Some(old(self).columns[c]->0@.update(index as int, None))
                    } else {
                        column_view(old(self).columns[c])
                    }),
            decreases self.component_set.len() - k,
        {
            let component_id = self.component_set[k];
            proof {
                let ids = self.component_set@;
                assert(ids.contains(ids[k as int]));
                assert(ids[k as int] <= ids.last());
                assert(old(self)@.columns[component_id as int] is Some);
                lemma_take_next_contains(ids, k as int);
            }
            match &mut self.columns[component_id] {
                Some(column) => {
                    column[index] = None;
                },
                None => {},
            }
            k += 1;
        }
        self.entities[index] = None;
        self.removed.push(index);
        proof {
            let pre = old(self)@;
            let post = self@;
            assert(self.component_set@.take(k as int) =~= self.component_set@);
            assert forall|c: int| 0 <= c < pre.columns.len() implies (#[trigger] post.columns[c])
                == match pre.columns[c] {
                Some(column) => Some(column.update(index as int, None)),
                None => None,
            } by {
                assert(pre.columns[c] is Some <==> pre.component_set.contains(c as usize));
            }
            lemma_vacated_wf(pre, index as int, post);
        }
        true
    }

    /// Gives `entity` a row that holds `components`, the k-th of them in the
    /// column of the k-th id of `component_set`, which is this table's
    /// component set. A free row is reused if there is one, the one that was
    /// freed last; else the row is appended. Returns the row.
    pub fn add(
        &mut self,
        entity: Entity,
        component_set: &[usize],
        components: Vec<ErasedComponent>,
    ) -> (row: usize)
        requires
            old(self)@.wf(),
            component_set@ == old(self)@.component_set,
            components.len() == component_set.len(),
        ensures
            row == old(self)@.next_row(),
            old(self)@.row_inserted(entity, component_set@, components@, final(self)@),
            final(self)@.wf(),
    {
        let ghost given = components@;
        let mut components = components;
        let reused = self.removed.pop();
        let row = match reused {
            Some(index) => index,
            None => self.entities.len(),
        };
        let ghost reuse = reused is Some;
        assert(row == old(self)@.next_row());
        assert(reuse ==> row < old(self).entities.len()) by {
            if reuse {
                assert(old(self)@.free_rows[old(self)@.free_rows.len() - 1] < old(
                    self,
                ).entities.len());
            }
        }
        let ghost remaining = self.removed@;
        assert(remaining == if reuse {
            old(self)@.free_rows.drop_last()
        } else {
            old(self)@.free_rows
        });
        let mut k: usize = components.len();
        while k > 0
            invariant
                old(self)@.wf(),
                self.removed@ == remaining,
                component_set@ == old(self)@.component_set,
                given.len() == component_set.len(),
                k <= given.len(),
                components@ == given.take(k as int),
                reuse ==> row < old(self).entities.len(),
                !reuse ==> row == old(self).entities.len(),
                self.component_set == old(self).component_set,
                self.entities == old(self).entities,
                self.columns.len() == old(self).columns.len(),
                forall|c: int|
                    0 <= c < self.columns.len() && (#[trigger] old(self).columns[c]) is None
                        ==> self.columns[c] is None,
                forall|j: int|
                    0 <= j < k ==> self.columns[(#[trigger] component_set[j]) as int] == old(
                        self,
                    ).columns[component_set[j] as int],
                forall|j: int|
                    k <= j < given.len() ==> column_view(
                        self.columns[(#[trigger] component_set[j]) as int],
                    ) == Some(
                        if reuse {
                            old(self).columns[component_set[j] as int]->0@.update(
                                row as int,
                                Some(given[j]),
                            )
                        } else {
                            old(self).columns[component_set[j] as int]->0@.push(Some(given[j]))
                        },
                    ),
            decreases k,
        {
            k -= 1;
            let component_id = component_set[k];
            proof {
                let ids = component_set@;
                assert(ids.contains(ids[k as int]));
                assert(ids[k as int] <= ids.last());
                assert(old(self)@.columns[component_id as int] is Some);
                assert(forall|j: int| 0 <= j < ids.len() && j != k ==> ids[j] != ids[k as int]);
            }
            match components.pop() {
                Some(component) => {
                    assert(component == given[k as int]);
                    match &mut self.columns[component_id] {
                        Some(column) => {
                            if row < column.len() {
                                column[row] = Some(component);
                            } else {
                                column.push(Some(component));
                            }
                        },
                        None => {},
                    }
                },
                None => {},
            }
        }
        if row < self.entities.len() {
            self.entities[row] = Some(entity);
        } else {
            self.entities.push(Some(entity));
        }
        proof {
            let pre = old(self)@;
            let post = self@;
            assert(pre.free_rows.len() > 0 <==> reuse);
            assert forall|j: int| 0 <= j < pre.component_set.len() implies post.columns[(
            #[trigger] pre.component_set[j]) as int] == Some(
                if reuse {
                    pre.columns[pre.component_set[j] as int]->0.update(row as int, Some(given[j]))
                } else {
                    pre.columns[pre.component_set[j] as int]->0.push(Some(given[j]))
                },
            ) by {
                let c = pre.component_set[j];
                assert(pre.component_set.contains(c));
                assert(c <= pre.component_set.last());
            }
            assert(self.entities.len() <= usize::MAX);
            lemma_inserted_wf(pre, entity, pre.component_set, given, post);
        }
        row
    }
}

/// A table without rows is well formed.
pub proof fn lemma_empty_wf(component_set: Seq<usize>)
    requires
        strictly_increasing(component_set),
    ensures
        TableView::empty(component_set).wf(),
{
    let table = TableView::empty(component_set);
    assert forall|c: int| 0 <= c < table.columns.len() implies ((#[trigger] table.columns[c]) is Some
        <==> component_set.contains(c as usize)) by {}
}

} // verus!

verus! {

/// The first `k + 1` ids hold what the first `k` hold, and the id at `k`.
proof fn lemma_take_next_contains(ids: Seq<usize>, k: int)
    requires
        0 <= k < ids.len(),
    ensures
        forall|c: usize|
            ids.take(k + 1).contains(c) <==> ids.take(k).contains(c) || c == ids[k],
{
    let before = ids.take(k);
    let after = ids.take(k + 1);
    assert(after =~= before.push(ids[k]));
    assert forall|c: usize| after.contains(c) <==> before.contains(c) || c == ids[k] by {
        if before.contains(c) {
            let i = before.index_of(c);
            assert(after[i] == c);
        }
        if c == ids[k] {
            assert(after[k] == c);
        }
    }
}

/// Vacating an occupied row keeps a table well formed.
pub proof fn lemma_vacated_wf(pre: TableView, row: int, post: TableView)
    requires
        pre.wf(),
        pre.is_occupied(row),
        pre.row_vacated(row, post),
    ensures
        post.wf(),
{
    assert forall|c: int| 0 <= c < post.columns.len() implies ((#[trigger] post.columns[c]) is Some
        <==> post.component_set.contains(c as usize)) by {
        assert(pre.columns[c] is Some <==> pre.component_set.contains(c as usize));
    }
    assert forall|c: int|
        0 <= c < post.columns.len() && (#[trigger] post.columns[c]) is Some implies post.columns[c]->0.len()
        == post.entities.len() by {
        assert(pre.columns[c] is Some);
    }
    assert forall|c: int, r: int|
        0 <= c < post.columns.len() && (#[trigger] post.columns[c]) is Some && 0 <= r
            < post.entities.len() implies ((#[trigger] post.entities[r]) is Some
        <==> post.columns[c]->0[r] is Some) by {
        assert(pre.columns[c] is Some);
        assert(pre.entities[r] is Some <==> pre.columns[c]->0[r] is Some);
    }
    assert forall|i: int| 0 <= i < post.free_rows.len() implies (#[trigger] post.free_rows[i])
        < post.entities.len() && post.entities[post.free_rows[i] as int] is None by {
        if i < pre.free_rows.len() {
            assert(pre.free_rows[i] < pre.entities.len());
        }
    }
    assert forall|i: int, j: int| 0 <= i < j < post.free_rows.len() implies post.free_rows[i]
        != post.free_rows[j] by {
        assert(pre.entities[pre.free_rows[i] as int] is None);
    }
    assert forall|r: int|
        0 <= r < post.entities.len() && (#[trigger] post.entities[r]) is None implies post.free_rows.contains(
        r as usize,
    ) by {
        if r == row {
            assert(post.free_rows[pre.free_rows.len() as int] == r as usize);
        } else {
            assert(pre.entities[r] is None);
            let i = pre.free_rows.index_of(r as usize);
            assert(post.free_rows[i] == r as usize);
        }
    }
}

/// Giving an entity a row keeps a table well formed, if the row holds a
/// component for every id of the table's component set, and for no other.
pub proof fn lemma_inserted_wf(
    pre: TableView,
    entity: Entity,
    ids: Seq<usize>,
    components: Seq<ErasedComponent>,
    post: TableView,
)
    requires
        pre.wf(),
        forall|id: usize| pre.component_set.contains(id) <==> ids.contains(id),
        pre.row_inserted(entity, ids, components, post),
        post.entities.len() <= usize::MAX,
    ensures
        post.wf(),
{
    let row = pre.next_row();
    let reuse = pre.free_rows.len() > 0;
    if reuse {
        assert(pre.free_rows[pre.free_rows.len() - 1] < pre.entities.len());
    }
    assert forall|c: int| 0 <= c < post.columns.len() implies ((#[trigger] post.columns[c]) is Some
        <==> post.component_set.contains(c as usize)) by {
        assert(pre.columns[c] is Some <==> pre.component_set.contains(c as usize));
        if pre.component_set.contains(c as usize) {
            assert(ids.contains(c as usize));
            let k = ids.index_of(c as usize);
            assert(ids[k] as int == c);
        }
    }
    assert forall|c: int|
        0 <= c < post.columns.len() && (#[trigger] post.columns[c]) is Some implies post.columns[c]->0.len()
        == post.entities.len() by {
        assert(pre.columns[c] is Some <==> pre.component_set.contains(c as usize));
        assert(pre.component_set.contains(c as usize));
        assert(ids.contains(c as usize));
        let k = ids.index_of(c as usize);
        assert(ids[k] as int == c);
    }
    assert forall|c: int, r: int|
        0 <= c < post.columns.len() && (#[trigger] post.columns[c]) is Some && 0 <= r
            < post.entities.len() implies ((#[trigger] post.entities[r]) is Some
        <==> post.columns[c]->0[r] is Some) by {
        assert(pre.columns[c] is Some <==> pre.component_set.contains(c as usize));
        assert(pre.component_set.contains(c as usize));
        assert(ids.contains(c as usize));
        let k = ids.index_of(c as usize);
        assert(ids[k] as int == c);
        if r != row {
            assert(pre.entities[r] is Some <==> pre.columns[c]->0[r] is Some);
        }
    }
    assert forall|i: int| 0 <= i < post.free_rows.len() implies (#[trigger] post.free_rows[i])
        < post.entities.len() && post.entities[post.free_rows[i] as int] is None by {
        assert(pre.free_rows[i] < pre.entities.len());
        assert(pre.free_rows[i] != pre.free_rows[pre.free_rows.len() - 1]);
    }
    assert forall|r: int|
        0 <= r < post.entities.len() && (#[trigger] post.entities[r]) is None implies post.free_rows.contains(
        r as usize,
    ) by {
        assert(r != row);
        assert(pre.entities[r] is None);
        let i = pre.free_rows.index_of(r as usize);
        assert(post.free_rows[i] == r as usize);
    }
}

} // verus!
