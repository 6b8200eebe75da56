//! The world: the registry, the archetype tables and the index table that
//! ties entity handles to their rows.
use crate::component::{ComponentBundle, ErasedComponent};
use crate::component_set::{
    all_distinct, arranges, holds_pair, is_component_set_of, is_least_repeated,
    lemma_first_repeat_is_least, lemma_no_repeat_is_strict, non_decreasing, sort_components,
    SpawnError,
};
use crate::entity::{Entity, EntityTableData};
use crate::registry::{dense, lemma_register, lemma_register_all, register_all, ComponentLookup};
use crate::table::{strictly_increasing, Table, TableView};
use vstd::prelude::*;

verus! {

/// The identifiers of the components of a bundle, in the bundle's order.
pub open spec fn identifiers(components: Seq<ErasedComponent>) -> Seq<Seq<char>> {
    Seq::new(components.len(), |k: int| components[k].identifier())
}

/// The contents of a world.
#[verifier::ext_equal]
pub struct WorldView {
    /// The id of every component identifier seen so far.
    pub registry: Map<Seq<char>, usize>,
    /// The archetype tables, in the order in which they were made.
    pub tables: Seq<TableView>,
    /// The index table: one entry per entity index handed out so far.
    pub entries: Seq<EntityTableData>,
    /// The entity indices that are free for reuse, a stack.
    pub free_indices: Seq<usize>,
}

impl WorldView {
    /// A world without entities, tables or registered components.
    pub open spec fn empty() -> WorldView {
        WorldView {
            registry: Map::empty(),
            tables: Seq::empty(),
            entries: Seq::empty(),
            free_indices: Seq::empty(),
        }
    }

    /// Whether `entity` is a valid handle: it names a slot that was handed
    /// out, and carries the generation that the slot is in. Nothing else is
    /// compared.
    pub open spec fn is_valid(self, entity: Entity) -> bool {
        &&& entity.index < self.entries.len()
        &&& self.entries[entity.index as int].generation == entity.generation
    }

    /// Whether `entity` is the handle of an entity that lives in this world:
    /// the handle is valid and its slot is occupied. A handle that this
    /// world has handed out is valid only as long as its entity lives; a
    /// handle from elsewhere may carry the generation of a vacant slot.
    pub open spec fn is_alive(self, entity: Entity) -> bool {
        &&& self.is_valid(entity)
        &&& self.entries[entity.index as int].live
    }

    /// Whether `entity` is the handle of an entity that was removed: its
    /// slot has moved on to a later generation.
    pub open spec fn is_stale(self, entity: Entity) -> bool {
        &&& entity.index < self.entries.len()
        &&& entity.generation < self.entries[entity.index as int].generation
    }

    /// The number of living entities.
    pub open spec fn live_count(self) -> nat {
        self.entries.filter(|entry: EntityTableData| entry.live).len()
    }

    /// Whether some table stores the component set `set`.
    pub open spec fn has_archetype(self, set: Seq<usize>) -> bool {
        exists|t: int| 0 <= t < self.tables.len() && (#[trigger] self.tables[t]).component_set == set
    }

    /// The ids under which the components of a bundle are registered.
    pub open spec fn ids_of(self, components: Seq<ErasedComponent>) -> Seq<usize> {
        Seq::new(components.len(), |k: int| self.registry[components[k].identifier()])
    }

    /// The entity index that the next entity gets: the free index that was
    /// freed last, or a new one past all that were handed out.
    pub open spec fn next_index(self) -> int {
        if self.free_indices.len() > 0 {
            self.free_indices.last() as int
        } else {
            self.entries.len() as int
        }
    }

    /// The component with the id `component` of a valid entity, if it has one.
    pub open spec fn component_of(self, entity: Entity, component: usize) -> Option<
        ErasedComponent,
    > {
        let entry = self.entries[entity.index as int];
        self.tables[entry.table_index as int].cell(
            entry.inner_table_index as int,
            component as int,
        )
    }

    /// Whether the entry of the live entity index `index` names a row that
    /// holds the handle of that very entity.
    pub open spec fn entry_names_row(self, index: int) -> bool {
        let entry = self.entries[index];
        &&& entry.table_index < self.tables.len()
        &&& entry.inner_table_index < self.tables[entry.table_index as int].entities.len()
        &&& self.tables[entry.table_index as int].entities[entry.inner_table_index as int] == Some(
            Entity { index: index as usize, generation: entry.generation },
        )
    }

    /// Whether the handle in the occupied row `row` of the table `t` is
    /// valid, and its entry names that row.
    pub open spec fn row_names_entry(self, t: int, row: int) -> bool {
        let entity = self.tables[t].entities[row]->0;
        &&& self.is_alive(entity)
        &&& self.entries[entity.index as int].table_index == t
        &&& self.entries[entity.index as int].inner_table_index == row
    }

    /// The world's invariant.
    pub open spec fn wf(self) -> bool {
        &&& dense(self.registry)
        &&& self.registry.len() <= usize::MAX
        &&& self.entries.len() <= usize::MAX
        &&& forall|t: int| 0 <= t < self.tables.len() ==> (#[trigger] self.tables[t]).wf()
        // no two tables store the same component set
        &&& forall|t: int, u: int|
            0 <= t < u < self.tables.len() ==> (#[trigger] self.tables[t]).component_set != (
            #[trigger] self.tables[u]).component_set
        // live entries and occupied rows name each other
        &&& forall|i: int|
            0 <= i < self.entries.len() && (#[trigger] self.entries[i]).live
                ==> self.entry_names_row(i)
        &&& forall|t: int, row: int|
            0 <= t < self.tables.len() && 0 <= row < self.tables[t].entities.len() && (
            #[trigger] self.tables[t].entities[row]) is Some ==> self.row_names_entry(t, row)
        // the free indices are the vacant slots, each listed once
        &&& forall|k: int|
            0 <= k < self.free_indices.len() ==> {
                &&& (#[trigger] self.free_indices[k]) < self.entries.len()
                &&& !self.entries[self.free_indices[k] as int].live
            }
        &&& forall|k: int, l: int|
            0 <= k < l < self.free_indices.len() ==> self.free_indices[k] != self.free_indices[l]
        &&& forall|i: int|
            0 <= i < self.entries.len() && !(#[trigger] self.entries[i]).live
                ==> self.free_indices.contains(i as usize)
    }

    /// Whether `post` is this world after the bundle `components` was
    /// spawned as `entity`.
    ///
    /// The components' identifiers are registered. The entity takes the
    /// free index that was freed last, with the generation that the slot has
    /// reached, or a new index with generation 0. It gets a row in the table
    /// of its component set, which is made if no table stores that set yet,
    /// and the row holds every component of the bundle in the column of its
    /// id. Everything else is as before.
    pub open spec fn spawned(
        self,
        components: Seq<ErasedComponent>,
        entity: Entity,
        post: WorldView,
    ) -> bool {
        let ids = post.ids_of(components);
        let reuse = self.free_indices.len() > 0;
        let index = self.next_index();
        let t = post.entries[index].table_index as int;
        let before = if t < self.tables.len() {
            self.tables[t]
        } else {
            TableView::empty(post.tables[t].component_set)
        };
        &&& post.registry == register_all(self.registry, identifiers(components))
        &&& all_distinct(ids)
        &&& entity.index == index
        &&& entity.generation == if reuse {
            self.entries[index].generation
        } else {
            0
        }
        &&& post.free_indices == if reuse {
            self.free_indices.drop_last()
        } else {
            self.free_indices
        }
        &&& post.entries == {
            let entry = EntityTableData {
                generation: entity.generation,
                table_index: t as usize,
                inner_table_index: before.next_row() as usize,
                live: true,
            };
            if reuse {
                self.entries.update(index, entry)
            } else {
                self.entries.push(entry)
            }
        }
        &&& 0 <= t <= self.tables.len()
        &&& post.tables.len() == if t < self.tables.len() {
            self.tables.len()
        } else {
            self.tables.len() + 1
        }
        &&& is_component_set_of(before.component_set, ids)
        &&& t == self.tables.len() ==> !self.has_archetype(before.component_set)
        &&& before.row_inserted(entity, ids, components, post.tables[t])
        &&& forall|u: int|
            0 <= u < self.tables.len() && u != t ==> (#[trigger] post.tables[u]) == self.tables[u]
    }

    /// Whether `post` is this world after the bundle `components` was
    /// refused with `error`: the components' identifiers are registered, and
    /// nothing else has changed.
    pub open spec fn refused(
        self,
        components: Seq<ErasedComponent>,
        error: SpawnError,
        post: WorldView,
    ) -> bool {
        &&& post == (WorldView {
            registry: register_all(self.registry, identifiers(components)),
            ..self
        })
        &&& match error {
            SpawnError::DuplicateComponent(id) => is_least_repeated(post.ids_of(components), id),
        }
    }

    /// Whether `result` and `post` are what spawning the bundle
    /// `components` in this world gives.
    pub open spec fn spawn_outcome(
        self,
        components: Seq<ErasedComponent>,
        result: Result<Entity, SpawnError>,
        post: WorldView,
    ) -> bool {
        match result {
            Ok(entity) => self.spawned(components, entity, post),
            Err(error) => self.refused(components, error, post),
        }
    }

    /// Whether `post` is this world after the living entity `entity` was
    /// removed: its slot moves on to the next generation and is vacant, its
    /// row is vacated, and its index is free for reuse.
    pub open spec fn despawned(self, entity: Entity, post: WorldView) -> bool {
        let entry = self.entries[entity.index as int];
        let t = entry.table_index as int;
        &&& post.registry == self.registry
        &&& post.entries == self.entries.update(
            entity.index as int,
            EntityTableData { generation: (entry.generation + 1) as u32, live: false, ..entry },
        )
        &&& post.free_indices == self.free_indices.push(entity.index)
        &&& post.tables.len() == self.tables.len()
        &&& self.tables[t].row_vacated(entry.inner_table_index as int, post.tables[t])
        &&& forall|u: int|
            0 <= u < self.tables.len() && u != t ==> (#[trigger] post.tables[u]) == self.tables[u]
    }
}

/// A world which holds all entities. An entity is valid per world.
pub struct World {
    tables: Vec<Table>,
    entities: Vec<EntityTableData>,
    removed: Vec<usize>,
    component_lookup: ComponentLookup,
}

impl View for World {
    type V = WorldView;

    closed spec fn view(&self) -> WorldView {
        WorldView {
            registry: self.component_lookup@,
            tables: Seq::new(self.tables.len() as nat, |t: int| self.tables[t]@),
            entries: self.entities@,
            free_indices: self.removed@,
        }
    }
}

impl World {
    /// Whether the world is well formed: its contents are, and its registry
    /// is ready to hand out the next id.
    pub closed spec fn wf(&self) -> bool {
        &&& self.component_lookup.wf()
        &&& self@.wf()
    }

    /// The contents of a well-formed world are well formed.
    pub proof fn lemma_wf_view(&self)
        requires
            self.wf(),
        ensures
            self@.wf(),
    {
    }

    /// A world without entities.
    pub fn new() -> (world: World)
        ensures
            world.wf(),
            world@ == WorldView::empty(),
    {
        let world = World {
            tables: Vec::new(),
            entities: Vec::new(),
            removed: Vec::new(),
            component_lookup: ComponentLookup::new(),
        };
        assert(world@.tables =~= Seq::empty());
        world
    }

    /// The index table's entry for `entity`, if the handle is valid: if it
    /// names a slot that was handed out and carries the slot's generation.
    pub fn get_valid_entity_table_data(&self, entity: &Entity) -> (data: Option<&EntityTableData>)
        ensures
            data is Some <==> self@.is_valid(*entity),
            data matches Some(entry) ==> *entry == self@.entries[entity.index as int],
    {
        if entity.index < self.entities.len() {
            let entry = &self.entities[entity.index];
            if entry.generation == entity.generation {
                return Some(entry);
            }
        }
        None
    }

    /// Whether `entity` is a valid handle: the generations are compared,
    /// and nothing else.
    pub fn is_valid(&self, entity: &Entity) -> (valid: bool)
        ensures
            valid == self@.is_valid(*entity),
    {
        self.get_valid_entity_table_data(entity).is_some()
    }

    /// The component of `entity` whose type has the identifier `identifier`,
    /// if the entity lives and has such a component. A valid handle whose
    /// slot is vacant has no components.
    pub fn component(&self, entity: &Entity, identifier: &str) -> (found: Option<&ErasedComponent>)
        requires
            self.wf(),
        ensures
            found is Some <==> self@.is_alive(*entity) && self@.registry.contains_key(identifier@)
                && self@.component_of(*entity, self@.registry[identifier@]) is Some,
            found matches Some(component) ==> self@.component_of(
                *entity,
                self@.registry[identifier@],
            ) == Some(*component),
    {
        let entry = match self.get_valid_entity_table_data(entity) {
            Some(entry) => entry,
            None => {
                return None;
            },
        };
        if !entry.live {
            return None;
        }
        let id = match self.component_lookup.get(identifier) {
            Some(id) => id,
            None => {
                return None;
            },
        };
        assert(self@.entry_names_row(entity.index as int));
        self.tables[entry.table_index].get(entry.inner_table_index, id)
    }

    /// The number of archetype tables.
    pub fn table_count(&self) -> (count: usize)
        ensures
            count == self@.tables.len(),
    {
        self.tables.len()
    }

    /// The archetype table with the index `index`, if there is one.
    pub fn table(&self, index: usize) -> (table: Option<&Table>)
        ensures
            table is Some <==> index < self@.tables.len(),
            table matches Some(found) ==> found@ == self@.tables[index as int],
    {
        if index < self.tables.len() {
            Some(&self.tables[index])
        } else {
            None
        }
    }

    /// The number of entity indices handed out so far, living or not.
    pub fn slot_count(&self) -> (count: usize)
        ensures
            count == self@.entries.len(),
    {
        self.entities.len()
    }

    /// The entity indices that are free for reuse, a stack: the last one is
    /// taken first.
    pub fn free_indices(&self) -> (indices: &Vec<usize>)
        ensures
            indices@ == self@.free_indices,
    {
        &self.removed
    }

    /// The handle of the entity that lives in the slot `index`, if one does.
    pub fn entity_at(&self, index: usize) -> (entity: Option<Entity>)
        ensures
            entity is Some <==> index < self@.entries.len() && self@.entries[index as int].live,
            entity matches Some(handle) ==> handle.index == index && self@.is_alive(handle),
    {
        if index < self.entities.len() && self.entities[index].live {
            Some(Entity { index, generation: self.entities[index].generation })
        } else {
            None
        }
    }

    /// The number of living entities.
    pub fn live_entity_count(&self) -> (count: usize)
        ensures
            count == self@.live_count(),
    {
        let ghost is_live = |entry: EntityTableData| entry.live;
        let mut count: usize = 0;
        let mut index: usize = 0;
        assert(self.entities@.take(0) =~= Seq::empty());
        while index < self.entities.len()
            invariant
                index <= self.entities.len(),
                count <= index,
                is_live == |entry: EntityTableData| entry.live,
                count == self.entities@.take(index as int).filter(is_live).len(),
            decreases self.entities.len() - index,
        {
            proof {
                let next = self.entities@.take(index + 1);
                assert(next.drop_last() =~= self.entities@.take(index as int));
                assert(next.last() == self.entities[index as int]);
                reveal(Seq::filter);
            }
            if self.entities[index].live {
                count += 1;
            }
            index += 1;
        }
        assert(self.entities@.take(index as int) =~= self.entities@);
        count
    }

    /// The handles of all living entities, in the order of their indices.
    pub fn live_entities(&self) -> (handles: Vec<Entity>)
        ensures
            forall|entity: Entity| handles@.contains(entity) <==> self@.is_alive(entity),
            forall|a: int, b: int|
                0 <= a < b < handles.len() ==> handles[a].index < handles[b].index,
    {
        let mut handles: Vec<Entity> = Vec::new();
        let mut index: usize = 0;
        while index < self.entities.len()
            invariant
                index <= self.entities.len(),
                forall|k: int| 0 <= k < handles.len() ==> handles[k].index < index,
                forall|a: int, b: int|
                    0 <= a < b < handles.len() ==> handles[a].index < handles[b].index,
                forall|entity: Entity|
                    handles@.contains(entity) <==> entity.index < index && self@.is_alive(entity),
            decreases self.entities.len() - index,
        {
            let entry = &self.entities[index];
            if entry.live {
                let ghost before = handles@;
                let handle = Entity { index, generation: entry.generation };
                handles.push(handle);
                assert forall|entity: Entity|
                    handles@.contains(entity) <==> entity.index < index + 1 && self@.is_alive(
                        entity,
                    ) by {
                    if before.contains(entity) {
                        let k = before.index_of(entity);
                        assert(handles[k] == entity);
                    }
                    if entity == handle {
                        assert(handles[before.len() as int] == entity);
                    }
                }
            }
            index += 1;
        }
        handles
    }

    /// Registers the identifier of every component of the bundle and returns
    /// their ids, in the bundle's order.
    pub fn get_component_set(&mut self, components: &[ErasedComponent]) -> (ids: Vec<usize>)
        requires
            old(self).wf(),
        ensures
            final(self).wf(),
            final(self)@ == (WorldView {
                registry: register_all(old(self)@.registry, identifiers(components@)),
                ..old(self)@
            }),
            ids@ == final(self)@.ids_of(components@),
            forall|k: int| 0 <= k < ids.len() ==> ids[k] < final(self)@.registry.len(),
    {
        let ghost names = identifiers(components@);
        let mut ids: Vec<usize> = Vec::new();
        let mut k: usize = 0;
        assert(names.take(0) =~= Seq::empty());
        while k < components.len()
            invariant
                k <= components.len(),
                names == identifiers(components@),
                self.component_lookup.wf(),
                self.component_lookup@ == register_all(old(self)@.registry, names.take(k as int)),
                self.tables == old(self).tables,
                self.entities == old(self).entities,
                self.removed == old(self).removed,
                ids.len() == k,
                forall|j: int|
                    0 <= j < k ==> self.component_lookup@.contains_key(
                        (#[trigger] components[j]).identifier(),
                    ),
                forall|j: int|
                    0 <= j < k ==> (#[trigger] ids[j])
                        == self.component_lookup@[components[j].identifier()],
            decreases components.len() - k,
        {
            let id = components[k].get_id().to_owned();
            proof {
                self.component_lookup.lemma_wf_dense();
                lemma_register(self.component_lookup@, id@);
                assert(names.take(k + 1).drop_last() =~= names.take(k as int));
                assert(names.take(k + 1).last() == id@);
            }
            let ghost known = self.component_lookup@;
            let ghost given = ids@;
            let index = self.component_lookup.get_or_create(id);
            ids.push(index);
            k += 1;
            proof {
                assert forall|j: int| 0 <= j < k implies self.component_lookup@.contains_key(
                    (#[trigger] components[j]).identifier(),
                ) by {
                    if j < k - 1 {
                        assert(known.dom().contains(components[j].identifier()));
                    }
                }
                assert forall|j: int| 0 <= j < k implies (#[trigger] ids[j])
                    == self.component_lookup@[components[j].identifier()] by {
                    if j < k - 1 {
                        assert(given[j] == ids[j]);
                        assert(known.dom().contains(components[j].identifier()));
                    }
                }
            }
        }
        proof {
            assert(names.take(k as int) =~= names);
            self.component_lookup.lemma_wf_dense();
            assert(ids@ =~= self@.ids_of(components@));
            assert(self@.tables == old(self)@.tables);
        }
        ids
    }

    /// The index of the table that stores the component set `components`,
    /// which is made, without rows, if no table stores that set yet. The
    /// set is handed over sorted. A set in which an id occurs twice is
    /// refused, with the smallest such id, and the world is left as it was.
    pub fn get_or_create_table(&mut self, components: Vec<usize>) -> (result: Result<
        usize,
        SpawnError,
    >)
        requires
            old(self).wf(),
            non_decreasing(components@),
            forall|k: int| 0 <= k < components.len() ==> components[k] < usize::MAX,
        ensures
            final(self).wf(),
            result is Ok <==> strictly_increasing(components@),
            result matches Err(SpawnError::DuplicateComponent(id)) ==> is_least_repeated(
                components@,
                id,
            ) && final(self)@ == old(self)@,
            result matches Ok(table_index) ==> {
                &&& table_index < final(self)@.tables.len()
                &&& final(self)@.tables[table_index as int].component_set == components@
                &&& final(self)@ == (WorldView {
                    tables: if old(self)@.has_archetype(components@) {
                        old(self)@.tables
                    } else {
                        old(self)@.tables.push(TableView::empty(components@))
                    },
                    ..old(self)@
                })
                &&& !old(self)@.has_archetype(components@) ==> table_index == old(
                    self,
                )@.tables.len()
            },
    {
        // validate uniqueness
        let mut k: usize = 1;
        while k < components.len()
            invariant
                1 <= k,
                *self == *old(self),
                self.wf(),
                non_decreasing(components@),
                forall|j: int| 0 < j < k && j < components.len() ==> components[j - 1]
                    < #[trigger] components[j],
            decreases components.len() - k,
        {
            if components[k - 1] == components[k] {
                proof {
                    lemma_first_repeat_is_least(components@, k as int);
                }
                return Err(SpawnError::DuplicateComponent(components[k]));
            }
            k += 1;
        }
        proof {
            lemma_no_repeat_is_strict(components@);
        }
        let component_set = components;
        // Find the table with matching components or create and add a new one
        let mut index: usize = 0;
        while index < self.tables.len()
            invariant
                index <= self.tables.len(),
                *self == *old(self),
                self.wf(),
                component_set@ == components@,
                forall|t: int|
                    0 <= t < index ==> (#[trigger] self@.tables[t]).component_set
                        != component_set@,
            decreases self.tables.len() - index,
        {
            if self.tables[index].has_component_set(component_set.as_slice()) {
                assert(self@.tables[index as int].component_set == component_set@);
                return Ok(index);
            }
            index += 1;
        }
        let ghost set = component_set@;
        let table = Table::new(component_set);
        self.tables.push(table);
        proof {
            let pre = old(self)@;
            let post = self@;
            assert(!pre.has_archetype(set));
            assert(post.tables =~= pre.tables.push(TableView::empty(set)));
            assert forall|t: int, row: int|
                0 <= t < post.tables.len() && 0 <= row < post.tables[t].entities.len() && (
                #[trigger] post.tables[t].entities[row]) is Some implies post.row_names_entry(
                t,
                row,
            ) by {
                assert(pre.row_names_entry(t, row));
            }
            assert forall|i: int|
                0 <= i < post.entries.len() && (#[trigger] post.entries[i]).live implies post.entry_names_row(
                i,
            ) by {
                assert(pre.entry_names_row(i));
            }
        }
        Ok(self.tables.len() - 1)
    }

    /// Spawns an entity with the components of `components`.
    ///
    /// The bundle is refused, and no entity made, if two of its components
    /// are of one type.
    pub fn spawn_entity_from_vec(&mut self, components: Vec<ErasedComponent>) -> (result: Result<
        Entity,
        SpawnError,
    >)
        requires
            old(self).wf(),
        ensures
            final(self).wf(),
            old(self)@.spawn_outcome(components@, result, final(self)@),
    {
        let ghost given = components@;
        let ids = self.get_component_set(components.as_slice());
        let ghost bundle_ids = ids@;
        let ghost registered = self@;
        let (component_set, sorted) = match sort_components(ids, components) {
            Ok(arranged) => arranged,
            Err(error) => {
                return Err(error);
            },
        };
        let ghost set = component_set@;
        let ghost sorted_components = sorted@;
        proof {
            lemma_arranged_ids(bundle_ids, given, set, sorted_components);
            assert forall|k: int| 0 <= k < set.len() implies set[k] < usize::MAX by {
                assert(set.contains(set[k]));
                let j = bundle_ids.index_of(set[k]);
                assert(bundle_ids[j] < registered.registry.len());
            }
        }
        let wanted = component_set.clone();
        assert(wanted@ =~= set);
        let table_index = match self.get_or_create_table(wanted) {
            Ok(table_index) => table_index,
            Err(error) => {
                return Err(error);
            },
        };
        let ghost prepared = self@;
        let ghost before = prepared.tables[table_index as int];
        let index = match self.removed.pop() {
            Some(index) => index,
            None => self.entities.len(),
        };
        assert(index == old(self)@.next_index());
        assert(index < self.entities.len() <==> old(self)@.free_indices.len() > 0) by {
            if old(self)@.free_indices.len() > 0 {
                assert(old(self)@.free_indices[old(self)@.free_indices.len() - 1] < old(
                    self,
                )@.entries.len());
            }
        }
        let generation = if index < self.entities.len() {
            self.entities[index].generation
        } else {
            0
        };
        let entity = Entity { index, generation };
        assert(before.wf());
        let inner_table_index = self.tables[table_index].add(
            entity,
            component_set.as_slice(),
            sorted,
        );
        let entry = EntityTableData { generation, table_index, inner_table_index, live: true };
        if index < self.entities.len() {
            self.entities[index] = entry;
        } else {
            self.entities.push(entry);
        }
        proof {
            let pre = old(self)@;
            let post = self@;
            let after = self.tables[table_index as int]@;
            assert(post.tables =~= prepared.tables.update(table_index as int, after));
            lemma_arranged_row(before, entity, bundle_ids, given, set, sorted_components, after);
            assert(post.ids_of(given) == bundle_ids);
            if pre.has_archetype(set) {
                assert(before == pre.tables[table_index as int]);
            } else {
                assert(before == TableView::empty(post.tables[table_index as int].component_set));
            }
            assert(self.entities.len() <= usize::MAX);
            assert(pre.spawned(given, entity, post));
            self.component_lookup.lemma_wf_dense();
            lemma_spawned_wf(pre, given, entity, post);
        }
        Ok(entity)
    }

    /// Spawns an entity with the components of the bundle `components`, in
    /// the order in which the bundle hands them out.
    pub fn spawn_entity<T: ComponentBundle>(&mut self, components: T) -> (result: Result<
        Entity,
        SpawnError,
    >)
        requires
            old(self).wf(),
        ensures
            final(self).wf(),
            exists|given: Seq<ErasedComponent>|
                components.yields(given) && #[trigger] old(self)@.spawn_outcome(
                    given,
                    result,
                    final(self)@,
                ),
    {
        let given = components.into_components();
        let ghost handed = given@;
        let result = self.spawn_entity_from_vec(given);
        assert(components.yields(handed) && old(self)@.spawn_outcome(handed, result, self@));
        result
    }

    /// The index table's entry for `entity`, to be changed in place, if the
    /// handle is valid.
    fn get_valid_entity_table_data_mut(&mut self, entity: &Entity) -> (data: Option<
        &mut EntityTableData,
    >)
        ensures
            data is Some <==> old(self)@.is_valid(*entity),
            data matches Some(entry) ==> {
                &&& *entry == old(self)@.entries[entity.index as int]
                &&& final(self).entities@ == old(self).entities@.update(
                    entity.index as int,
                    *final(entry),
                )
            },
            data is None ==> final(self).entities@ == old(self).entities@,
            final(self).tables == old(self).tables,
            final(self).removed == old(self).removed,
            final(self).component_lookup == old(self).component_lookup,
    {
        if entity.index < self.entities.len() {
            let entry = &self.entities[entity.index];
            if entry.generation == entity.generation {
                return Some(&mut self.entities[entity.index]);
            }
        }
        None
    }

    /// Removes the entity of `entity`: its slot moves on to the next
    /// generation, which makes every copy of the handle invalid, its row is
    /// vacated, and its index is free for reuse.
    ///
    /// A handle that is not valid changes nothing. Nor does a valid handle
    /// whose slot is vacant, which this world cannot have handed out: no
    /// slot and no row is ever freed twice. A slot in the last generation
    /// has no next one, so its entity cannot be removed.
    pub fn remove(&mut self, entity: &Entity)
        requires
            old(self).wf(),
            old(self)@.is_alive(*entity) ==> entity.generation < u32::MAX,
        ensures
            final(self).wf(),
            old(self)@.is_alive(*entity) ==> old(self)@.despawned(*entity, final(self)@),
            old(self)@.is_valid(*entity) && !old(self)@.is_alive(*entity) ==> final(self)@ == old(
                self,
            )@,
            !old(self)@.is_valid(*entity) ==> final(self)@ == old(self)@,
    {
        let (table_index, inner_table_index) = match self.get_valid_entity_table_data_mut(
            entity,
        ) {
            Some(entity_table_data) => {
                if !entity_table_data.live {
                    assert(self.entities@ =~= old(self).entities@);
                    assert(self@.tables =~= old(self)@.tables);
                    return ;
                }
                // Invalidate all references
                entity_table_data.generation += 1;
                entity_table_data.live = false;
                (entity_table_data.table_index, entity_table_data.inner_table_index)
            },
            None => {
                assert(self@.tables =~= old(self)@.tables);
                return ;
            },
        };
        assert(self@.tables =~= old(self)@.tables);
        assert(old(self)@.entry_names_row(entity.index as int));
        // remove from table
        self.tables[table_index].remove(inner_table_index);
        // mark as free
        self.removed.push(entity.index);
        proof {
            let pre = old(self)@;
            let post = self@;
            assert(post.tables =~= pre.tables.update(
                table_index as int,
                self.tables[table_index as int]@,
            ));
            assert(pre.despawned(*entity, post));
            lemma_despawned_wf(pre, *entity, post);
        }
    }
}

/// The ids of a bundle that was brought into the order of a component set
/// are the ids of that set.
pub proof fn lemma_arranged_ids(
    ids: Seq<usize>,
    components: Seq<ErasedComponent>,
    set: Seq<usize>,
    sorted: Seq<ErasedComponent>,
)
    requires
        arranges(ids, components, set, sorted),
    ensures
        is_component_set_of(set, ids),
{
    assert forall|id: usize| set.contains(id) <==> ids.contains(id) by {
        if set.contains(id) {
            let j = set.index_of(id);
            assert(holds_pair(ids, components, 0, true, set[j], sorted[j]));
        }
        if ids.contains(id) {
            let k = ids.index_of(id);
            assert(holds_pair(set, sorted, 0, true, ids[k], components[k]));
        }
    }
}

/// A row that holds the sorted components in the columns of the sorted ids
/// holds every component of the bundle in the column of its id.
pub proof fn lemma_arranged_row(
    before: TableView,
    entity: Entity,
    ids: Seq<usize>,
    components: Seq<ErasedComponent>,
    set: Seq<usize>,
    sorted: Seq<ErasedComponent>,
    after: TableView,
)
    requires
        arranges(ids, components, set, sorted),
        before.row_inserted(entity, set, sorted, after),
    ensures
        before.row_inserted(entity, ids, components, after),
{
    let row = before.next_row();
    let reuse = before.free_rows.len() > 0;
    assert forall|k: int| 0 <= k < ids.len() implies after.columns[(#[trigger] ids[k]) as int]
        == Some(
        if reuse {
            before.columns[ids[k] as int]->0.update(row, Some(components[k]))
        } else {
            before.columns[ids[k] as int]->0.push(Some(components[k]))
        },
    ) by {
        assert(holds_pair(set, sorted, 0, true, ids[k], components[k]));
        let j = choose|j: int|
            0 <= j < set.len() && #[trigger] set[j] == ids[k] && sorted[j] == components[k];
        assert(set[j] == ids[k]);
    }
}

/// Spawning keeps a world well formed.
pub proof fn lemma_spawned_wf(
    pre: WorldView,
    components: Seq<ErasedComponent>,
    entity: Entity,
    post: WorldView,
)
    requires
        pre.wf(),
        pre.spawned(components, entity, post),
        post.registry.len() <= usize::MAX,
        post.entries.len() <= usize::MAX,
        post.tables[post.entries[entity.index as int].table_index as int].entities.len()
            <= usize::MAX,
    ensures
        post.wf(),
{
    lemma_register_all(pre.registry, identifiers(components));
    let index = pre.next_index();
    let reuse = pre.free_indices.len() > 0;
    let t = post.entries[index].table_index as int;
    let before = if t < pre.tables.len() {
        pre.tables[t]
    } else {
        TableView::empty(post.tables[t].component_set)
    };
    let row = before.next_row();
    let after = post.tables[t];
    if reuse {
        assert(pre.free_indices[pre.free_indices.len() - 1] < pre.entries.len());
    }
    assert(!(index < pre.entries.len() && pre.entries[index].live));
    if t < pre.tables.len() {
        assert(before.wf());
    } else {
        assert(after.component_set == before.component_set);
        crate::table::lemma_empty_wf(before.component_set);
    }
    if before.free_rows.len() > 0 {
        assert(before.free_rows[before.free_rows.len() - 1] < before.entities.len());
        assert(before.entities[row] is None);
    }
    assert(after.entities[row] == Some(entity));
    let ids = post.ids_of(components);
    crate::table::lemma_inserted_wf(before, entity, ids, components, after);
    assert forall|u: int| 0 <= u < post.tables.len() implies (#[trigger] post.tables[u]).wf() by {
        if u != t {
            assert(post.tables[u] == pre.tables[u]);
        }
    }

    assert forall|u: int, v: int| 0 <= u < v < post.tables.len() implies (
    #[trigger] post.tables[u]).component_set != (#[trigger] post.tables[v]).component_set by {
        if v == t && t == pre.tables.len() {
            assert(post.tables[u] == pre.tables[u]);
            assert(!pre.has_archetype(before.component_set));
        } else {
            assert(post.tables[u].component_set == pre.tables[u].component_set);
            assert(post.tables[v].component_set == pre.tables[v].component_set);
        }
    }
    assert forall|i: int|
        0 <= i < post.entries.len() && (#[trigger] post.entries[i]).live implies post.entry_names_row(
        i,
    ) by {
        if i != index {
            assert(pre.entries[i] == post.entries[i]);
            assert(pre.entry_names_row(i));
            let entry = pre.entries[i];
            if entry.table_index as int != t {
                assert(post.tables[entry.table_index as int] == pre.tables[entry.table_index as int]);
            }
        }
    }
    assert forall|u: int, r: int|
        0 <= u < post.tables.len() && 0 <= r < post.tables[u].entities.len() && (
        #[trigger] post.tables[u].entities[r]) is Some implies post.row_names_entry(u, r) by {
        if u == t && r == row {
        } else {
            if u != t {
                assert(post.tables[u] == pre.tables[u]);
            }
            assert(pre.tables[u].entities[r] == post.tables[u].entities[r]);
            assert(pre.row_names_entry(u, r));
        }
    }
    assert forall|k: int| 0 <= k < post.free_indices.len() implies {
        &&& (#[trigger] post.free_indices[k]) < post.entries.len()
        &&& !post.entries[post.free_indices[k] as int].live
    } by {
        assert(post.free_indices[k] == pre.free_indices[k]);
        assert(pre.free_indices[k] < pre.entries.len());
        if reuse {
            assert(pre.free_indices[k] != pre.free_indices[pre.free_indices.len() - 1]);
        }
    }
    assert forall|i: int|
        0 <= i < post.entries.len() && !(#[trigger] post.entries[i]).live implies post.free_indices.contains(
        i as usize,
    ) by {
        assert(i != index);
        assert(pre.entries[i] == post.entries[i]);
        let k = pre.free_indices.index_of(i as usize);
        assert(post.free_indices[k] == i as usize);
    }
}

/// Removing a living entity keeps a world well formed.
pub proof fn lemma_despawned_wf(pre: WorldView, entity: Entity, post: WorldView)
    requires
        pre.wf(),
        pre.is_alive(entity),
        pre.despawned(entity, post),
    ensures
        post.wf(),
{
    let index = entity.index as int;
    let entry = pre.entries[index];
    let t = entry.table_index as int;
    let row = entry.inner_table_index as int;
    assert(pre.entry_names_row(index));
    assert(pre.tables[t].wf());
    crate::table::lemma_vacated_wf(pre.tables[t], row, post.tables[t]);
    assert forall|u: int| 0 <= u < post.tables.len() implies (#[trigger] post.tables[u]).wf() by {
        if u != t {
            assert(post.tables[u] == pre.tables[u]);
        }
    }
    assert forall|u: int, v: int| 0 <= u < v < post.tables.len() implies (
    #[trigger] post.tables[u]).component_set != (#[trigger] post.tables[v]).component_set by {
        assert(post.tables[u].component_set == pre.tables[u].component_set);
        assert(post.tables[v].component_set == pre.tables[v].component_set);
    }
    assert forall|i: int|
        0 <= i < post.entries.len() && (#[trigger] post.entries[i]).live implies post.entry_names_row(
        i,
    ) by {
        assert(i != index);
        assert(pre.entries[i] == post.entries[i]);
        assert(pre.entry_names_row(i));
        let other = pre.entries[i];
        if other.table_index as int != t {
            assert(post.tables[other.table_index as int] == pre.tables[other.table_index as int]);
        }
    }
    assert forall|u: int, r: int|
        0 <= u < post.tables.len() && 0 <= r < post.tables[u].entities.len() && (
        #[trigger] post.tables[u].entities[r]) is Some implies post.row_names_entry(u, r) by {
        if u != t {
            assert(post.tables[u] == pre.tables[u]);
        }
        assert(pre.tables[u].entities[r] == post.tables[u].entities[r]);
        assert(pre.row_names_entry(u, r));
    }
    assert forall|k: int| 0 <= k < post.free_indices.len() implies {
        &&& (#[trigger] post.free_indices[k]) < post.entries.len()
        &&& !post.entries[post.free_indices[k] as int].live
    } by {
        if k < pre.free_indices.len() {
            assert(post.free_indices[k] == pre.free_indices[k]);
            assert(pre.free_indices[k] < pre.entries.len());
        }
    }
    assert forall|k: int, l: int| 0 <= k < l < post.free_indices.len() implies post.free_indices[k]
        != post.free_indices[l] by {
        assert(pre.free_indices[k] < pre.entries.len());
    }
    assert forall|i: int|
        0 <= i < post.entries.len() && !(#[trigger] post.entries[i]).live implies post.free_indices.contains(
        i as usize,
    ) by {
        if i == index {
            assert(post.free_indices[pre.free_indices.len() as int] == i as usize);
        } else {
            assert(pre.entries[i] == post.entries[i]);
            let k = pre.free_indices.index_of(i as usize);
            assert(post.free_indices[k] == i as usize);
        }
    }
}

} // verus!
