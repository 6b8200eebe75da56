//! What holds of every world, whatever is spawned and removed in it.
use crate::component::ErasedComponent;
use crate::component_set::{is_component_set_of, SpawnError};
use crate::entity::{Entity, EntityTableData};
use crate::table::{strictly_increasing, TableView};
use crate::world::WorldView;
use vstd::prelude::*;

verus! {

/// Whether `post` is what one operation makes of the world `pre`: a spawn,
/// accepted or refused, the removal of a valid entity, or nothing at all.
pub open spec fn step(pre: WorldView, post: WorldView) -> bool {
    ||| post == pre
    ||| exists|components: Seq<ErasedComponent>, result: Result<Entity, SpawnError>| #[trigger]
        pre.spawn_outcome(components, result, post)
    ||| exists|entity: Entity| pre.is_alive(entity) && entity.generation < u32::MAX && #[trigger] pre.despawned(
        entity,
        post,
    )
}

/// Whether `history` is a run of well-formed worlds, each made from the one
/// before it by one operation.
pub open spec fn is_history(history: Seq<WorldView>) -> bool {
    &&& forall|i: int| 0 <= i < history.len() ==> (#[trigger] history[i]).wf()
    &&& forall|i: int| 0 <= i < history.len() - 1 ==> step(#[trigger] history[i], history[i + 1])
}

/// No operation shrinks the index table or takes a slot back to an earlier
/// generation.
pub proof fn lemma_step_keeps_generations(pre: WorldView, post: WorldView)
    requires
        pre.wf(),
        step(pre, post),
    ensures
        pre.entries.len() <= post.entries.len(),
        forall|i: int|
            0 <= i < pre.entries.len() ==> pre.entries[i].generation <= (
            #[trigger] post.entries[i]).generation,
{
    if post == pre {
    } else if exists|components: Seq<ErasedComponent>, result: Result<Entity, SpawnError>| #[trigger]
        pre.spawn_outcome(components, result, post) {
        let (components, result) = choose|
            components: Seq<ErasedComponent>,
            result: Result<Entity, SpawnError>,
        | #[trigger] pre.spawn_outcome(components, result, post);
        match result {
            Ok(entity) => {
                if pre.free_indices.len() > 0 {
                    assert(pre.free_indices[pre.free_indices.len() - 1] < pre.entries.len());
                }
            },
            Err(_) => {},
        }
    } else {
        let entity = choose|entity: Entity|
            pre.is_alive(entity) && entity.generation < u32::MAX && #[trigger] pre.despawned(
                entity,
                post,
            );
        assert(pre.entry_names_row(entity.index as int));
    }
}

/// Generational invalidation: once an entity has been removed, its handle is
/// invalid in every later world, also after its index has been given to a
/// new entity.
pub proof fn law_generational_invalidation(history: Seq<WorldView>, entity: Entity, later: int)
    requires
        is_history(history),
        history.len() >= 2,
        history[0].is_alive(entity),
        entity.generation < u32::MAX,
        history[0].despawned(entity, history[1]),
        1 <= later < history.len(),
    ensures
        history[later].is_stale(entity),
        !history[later].is_valid(entity),
    decreases later,
{
    if later == 1 {
        assert(history[0].entry_names_row(entity.index as int));
    } else {
        law_generational_invalidation(history, entity, later - 1);
        lemma_step_keeps_generations(history[later - 1], history[later]);
    }
}

/// An operation that does not remove the living entity of a slot leaves the
/// slot alone; one that removes it moves the slot on to the next generation.
pub proof fn lemma_step_keeps_live_entry(pre: WorldView, post: WorldView, index: int)
    requires
        pre.wf(),
        step(pre, post),
        0 <= index < pre.entries.len(),
        pre.entries[index].live,
    ensures
        index < post.entries.len(),
        post.entries[index] == pre.entries[index] || (!post.entries[index].live
            && post.entries[index].generation == pre.entries[index].generation + 1),
{
    assert(pre.entry_names_row(index));
    if post == pre {
    } else if exists|components: Seq<ErasedComponent>, result: Result<Entity, SpawnError>| #[trigger]
        pre.spawn_outcome(components, result, post) {
        let (components, result) = choose|
            components: Seq<ErasedComponent>,
            result: Result<Entity, SpawnError>,
        | #[trigger] pre.spawn_outcome(components, result, post);
        match result {
            Ok(entity) => {
                if pre.free_indices.len() > 0 {
                    assert(pre.free_indices[pre.free_indices.len() - 1] < pre.entries.len());
                }
            },
            Err(_) => {},
        }
    } else {
        let entity = choose|entity: Entity|
            pre.is_alive(entity) && entity.generation < u32::MAX && #[trigger] pre.despawned(
                entity,
                post,
            );
        assert(pre.entry_names_row(entity.index as int));
    }
}

/// For a handle that the world has handed out, a valid handle is the
/// handle of a living entity: from the spawn on, the slot is either still
/// occupied in the handle's generation or has moved on to a later one. So
/// the look at the slot that `remove` takes never stops the removal of an
/// entity by a handle of this world.
pub proof fn law_valid_handle_is_alive(
    history: Seq<WorldView>,
    components: Seq<ErasedComponent>,
    entity: Entity,
    later: int,
)
    requires
        is_history(history),
        history.len() >= 2,
        history[0].spawned(components, entity, history[1]),
        1 <= later < history.len(),
    ensures
        entity.index < history[later].entries.len(),
        history[later].entries[entity.index as int].generation >= entity.generation,
        history[later].is_valid(entity) ==> history[later].is_alive(entity),
    decreases later,
{
    if later == 1 {
        let pre = history[0];
        if pre.free_indices.len() > 0 {
            assert(pre.free_indices[pre.free_indices.len() - 1] < pre.entries.len());
        }
    } else {
        law_valid_handle_is_alive(history, components, entity, later - 1);
        lemma_step_keeps_generations(history[later - 1], history[later]);
        if history[later - 1].entries[entity.index as int].live {
            lemma_step_keeps_live_entry(history[later - 1], history[later], entity.index as int);
        }
    }
}

/// Index reuse: an entity index that was freed is taken again by the next
/// spawn, before any new index, with the generation that the slot has
/// reached. The old handle stays invalid, the new one is the handle of a
/// living entity.
///
/// An entity in the last generation cannot be removed, as its slot has no
/// next generation to move on to.
pub proof fn law_index_reuse(
    start: WorldView,
    removed: Entity,
    between: WorldView,
    components: Seq<ErasedComponent>,
    spawned: Entity,
    end: WorldView,
)
    requires
        start.wf(),
        start.is_alive(removed),
        start.despawned(removed, between),
        removed.generation < u32::MAX,
        between.spawned(components, spawned, end),
    ensures
        spawned.index == removed.index,
        spawned.generation == removed.generation + 1,
        end.entries.len() == start.entries.len(),
        !end.is_valid(removed),
        end.is_alive(spawned),
{
}

/// A spawn makes the index table longer by one entry if no index is free,
/// and not at all if one is; and a valid handle always names an index that
/// was handed out. So the live indices never go beyond the highest index
/// that was ever handed out.
pub proof fn law_high_water_mark(
    pre: WorldView,
    components: Seq<ErasedComponent>,
    spawned: Entity,
    post: WorldView,
    entity: Entity,
)
    requires
        pre.wf(),
        pre.spawned(components, spawned, post),
        post.is_valid(entity),
    ensures
        post.entries.len() == pre.entries.len() + if pre.free_indices.len() > 0 {
            0int
        } else {
            1int
        },
        entity.index < post.entries.len(),
        spawned.index < post.entries.len(),
        pre.free_indices.len() > 0 ==> spawned.index == pre.free_indices.last(),
        pre.free_indices.len() == 0 ==> spawned.index == pre.entries.len(),
{
    if pre.free_indices.len() > 0 {
        assert(pre.free_indices[pre.free_indices.len() - 1] < pre.entries.len());
    }
}

/// Two increasing sequences that hold the same ids are the same sequence: a
/// set of component ids has one component set, in whatever order and
/// however often a bundle names the ids.
pub proof fn lemma_component_set_unique(
    first: Seq<usize>,
    second: Seq<usize>,
)
    requires
        strictly_increasing(first),
        strictly_increasing(second),
        forall|id: usize| first.contains(id) <==> second.contains(id),
    ensures
        first == second,
    decreases first.len(),
{
    if first.len() == 0 {
        if second.len() > 0 {
            assert(second.contains(second[0]));
        }
        assert(first =~= second);
    } else {
        let top = first.last();
        assert(first.contains(top));
        assert(second.contains(top));
        let at = second.index_of(top);
        if at < second.len() - 1 {
            let above = second.last();
            assert(second.contains(above));
            let j = first.index_of(above);
            assert(first[j] <= top);
        }
        assert(second.last() == top);
        let a = first.drop_last();
        let b = second.drop_last();
        assert forall|id: usize| a.contains(id) <==> b.contains(id) by {
            if a.contains(id) {
                let i = a.index_of(id);
                assert(first[i] == id);
                assert(first.contains(id));
                let j = second.index_of(id);
                assert(j < second.len() - 1);
                assert(b[j] == id);
            }
            if b.contains(id) {
                let j = b.index_of(id);
                assert(second[j] == id);
                assert(second.contains(id));
                let i = first.index_of(id);
                assert(i < first.len() - 1);
                assert(a[i] == id);
            }
        }
        lemma_component_set_unique(a, b);
        assert(first =~= a.push(top));
        assert(second =~= b.push(top));
    }
}

/// Archetype partitioning: two living entities are in the same table exactly
/// if their bundles named the same set of component ids, in whatever order.
pub proof fn law_archetype_partitioning(
    world: WorldView,
    first: Entity,
    first_ids: Seq<usize>,
    second: Entity,
    second_ids: Seq<usize>,
)
    requires
        world.wf(),
        world.is_alive(first),
        world.is_alive(second),
        is_component_set_of(
            world.tables[world.entries[first.index as int].table_index as int].component_set,
            first_ids,
        ),
        is_component_set_of(
            world.tables[world.entries[second.index as int].table_index as int].component_set,
            second_ids,
        ),
    ensures
        (forall|id: usize| first_ids.contains(id) <==> second_ids.contains(id)) <==> world.entries[first.index as int].table_index
            == world.entries[second.index as int].table_index,
{
    let t = world.entries[first.index as int].table_index as int;
    let u = world.entries[second.index as int].table_index as int;
    assert(world.entry_names_row(first.index as int));
    assert(world.entry_names_row(second.index as int));
    assert(world.tables[t].wf() && world.tables[u].wf());
    if forall|id: usize| first_ids.contains(id) <==> second_ids.contains(id) {
        lemma_component_set_unique(world.tables[t].component_set, world.tables[u].component_set);
        if t != u {
            if t < u {
                assert(world.tables[t].component_set != world.tables[u].component_set);
            } else {
                assert(world.tables[u].component_set != world.tables[t].component_set);
            }
        }
    }
}

/// A spawned entity lives in the table of its bundle's component set, and
/// no operation ever changes the component set of a table.
pub proof fn law_archetype_of_spawned(
    pre: WorldView,
    components: Seq<ErasedComponent>,
    entity: Entity,
    post: WorldView,
)
    requires
        pre.wf(),
        pre.spawned(components, entity, post),
    ensures
        post.is_alive(entity),
        is_component_set_of(
            post.tables[post.entries[entity.index as int].table_index as int].component_set,
            post.ids_of(components),
        ),
        forall|t: int|
            0 <= t < pre.tables.len() ==> (#[trigger] post.tables[t]).component_set
                == pre.tables[t].component_set,
{
    if pre.free_indices.len() > 0 {
        assert(pre.free_indices[pre.free_indices.len() - 1] < pre.entries.len());
    }
    let t = post.entries[entity.index as int].table_index as int;
    assert forall|u: int| 0 <= u < pre.tables.len() implies (#[trigger] post.tables[u]).component_set
        == pre.tables[u].component_set by {
        if u != t {
            assert(post.tables[u] == pre.tables[u]);
        }
    }
}

/// Row integrity: in an occupied row every column of the table holds a
/// component, and the table has no column beside those of its component set.
pub proof fn law_row_integrity(table: TableView, row: int)
    requires
        table.wf(),
        table.is_occupied(row),
    ensures
        forall|k: int|
            0 <= k < table.component_set.len() ==> table.cell(
                row,
                (#[trigger] table.component_set[k]) as int,
            ) is Some,
        forall|c: int|
            0 <= c < table.columns.len() && !table.component_set.contains(c as usize) ==> (
            #[trigger] table.columns[c]) is None,
{
    assert forall|k: int| 0 <= k < table.component_set.len() implies table.cell(
        row,
        (#[trigger] table.component_set[k]) as int,
    ) is Some by {
        let c = table.component_set[k];
        assert(table.component_set.contains(c));
        assert(c <= table.component_set.last());
        assert(table.columns[c as int] is Some);
        assert(table.entities[row] is Some);
    }
}

/// Round trip: after a spawn the new handle is valid, and what is read back
/// from its row, in the column of a component's id, is the component that
/// the bundle held.
pub proof fn law_round_trip(
    pre: WorldView,
    components: Seq<ErasedComponent>,
    entity: Entity,
    post: WorldView,
    k: int,
)
    requires
        pre.wf(),
        pre.spawned(components, entity, post),
        0 <= k < components.len(),
    ensures
        post.is_alive(entity),
        post.component_of(entity, post.ids_of(components)[k]) == Some(components[k]),
{
    let ids = post.ids_of(components);
    let index = pre.next_index();
    if pre.free_indices.len() > 0 {
        assert(pre.free_indices[pre.free_indices.len() - 1] < pre.entries.len());
    }
    let t = post.entries[index].table_index as int;
    let before = if t < pre.tables.len() {
        pre.tables[t]
    } else {
        TableView::empty(post.tables[t].component_set)
    };
    if t < pre.tables.len() {
        assert(before.wf());
    } else {
        crate::table::lemma_empty_wf(before.component_set);
    }
    let id = ids[k];
    assert(ids.contains(id));
    assert(before.component_set.contains(id));
    let j = before.component_set.index_of(id);
    assert(before.component_set[j] <= before.component_set.last());
    assert(before.columns[id as int] is Some);
    if before.free_rows.len() > 0 {
        assert(before.free_rows[before.free_rows.len() - 1] < before.entities.len());
    }
}

/// Whatever is spawned, and whichever other entity is removed, a living
/// entity stays valid, stays in its row, and keeps its components.
pub proof fn law_others_unaffected(pre: WorldView, post: WorldView, entity: Entity, id: usize)
    requires
        pre.wf(),
        pre.is_alive(entity),
        step(pre, post),
        !pre.despawned(entity, post),
    ensures
        post.is_alive(entity),
        post.entries[entity.index as int] == pre.entries[entity.index as int],
        post.component_of(entity, id) == pre.component_of(entity, id),
{
    let entry = pre.entries[entity.index as int];
    let t = entry.table_index as int;
    let row = entry.inner_table_index as int;
    assert(pre.entry_names_row(entity.index as int));
    assert(pre.tables[t].wf());
    if post == pre {
    } else if exists|components: Seq<ErasedComponent>, result: Result<Entity, SpawnError>| #[trigger]
        pre.spawn_outcome(components, result, post) {
        let (components, result) = choose|
            components: Seq<ErasedComponent>,
            result: Result<Entity, SpawnError>,
        | #[trigger] pre.spawn_outcome(components, result, post);
        match result {
            Ok(spawned) => {
                if pre.free_indices.len() > 0 {
                    assert(pre.free_indices[pre.free_indices.len() - 1] < pre.entries.len());
                }
                let u = post.entries[spawned.index as int].table_index as int;
                if u == t {
                    let before = pre.tables[t];
                    let ids = post.ids_of(components);
                    if before.free_rows.len() > 0 {
                        assert(before.free_rows[before.free_rows.len() - 1]
                            < before.entities.len());
                    }
                    assert(before.next_row() != row);
                    if 0 <= id < before.columns.len() && before.columns[id as int] is Some {
                        assert(before.component_set.contains(id));
                        assert(ids.contains(id));
                        let k = ids.index_of(id);
                        assert(ids[k] == id);
                    }
                } else {
                    assert(post.tables[t] == pre.tables[t]);
                }
            },
            Err(_) => {},
        }
    } else {
        let other = choose|other: Entity|
            pre.is_alive(other) && other.generation < u32::MAX && #[trigger] pre.despawned(
                other,
                post,
            );
        assert(pre.entry_names_row(other.index as int));
        assert(other.index != entity.index);
        let u = pre.entries[other.index as int].table_index as int;
        if u == t {
            assert(pre.entries[other.index as int].inner_table_index != row);
        } else {
            assert(post.tables[t] == pre.tables[t]);
        }
    }
}

/// What a spawn gives is determined by the world and the bundle: no two
/// results, and no two worlds, fit one spawn.
pub proof fn law_spawn_is_determined(
    pre: WorldView,
    components: Seq<ErasedComponent>,
    first: Result<Entity, SpawnError>,
    first_post: WorldView,
    second: Result<Entity, SpawnError>,
    second_post: WorldView,
)
    requires
        pre.wf(),
        pre.spawn_outcome(components, first, first_post),
        pre.spawn_outcome(components, second, second_post),
    ensures
        first == second,
        first_post == second_post,
{
    let ids = first_post.ids_of(components);
    assert(second_post.ids_of(components) == ids);
    crate::component_set::lemma_distinct_iff_none_repeated(ids);
    match (first, second) {
        (Ok(a), Ok(b)) => {
            let index = pre.next_index();
            if pre.free_indices.len() > 0 {
                assert(pre.free_indices[pre.free_indices.len() - 1] < pre.entries.len());
            }
            let t = first_post.entries[index].table_index as int;
            let u = second_post.entries[index].table_index as int;
            let one = if t < pre.tables.len() {
                pre.tables[t]
            } else {
                TableView::empty(first_post.tables[t].component_set)
            };
            let other = if u < pre.tables.len() {
                pre.tables[u]
            } else {
                TableView::empty(second_post.tables[u].component_set)
            };
            lemma_component_set_unique(one.component_set, other.component_set);
            if t < pre.tables.len() {
                assert(pre.has_archetype(one.component_set));
            }
            if u < pre.tables.len() {
                assert(pre.has_archetype(other.component_set));
            }
            if t < u {
                assert(pre.tables[t].component_set != pre.tables[u].component_set);
            }
            if u < t {
                assert(pre.tables[u].component_set != pre.tables[t].component_set);
            }
            assert(t == u);
            assert(one == other);
            if t < pre.tables.len() {
                assert(one.wf());
            } else {
                crate::table::lemma_empty_wf(one.component_set);
            }
            let left = first_post.tables[t];
            let right = second_post.tables[t];
            assert forall|c: int| 0 <= c < left.columns.len() implies left.columns[c]
                == right.columns[c] by {
                if one.columns[c] is Some {
                    assert(one.component_set.contains(c as usize));
                    assert(ids.contains(c as usize));
                    let k = ids.index_of(c as usize);
                    assert(ids[k] as int == c);
                }
            }
            assert(left.columns =~= right.columns);
            assert(left == right);
            assert forall|v: int| 0 <= v < first_post.tables.len() implies first_post.tables[v]
                == second_post.tables[v] by {
                if v != t {
                    assert(first_post.tables[v] == pre.tables[v]);
                    assert(second_post.tables[v] == pre.tables[v]);
                }
            }
            assert(first_post.tables =~= second_post.tables);
            assert(a == b);
            assert(first_post.entries == second_post.entries);
        },
        (Err(SpawnError::DuplicateComponent(a)), Err(SpawnError::DuplicateComponent(b))) => {},
        (Ok(_), Err(SpawnError::DuplicateComponent(id))) => {
            assert(crate::component_set::is_repeated(ids, id));
        },
        (Err(SpawnError::DuplicateComponent(id)), Ok(_)) => {
            assert(crate::component_set::is_repeated(ids, id));
        },
    }
}

/// What the removal of a valid entity gives is determined by the world and
/// the handle.
pub proof fn law_despawn_is_determined(
    pre: WorldView,
    entity: Entity,
    first_post: WorldView,
    second_post: WorldView,
)
    requires
        pre.wf(),
        pre.is_alive(entity),
        pre.despawned(entity, first_post),
        pre.despawned(entity, second_post),
    ensures
        first_post == second_post,
{
    let t = pre.entries[entity.index as int].table_index as int;
    assert(pre.entry_names_row(entity.index as int));
    let left = first_post.tables[t];
    let right = second_post.tables[t];
    assert(left.columns =~= right.columns);
    assert(left == right);
    assert forall|v: int| 0 <= v < first_post.tables.len() implies first_post.tables[v]
        == second_post.tables[v] by {
        if v != t {
            assert(first_post.tables[v] == pre.tables[v]);
            assert(second_post.tables[v] == pre.tables[v]);
        }
    }
    assert(first_post.tables =~= second_post.tables);
}

/// Among the first `k` slots, as many meet `wanted` as there are indices
/// below `k` whose slot meets it.
pub proof fn lemma_count_is_number_of_indices(
    entries: Seq<EntityTableData>,
    wanted: spec_fn(EntityTableData) -> bool,
    k: int,
)
    requires
        0 <= k <= entries.len(),
        entries.len() <= usize::MAX,
    ensures
        Set::new(|i: usize| i < k && wanted(entries[i as int])).finite(),
        Set::new(|i: usize| i < k && wanted(entries[i as int])).len() == entries.take(k).filter(
            wanted,
        ).len(),
    decreases k,
{
    let indices = Set::new(|i: usize| i < k && wanted(entries[i as int]));
    reveal(Seq::filter);
    if k == 0 {
        assert(indices =~= Set::empty());
        assert(entries.take(0) =~= Seq::empty());
    } else {
        let before = Set::new(|i: usize| i < k - 1 && wanted(entries[i as int]));
        lemma_count_is_number_of_indices(entries, wanted, k - 1);
        assert(entries.take(k).drop_last() =~= entries.take(k - 1));
        assert(entries.take(k).last() == entries[k - 1]);
        if wanted(entries[k - 1]) {
            assert(indices =~= before.insert((k - 1) as usize));
            assert(!before.contains((k - 1) as usize));
        } else {
            assert(indices =~= before);
        }
    }
}

/// Every one of the first `k` slots is occupied or vacant.
pub proof fn lemma_slots_are_of_two_kinds(entries: Seq<EntityTableData>, k: int)
    requires
        0 <= k <= entries.len(),
    ensures
        entries.take(k).filter(|entry: EntityTableData| entry.live).len() + entries.take(k).filter(
            |entry: EntityTableData| !entry.live,
        ).len() == k,
    decreases k,
{
    reveal(Seq::filter);
    if k == 0 {
        assert(entries.take(0) =~= Seq::empty());
    } else {
        lemma_slots_are_of_two_kinds(entries, k - 1);
        assert(entries.take(k).drop_last() =~= entries.take(k - 1));
        assert(entries.take(k).last() == entries[k - 1]);
    }
}

/// The count of living entities: every slot that was ever handed out holds
/// a living entity or is on the list of free indices, and none is both. So
/// the living entities are the slots less the free indices, which are never
/// more than the slots.
pub proof fn law_live_count(world: WorldView)
    requires
        world.wf(),
    ensures
        world.free_indices.len() <= world.entries.len(),
        world.live_count() == world.entries.len() - world.free_indices.len(),
{
    let entries = world.entries;
    let n = entries.len() as int;
    let vacant = |entry: EntityTableData| !entry.live;
    let indices = Set::new(|i: usize| i < n && vacant(entries[i as int]));
    lemma_slots_are_of_two_kinds(entries, n);
    lemma_count_is_number_of_indices(entries, vacant, n);
    assert(entries.take(n) =~= entries);
    assert(world.free_indices.to_set() =~= indices) by {
        assert forall|i: usize| world.free_indices.to_set().contains(i) <==> indices.contains(
            i,
        ) by {
            if world.free_indices.contains(i) {
                let k = world.free_indices.index_of(i);
                assert(world.free_indices[k] < entries.len());
            }
            if indices.contains(i) {
                assert(!entries[i as int].live);
                assert(world.free_indices.contains(i));
            }
        }
    }
    assert(world.free_indices.no_duplicates()) by {
        assert forall|a: int, b: int|
            0 <= a < world.free_indices.len() && 0 <= b < world.free_indices.len() && a
                != b implies world.free_indices[a] != world.free_indices[b] by {
            if a < b {
                assert(world.free_indices[a] != world.free_indices[b]);
            } else {
                assert(world.free_indices[b] != world.free_indices[a]);
            }
        }
    }
    world.free_indices.unique_seq_to_set();
}

/// A removal takes one from the count of living entities, puts the index
/// on the free list once, moves the slot on by one generation, and frees
/// the row in its table.
pub proof fn law_removal_counts(pre: WorldView, entity: Entity, post: WorldView)
    requires
        pre.wf(),
        pre.is_alive(entity),
        entity.generation < u32::MAX,
        pre.despawned(entity, post),
    ensures
        post.wf(),
        post.live_count() == pre.live_count() - 1,
        post.free_indices == pre.free_indices.push(entity.index),
        !pre.free_indices.contains(entity.index),
        post.entries[entity.index as int].generation == entity.generation + 1,
        post.tables[pre.entries[entity.index as int].table_index as int].free_rows
            == pre.tables[pre.entries[entity.index as int].table_index as int].free_rows.push(
            pre.entries[entity.index as int].inner_table_index,
        ),
        !post.is_valid(entity),
{
    crate::world::lemma_despawned_wf(pre, entity, post);
    law_live_count(pre);
    law_live_count(post);
    if pre.free_indices.contains(entity.index) {
        let k = pre.free_indices.index_of(entity.index);
        assert(!pre.entries[pre.free_indices[k] as int].live);
    }
}

/// A spawn adds one to the count of living entities; the index table grows
/// by one slot if no index was free, and not at all if one was.
pub proof fn law_spawn_counts(
    pre: WorldView,
    components: Seq<ErasedComponent>,
    entity: Entity,
    post: WorldView,
)
    requires
        pre.wf(),
        post.wf(),
        pre.spawned(components, entity, post),
    ensures
        post.live_count() == pre.live_count() + 1,
        post.entries.len() == pre.entries.len() + if pre.free_indices.len() > 0 {
            0int
        } else {
            1int
        },
        entity.index < post.entries.len(),
        post.live_count() == post.entries.len() - post.free_indices.len(),
{
    law_live_count(pre);
    law_live_count(post);
    if pre.free_indices.len() > 0 {
        assert(pre.free_indices[pre.free_indices.len() - 1] < pre.entries.len());
    }
}

/// The table that is made for a component set: it stores that set, has
/// column slots up to the highest id of the set, a column exactly at the ids
/// of the set, and no rows.
pub proof fn law_new_table(set: Seq<usize>)
    requires
        strictly_increasing(set),
    ensures
        TableView::empty(set).wf(),
        TableView::empty(set).component_set == set,
        TableView::empty(set).columns.len() == if set.len() == 0 {
            0
        } else {
            set.last() + 1
        },
        forall|c: int|
            0 <= c < TableView::empty(set).columns.len() ==> ((
            #[trigger] TableView::empty(set).columns[c]) is Some <==> set.contains(c as usize)),
        forall|c: int|
            0 <= c < TableView::empty(set).columns.len() && (
            #[trigger] TableView::empty(set).columns[c]) is Some ==> TableView::empty(
                set,
            ).columns[c]->0.len() == 0,
        TableView::empty(set).entities.len() == 0,
        TableView::empty(set).free_rows.len() == 0,
{
    crate::table::lemma_empty_wf(set);
}

} // verus!
