use voxelrun::{Component, Entity, ErasedComponent, SpawnError, World};

#[derive(Debug)]
struct Position(u8, u8, u8);

impl Component for Position {
    fn get_id() -> &'static str {
        "rs$world::Position"
    }
}

#[derive(Debug)]
struct Velocity(u8, u8, u8);

impl Component for Velocity {
    fn get_id() -> &'static str {
        "rs$world::Velocity"
    }
}

#[test]
fn cycle_test() {
    let mut world = World::new();
    let e = world.spawn_entity(Position(0, 0, 0)).unwrap();
    world.spawn_entity(Position(0, 0, 0)).unwrap();
    world.remove(&e);
    world.spawn_entity(Position(0, 0, 0)).unwrap();
    world.spawn_entity(Position(0, 0, 0)).unwrap();
    let e = world.spawn_entity(Velocity(0, 0, 0)).unwrap();
    world.spawn_entity(Velocity(0, 0, 0)).unwrap();
    world.remove(&e);
    world.spawn_entity(Velocity(0, 0, 0)).unwrap();
    world.spawn_entity((Velocity(0, 0, 0), Position(0, 0, 0))).unwrap();
    world.spawn_entity((Velocity(0, 0, 0), Position(0, 0, 0))).unwrap();
    world.spawn_entity((Velocity(0, 0, 0), Position(0, 0, 0))).unwrap();
    world.spawn_entity((Position(0, 0, 0), Velocity(0, 0, 0))).unwrap();
    world.spawn_entity((Position(0, 0, 0), Velocity(0, 0, 0))).unwrap();
    let e = world.spawn_entity((Position(0, 0, 0), Velocity(0, 0, 0))).unwrap();
    world.remove(&e);
    println!("{}", world.dump());
    println!("{}", world.is_valid(&e));
    assert_eq!(world.live_entity_count(), 10);
    assert_eq!(world.live_entities().len(), 10);
    assert_eq!(world.slot_count(), 11);
    assert_eq!(world.live_entity_count(), world.slot_count() - world.free_indices().len());
    assert_eq!(world.table_count(), 3);
    assert!(!world.is_valid(&e));
}

#[test]
fn removed_row_and_index_are_reused() {
    let mut world = World::new();
    let a = world.spawn_entity(Position(1, 0, 0)).unwrap();
    let b = world.spawn_entity(Position(2, 0, 0)).unwrap();
    let a_place = *world.get_valid_entity_table_data(&a).unwrap();
    let b_place = *world.get_valid_entity_table_data(&b).unwrap();
    world.remove(&a);
    let c = world.spawn_entity(Position(3, 0, 0)).unwrap();
    let c_place = *world.get_valid_entity_table_data(&c).unwrap();
    assert_eq!(c_place.inner_table_index, a_place.inner_table_index);
    assert_eq!(c_place.table_index, a_place.table_index);
    assert_eq!(c.index, a.index);
    assert_eq!(c.generation, a.generation + 1);
    assert!(!world.is_valid(&a));
    assert!(world.is_valid(&b));
    assert!(world.is_valid(&c));
    assert_eq!(*world.get_valid_entity_table_data(&b).unwrap(), b_place);
    assert_eq!(
        world.component(&b, "rs$world::Position").unwrap().describe(),
        "Position(2, 0, 0)"
    );
    assert_eq!(
        world.component(&c, "rs$world::Position").unwrap().describe(),
        "Position(3, 0, 0)"
    );
    assert_eq!(world.slot_count(), 2);
}

#[test]
fn bundle_order_does_not_matter() {
    let mut world = World::new();
    let d = world.spawn_entity((Velocity(1, 1, 1), Position(2, 2, 2))).unwrap();
    let e = world.spawn_entity((Position(3, 3, 3), Velocity(4, 4, 4))).unwrap();
    let d_place = *world.get_valid_entity_table_data(&d).unwrap();
    let e_place = *world.get_valid_entity_table_data(&e).unwrap();
    assert_eq!(d_place.table_index, e_place.table_index);
    assert_eq!(world.table_count(), 1);
    assert_eq!(world.component(&d, "rs$world::Velocity").unwrap().describe(), "Velocity(1, 1, 1)");
    assert_eq!(world.component(&d, "rs$world::Position").unwrap().describe(), "Position(2, 2, 2)");
    assert_eq!(world.component(&e, "rs$world::Position").unwrap().describe(), "Position(3, 3, 3)");
    assert_eq!(world.component(&e, "rs$world::Velocity").unwrap().describe(), "Velocity(4, 4, 4)");
}

#[test]
fn duplicate_component_is_reported() {
    let mut world = World::new();
    let first = world.spawn_entity(Velocity(0, 0, 0)).unwrap();
    let result = world.spawn_entity((Position(0, 0, 0), Velocity(1, 1, 1), Position(2, 2, 2)));
    // Velocity got the id 0 with the first spawn, Position the id 1 with the second.
    assert_eq!(result, Err(SpawnError::DuplicateComponent(1)));
    assert_eq!(
        result.unwrap_err().to_string(),
        "Component 1 contained multiple times in one bundle"
    );
    assert_eq!(world.slot_count(), 1);
    assert_eq!(world.live_entities(), vec![first]);
    assert_eq!(world.table_count(), 1);
    assert_eq!(world.table(0).unwrap().len(), 1);
    assert!(world.free_indices().is_empty());
}

#[test]
fn smallest_duplicate_is_named() {
    let mut world = World::new();
    let result = world.spawn_entity_from_vec(vec![
        ErasedComponent::new(Velocity(0, 0, 0)),
        ErasedComponent::new(Position(0, 0, 0)),
        ErasedComponent::new(Position(1, 0, 0)),
        ErasedComponent::new(Velocity(1, 0, 0)),
    ]);
    assert_eq!(result, Err(SpawnError::DuplicateComponent(0)));
    assert!(world.live_entities().is_empty());
}

#[test]
fn stale_handles_stay_invalid() {
    let mut world = World::new();
    let first = world.spawn_entity(Position(0, 0, 0)).unwrap();
    world.remove(&first);
    assert!(!world.is_valid(&first));
    let mut handles = vec![first];
    for round in 0..20u8 {
        let next = world.spawn_entity(Position(round, 0, 0)).unwrap();
        assert_eq!(next.index, first.index);
        for old in &handles {
            assert!(!world.is_valid(old));
        }
        assert!(world.is_valid(&next));
        world.remove(&next);
        handles.push(next);
    }
    assert_eq!(world.slot_count(), 1);
}

#[test]
fn remove_of_invalid_handle_changes_nothing() {
    let mut world = World::new();
    let a = world.spawn_entity(Position(0, 0, 0)).unwrap();
    world.remove(&Entity { index: 7, generation: 0 });
    world.remove(&Entity { index: a.index, generation: a.generation + 1 });
    assert!(world.is_valid(&a));
    world.remove(&a);
    world.remove(&a);
    // a second removal does not free the index or the row twice
    assert_eq!(world.free_indices(), &vec![a.index]);
    assert_eq!(world.table(0).unwrap().free_rows(), &vec![0]);
    world.remove(&Entity { index: a.index, generation: a.generation + 1 });
    assert_eq!(world.free_indices(), &vec![a.index]);
}

#[derive(Debug)]
struct Tag(u8);

impl Component for Tag {
    fn get_id() -> &'static str {
        "rs$world::Tag"
    }
}

#[test]
fn different_component_sets_live_in_different_tables() {
    let mut world = World::new();
    let a = world.spawn_entity(Position(0, 0, 0)).unwrap();
    let b = world.spawn_entity((Position(0, 0, 0), Velocity(0, 0, 0))).unwrap();
    let c = world.spawn_entity(Velocity(0, 0, 0)).unwrap();
    let d = world.spawn_entity((Tag(1), Velocity(0, 0, 0), Position(0, 0, 0))).unwrap();
    let e = world.spawn_entity((Velocity(0, 0, 0), Position(0, 0, 0), Tag(2))).unwrap();
    let table = |entity: &Entity| world.get_valid_entity_table_data(entity).unwrap().table_index;
    assert_eq!(table(&a), 0);
    assert_eq!(table(&b), 1);
    assert_eq!(table(&c), 2);
    assert_eq!(table(&d), 3);
    assert_eq!(table(&e), 3);
    assert_eq!(world.table_count(), 4);
    // ids are given in first-seen order: Position 0, Velocity 1, Tag 2
    assert_eq!(world.table(0).unwrap().component_set(), &vec![0]);
    assert_eq!(world.table(1).unwrap().component_set(), &vec![0, 1]);
    assert_eq!(world.table(2).unwrap().component_set(), &vec![1]);
    assert_eq!(world.table(3).unwrap().component_set(), &vec![0, 1, 2]);
    assert!(world.table(4).is_none());
}

#[test]
fn components_are_read_back_from_their_own_columns() {
    let mut world = World::new();
    let e = world.spawn_entity((Tag(9), Velocity(4, 5, 6), Position(1, 2, 3))).unwrap();
    assert_eq!(world.component(&e, "rs$world::Tag").unwrap().describe(), "Tag(9)");
    assert_eq!(world.component(&e, "rs$world::Velocity").unwrap().describe(), "Velocity(4, 5, 6)");
    assert_eq!(world.component(&e, "rs$world::Position").unwrap().describe(), "Position(1, 2, 3)");
    assert_eq!(world.component(&e, "rs$world::Tag").unwrap().get_id(), "rs$world::Tag");
    assert!(world.component(&e, "rs$world::Unknown").is_none());
    let place = *world.get_valid_entity_table_data(&e).unwrap();
    let table = world.table(place.table_index).unwrap();
    assert_eq!(table.entity_at(place.inner_table_index), Some(e));
    // Tag was seen first, then Velocity, then Position
    assert_eq!(table.get(place.inner_table_index, 0).unwrap().describe(), "Tag(9)");
    assert_eq!(table.get(place.inner_table_index, 1).unwrap().describe(), "Velocity(4, 5, 6)");
    assert_eq!(table.get(place.inner_table_index, 2).unwrap().describe(), "Position(1, 2, 3)");

    let lone = world.spawn_entity(Position(7, 7, 7)).unwrap();
    assert!(world.component(&lone, "rs$world::Velocity").is_none());
    world.remove(&lone);
    assert!(world.component(&lone, "rs$world::Position").is_none());
    assert!(world.get_valid_entity_table_data(&lone).is_none());
}

#[test]
fn new_world_is_empty() {
    let world = World::new();
    assert_eq!(world.slot_count(), 0);
    assert_eq!(world.table_count(), 0);
    assert!(world.live_entities().is_empty());
    assert!(world.free_indices().is_empty());
    assert!(!world.is_valid(&Entity { index: 0, generation: 0 }));
}

#[test]
fn first_entities_get_generation_zero_and_rising_indices() {
    let mut world = World::new();
    for index in 0..5 {
        let e = world.spawn_entity(Tag(index as u8)).unwrap();
        assert_eq!(e, Entity { index, generation: 0 });
    }
    let third = Entity { index: 2, generation: 0 };
    let first = Entity { index: 0, generation: 0 };
    world.remove(&third);
    world.remove(&first);
    assert_eq!(world.free_indices(), &vec![2, 0]);
    assert_eq!(world.live_entities().len(), 3);
    // the index that was freed last is taken first
    assert_eq!(world.spawn_entity(Tag(0)).unwrap(), Entity { index: 0, generation: 1 });
    assert_eq!(world.spawn_entity(Tag(0)).unwrap(), Entity { index: 2, generation: 1 });
    assert_eq!(world.spawn_entity(Tag(0)).unwrap(), Entity { index: 5, generation: 0 });
    assert_eq!(world.slot_count(), 6);
    assert!(!world.is_valid(&first));
    assert!(!world.is_valid(&third));
}

#[test]
fn bundles_of_every_size() {
    #[derive(Debug)]
    struct A;
    #[derive(Debug)]
    struct B;
    #[derive(Debug)]
    struct C;
    #[derive(Debug)]
    struct D;
    impl Component for A {
        fn get_id() -> &'static str {
            "A"
        }
    }
    impl Component for B {
        fn get_id() -> &'static str {
            "B"
        }
    }
    impl Component for C {
        fn get_id() -> &'static str {
            "C"
        }
    }
    impl Component for D {
        fn get_id() -> &'static str {
            "D"
        }
    }
    let mut world = World::new();
    let seven = world
        .spawn_entity((A, B, C, D, Position(0, 0, 0), Velocity(0, 0, 0), Tag(0)))
        .unwrap();
    let six = world.spawn_entity((B, C, D, Position(0, 0, 0), Velocity(0, 0, 0), Tag(0))).unwrap();
    let five = world.spawn_entity((C, D, Position(0, 0, 0), Velocity(0, 0, 0), Tag(0))).unwrap();
    let four = world.spawn_entity((D, Position(0, 0, 0), Velocity(0, 0, 0), Tag(0))).unwrap();
    let sets: Vec<Vec<usize>> = [seven, six, five, four]
        .iter()
        .map(|e| {
            let place = world.get_valid_entity_table_data(e).unwrap();
            world.table(place.table_index).unwrap().component_set().clone()
        })
        .collect();
    assert_eq!(
        sets,
        vec![vec![0, 1, 2, 3, 4, 5, 6], vec![1, 2, 3, 4, 5, 6], vec![2, 3, 4, 5, 6], vec![3, 4, 5, 6]]
    );
    assert_eq!(world.component(&seven, "A").unwrap().describe(), "A");
    assert!(world.component(&six, "A").is_none());
    let empty = world.spawn_entity_from_vec(vec![]).unwrap();
    let place = world.get_valid_entity_table_data(&empty).unwrap();
    assert!(world.table(place.table_index).unwrap().component_set().is_empty());
}

#[test]
fn dump_shows_counts_locations_and_tables() {
    let mut world = World::new();
    assert_eq!(
        world.dump(),
        "Total entity count: 0\nRemoved indeces: []\nEntity Table Data: \nTables:\n"
    );
    let first = world.spawn_entity(Position(1, 2, 3)).unwrap();
    world.spawn_entity((Velocity(4, 5, 6), Position(7, 8, 9))).unwrap();
    world.remove(&first);
    assert_eq!(
        world.dump(),
        "Total entity count: 1\n\
         Removed indeces: [0]\n\
         Entity Table Data: \n\
         EntityTableData { generation: 0, table_index: 1, inner_table_index: 0, \
         component_set: [0, 1] }\n\
         Tables:\n\n\
         Table { component_set: [0], collumns: [Some([None])], entities: [None], \
         removed: [0] }\n\n\
         Table { component_set: [0, 1], collumns: [Some([Some(Position(7, 8, 9))]), \
         Some([Some(Velocity(4, 5, 6))])], \
         entities: [Some(Entity { index: 1, generation: 0 })], removed: [] }\n"
    );
    world.spawn_entity(Position(0, 0, 0)).unwrap();
    world.spawn_entity(Position(0, 0, 1)).unwrap();
    let last = world.spawn_entity(Position(0, 0, 2)).unwrap();
    world.remove(&last);
    world.remove(&Entity { index: 2, generation: 0 });
    assert_eq!(
        world.dump(),
        "Total entity count: 2\n\
         Removed indeces: [3, 2]\n\
         Entity Table Data: \n\
         EntityTableData { generation: 1, table_index: 0, inner_table_index: 0, \
         component_set: [0] }\n\
         EntityTableData { generation: 0, table_index: 1, inner_table_index: 0, \
         component_set: [0, 1] }\n\
         Tables:\n\n\
         Table { component_set: [0], collumns: [Some([Some(Position(0, 0, 0)), None, None])], \
         entities: [Some(Entity { index: 0, generation: 1 }), None, None], \
         removed: [2, 1] }\n\n\
         Table { component_set: [0, 1], collumns: [Some([Some(Position(7, 8, 9))]), \
         Some([Some(Velocity(4, 5, 6))])], \
         entities: [Some(Entity { index: 1, generation: 0 })], removed: [] }\n"
    );
}

#[test]
fn dump_with_given_descriptions() {
    let mut world = World::new();
    world.spawn_entity((Velocity(4, 5, 6), Position(7, 8, 9))).unwrap();
    let descriptions =
        vec![vec![Some(vec![Some("a".to_string())]), Some(vec![Some("b".to_string())])]];
    assert_eq!(
        world.render_dump(&descriptions),
        "Total entity count: 1\n\
         Removed indeces: []\n\
         Entity Table Data: \n\
         EntityTableData { generation: 0, table_index: 0, inner_table_index: 0, \
         component_set: [0, 1] }\n\
         Tables:\n\n\
         Table { component_set: [0, 1], collumns: [Some([Some(a)]), Some([Some(b)])], \
         entities: [Some(Entity { index: 0, generation: 0 })], removed: [] }\n"
    );
    assert_eq!(
        world.describe_components(),
        vec![vec![
            Some(vec![Some("Velocity(4, 5, 6)".to_string())]),
            Some(vec![Some("Position(7, 8, 9)".to_string())])
        ]]
    );
}

#[test]
fn descriptions_have_the_shape_of_the_columns() {
    let mut world = World::new();
    world.spawn_entity(Position(0, 0, 0)).unwrap();
    world.spawn_entity(Velocity(0, 0, 0)).unwrap();
    let both = world.spawn_entity((Tag(1), Position(1, 1, 1))).unwrap();
    let gone = world.spawn_entity((Position(2, 2, 2), Tag(2))).unwrap();
    world.remove(&gone);
    // Position has the id 0, Velocity the id 1, Tag the id 2
    assert_eq!(
        world.describe_components(),
        vec![
            vec![Some(vec![Some("Position(0, 0, 0)".to_string())])],
            vec![None, Some(vec![Some("Velocity(0, 0, 0)".to_string())])],
            vec![
                Some(vec![Some("Position(1, 1, 1)".to_string()), None]),
                None,
                Some(vec![Some("Tag(1)".to_string()), None])
            ],
        ]
    );
    assert!(world.is_valid(&both));
    assert!(world.dump().ends_with(
        "Table { component_set: [0, 2], collumns: [Some([Some(Position(1, 1, 1)), None]), \
         None, Some([Some(Tag(1)), None])], \
         entities: [Some(Entity { index: 2, generation: 0 }), None], removed: [1] }\n"
    ));
}

#[test]
fn table_for_a_set_of_ids_that_were_never_registered() {
    let mut world = World::new();
    assert_eq!(world.get_or_create_table(vec![0, 2]), Ok(0));
    assert_eq!(world.table_count(), 1);
    let table = world.table(0).unwrap();
    assert_eq!(table.component_set(), &vec![0, 2]);
    assert_eq!(table.column_count(), 3);
    assert_eq!(table.column_len(0), Some(0));
    assert_eq!(table.column_len(1), None);
    assert_eq!(table.column_len(2), Some(0));
    assert_eq!(table.column_len(3), None);
    assert_eq!(table.len(), 0);
    assert!(table.free_rows().is_empty());
    assert_eq!(world.get_or_create_table(vec![0, 2]), Ok(0));
    assert_eq!(world.get_or_create_table(vec![]), Ok(1));
    assert_eq!(world.table(1).unwrap().column_count(), 0);
    assert_eq!(world.table_count(), 2);
}

#[test]
fn table_for_a_sorted_set_with_a_repeated_id_is_refused() {
    let mut world = World::new();
    assert_eq!(world.get_or_create_table(vec![0, 1]), Ok(0));
    assert_eq!(world.get_or_create_table(vec![0, 0]), Err(SpawnError::DuplicateComponent(0)));
    assert_eq!(world.get_or_create_table(vec![0, 1, 1]), Err(SpawnError::DuplicateComponent(1)));
    assert_eq!(
        world.get_or_create_table(vec![0, 1, 2, 2, 5]),
        Err(SpawnError::DuplicateComponent(2))
    );
    assert_eq!(
        world.get_or_create_table(vec![3, 4, 4, 7, 7]),
        Err(SpawnError::DuplicateComponent(4))
    );
    assert_eq!(world.table_count(), 1);
    assert_eq!(world.table(0).unwrap().component_set(), &vec![0, 1]);
    assert_eq!(world.get_or_create_table(vec![0, 1]), Ok(0));
}

#[test]
fn validity_compares_generations_and_nothing_else() {
    let mut world = World::new();
    let first = world.spawn_entity(Position(1, 2, 3)).unwrap();
    assert!(world.is_valid(&first));
    assert!(!world.is_valid(&Entity { index: 0, generation: 1 }));
    assert!(!world.is_valid(&Entity { index: 1, generation: 0 }));
    world.remove(&first);
    // the slot is vacant and in generation 1
    let written = Entity { index: 0, generation: 1 };
    assert!(!world.is_valid(&first));
    assert!(world.is_valid(&written));
    let entry = *world.get_valid_entity_table_data(&written).unwrap();
    assert_eq!(entry.generation, 1);
    assert!(!entry.live);
    assert!(world.get_valid_entity_table_data(&first).is_none());
    // no entity lives there: nothing to read, nothing to remove
    assert!(world.component(&written, "rs$world::Position").is_none());
    assert!(world.live_entities().is_empty());
    assert_eq!(world.entity_at(0), None);
    let before = world.dump();
    world.remove(&written);
    assert_eq!(world.dump(), before);
    assert_eq!(world.free_indices(), &vec![0]);
    assert_eq!(world.table(0).unwrap().free_rows(), &vec![0]);
    assert!(world.is_valid(&written));
    // the next entity of the slot is the one that the handle names
    let second = world.spawn_entity(Position(4, 5, 6)).unwrap();
    assert_eq!(second, written);
    assert_eq!(world.entity_at(0), Some(second));
    assert_eq!(
        world.component(&written, "rs$world::Position").unwrap().describe(),
        "Position(4, 5, 6)"
    );
}

#[test]
fn every_removal_frees_the_index_and_moves_the_slot_on() {
    let mut world = World::new();
    let mut handle = world.spawn_entity(Tag(0)).unwrap();
    for round in 0..50u32 {
        assert_eq!(handle, Entity { index: 0, generation: round });
        let living = world.live_entity_count();
        world.remove(&handle);
        assert_eq!(world.free_indices(), &vec![0]);
        assert_eq!(world.live_entity_count(), living - 1);
        assert_eq!(
            world.get_valid_entity_table_data(&Entity { index: 0, generation: round + 1 })
                .unwrap()
                .generation,
            round + 1
        );
        assert_eq!(world.table(0).unwrap().free_rows(), &vec![0]);
        world.remove(&handle);
        assert_eq!(world.free_indices(), &vec![0]);
        assert_eq!(world.live_entity_count(), world.slot_count() - world.free_indices().len());
        handle = world.spawn_entity(Tag(0)).unwrap();
    }
}
