use voxelrun::{component_id, Component, ComponentLookup, Entity, ErasedComponent, Table};

#[derive(Debug)]
struct Health(u32);

impl Component for Health {
    fn get_id() -> &'static str {
        "rs$table::Health"
    }
}

#[derive(Debug)]
struct Name(&'static str);

impl Component for Name {
    fn get_id() -> &'static str {
        "rs$table::Name"
    }
}

fn entity(index: usize) -> Entity {
    Entity { index, generation: 0 }
}

fn row(health: u32, name: &'static str) -> Vec<ErasedComponent> {
    vec![ErasedComponent::new(Health(health)), ErasedComponent::new(Name(name))]
}

#[test]
fn registry_hands_out_ids_in_first_seen_order() {
    let mut lookup = ComponentLookup::new();
    assert_eq!(lookup.len(), 0);
    assert_eq!(lookup.get("a"), None);
    assert_eq!(lookup.get_or_create("a".to_string()), 0);
    assert_eq!(lookup.get_or_create("b".to_string()), 1);
    assert_eq!(lookup.get_or_create("a".to_string()), 0);
    assert_eq!(lookup.get_or_create("c".to_string()), 2);
    assert_eq!(lookup.get_or_create("b".to_string()), 1);
    assert_eq!(lookup.get("c"), Some(2));
    assert_eq!(lookup.get("d"), None);
    assert_eq!(lookup.len(), 3);
}

#[test]
fn erased_component_keeps_identifier_and_value() {
    let erased = ErasedComponent::new(Health(17));
    assert_eq!(erased.get_id(), "rs$table::Health");
    assert_eq!(erased.describe(), "Health(17)");
}

#[test]
fn new_table_has_columns_only_for_its_component_set() {
    let table = Table::new(vec![1, 3]);
    assert_eq!(table.component_set(), &vec![1, 3]);
    assert_eq!(table.len(), 0);
    assert!(table.occupied_rows().is_empty());
    assert!(table.has_component_set(&[1, 3]));
    assert!(!table.has_component_set(&[1]));
    assert!(!table.has_component_set(&[1, 2]));
    assert!(!table.has_component_set(&[1, 3, 4]));
    let empty = Table::new(vec![]);
    assert!(empty.has_component_set(&[]));
}

#[test]
fn rows_are_filled_in_every_column_of_the_set_and_in_no_other() {
    let mut table = Table::new(vec![1, 3]);
    assert_eq!(table.add(entity(5), &[1, 3], row(10, "ten")), 0);
    assert_eq!(table.add(entity(6), &[1, 3], row(20, "twenty")), 1);
    assert_eq!(table.len(), 2);
    assert_eq!(table.entity_at(0), Some(entity(5)));
    assert_eq!(table.entity_at(1), Some(entity(6)));
    assert_eq!(table.entity_at(2), None);
    assert_eq!(table.get(0, 1).unwrap().describe(), "Health(10)");
    assert_eq!(table.get(0, 3).unwrap().describe(), "Name(\"ten\")");
    assert_eq!(table.get(1, 1).unwrap().describe(), "Health(20)");
    assert_eq!(table.get(1, 3).unwrap().describe(), "Name(\"twenty\")");
    for absent in [0usize, 2, 4, 100] {
        assert!(table.get(0, absent).is_none());
    }
    assert!(table.get(2, 1).is_none());
    assert_eq!(table.occupied_rows(), vec![0, 1]);
}

#[test]
fn vacated_rows_are_reused_last_freed_first() {
    let mut table = Table::new(vec![0, 1]);
    for index in 0..4 {
        assert_eq!(table.add(entity(index), &[0, 1], row(index as u32, "x")), index);
    }
    assert!(table.remove(1));
    assert!(table.remove(3));
    assert_eq!(table.free_rows(), &vec![1, 3]);
    assert_eq!(table.occupied_rows(), vec![0, 2]);
    assert!(!table.is_occupied(1));
    assert!(table.get(1, 0).is_none());
    assert!(table.get(1, 1).is_none());
    assert_eq!(table.entity_at(3), None);
    assert_eq!(table.get(2, 0).unwrap().describe(), "Health(2)");

    assert_eq!(table.next_occupied(0), Some(0));
    assert_eq!(table.next_occupied(1), Some(2));
    assert_eq!(table.next_occupied(2), Some(2));
    assert_eq!(table.next_occupied(3), None);
    assert_eq!(table.next_occupied(100), None);

    assert_eq!(table.add(entity(9), &[0, 1], row(90, "y")), 3);
    assert_eq!(table.add(entity(8), &[0, 1], row(80, "z")), 1);
    assert_eq!(table.add(entity(7), &[0, 1], row(70, "w")), 4);
    assert_eq!(table.len(), 5);
    assert!(table.free_rows().is_empty());
    assert_eq!(table.entity_at(3), Some(entity(9)));
    assert_eq!(table.get(3, 0).unwrap().describe(), "Health(90)");
    assert_eq!(table.get(1, 1).unwrap().describe(), "Name(\"z\")");
    assert_eq!(table.get(0, 0).unwrap().describe(), "Health(0)");
    assert_eq!(table.occupied_rows(), vec![0, 1, 2, 3, 4]);
}

#[test]
fn removing_a_vacant_or_missing_row_does_nothing() {
    let mut table = Table::new(vec![0, 1]);
    table.add(entity(0), &[0, 1], row(1, "a"));
    assert!(!table.remove(1));
    assert!(table.remove(0));
    assert!(!table.remove(0));
    assert_eq!(table.free_rows(), &vec![0]);
    assert_eq!(table.len(), 1);
}

#[test]
fn identifier_of_a_type_in_a_module() {
    assert_eq!(component_id("game::physics", "Velocity"), "rs$game::physics::Velocity");
    assert_eq!(component_id("table", "Health"), "rs$table::Health");
    assert_eq!(component_id("", ""), "rs$::");
}
