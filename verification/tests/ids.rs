use bartend::logic::id_generator::IdGenerator;
use bartend::logic::id_table::IdTable;

#[test]
fn id_generator_begins_at_0() {
    let mut generator = IdGenerator::new();
    assert_eq!(generator.get_next_id(), 0)
}

#[test]
fn id_generator_increments_by_one() {
    let mut generator = IdGenerator::new();
    assert_eq!(generator.get_next_id(), 0);
    assert_eq!(generator.get_next_id(), 1)
}

#[test]
fn mock_items_begins_at_0() {
    let mut generator = IdGenerator::new();
    assert_eq!(generator.get_next_id(), 0)
}

#[test]
fn mock_items_increments_by_one() {
    let mut generator = IdGenerator::new();
    assert_eq!(generator.get_next_id(), 0);
    assert_eq!(generator.get_next_id(), 1)
}

#[test]
fn adds_value_to_table_and_returns_index() {
    let mut table: IdTable<u32> = IdTable::new();
    let value = 42;

    let result_index = table.insert(value);

    assert!(table.contains(&result_index));
    assert_eq!(*table.get(&result_index), value);
}

#[test]
fn id_table_returns_value_at_provided_index() {
    let mut table: IdTable<u32> = IdTable::new();
    let value = 5309;

    let index = table.insert(value);
    let result_value = table.get(&index);

    assert_eq!(*result_value, value);
}

#[test]
fn id_table_issues_consecutive_keys() {
    let mut table: IdTable<u32> = IdTable::new();
    let values = vec![10, 20, 30];
    let mut indices = vec![];
    for value in values {
        indices.push(table.insert(value));
    }

    assert_eq!(indices, vec![0, 1, 2]);
    assert_eq!(*table.get(&1), 20);
}

#[test]
fn removed_key_is_gone_and_not_reissued() {
    let mut table: IdTable<&str> = IdTable::new();
    let first = table.insert("a");
    table.remove(first);

    let second = table.insert("b");

    assert!(!table.contains(&first));
    assert_eq!(second, 1);
    assert_eq!(*table.get(&second), "b");
}

#[test]
fn values_are_changed_by_writing_them_back() {
    let mut table: IdTable<u32> = IdTable::new();
    let values = vec![10, 20, 30];
    let intended_result = vec![10, 21, 31];
    let mut indices = vec![];
    for value in values {
        indices.push(table.insert(value));
    }

    for index in &indices[1..] {
        let next = *table.get(index) + 1;
        table.update(index, next);
    }

    let result: Vec<u32> = indices.iter().map(|i| *table.get(i)).collect();
    assert_eq!(result, intended_result);
}
