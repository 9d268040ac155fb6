use bartend::logic::item::Items;

#[test]
fn mod_batch_updates_table() {
    let mut items = Items::new();
    let mut ids = vec![];
    for char in "abc".chars() {
        let index = items.insert(char.to_string(), 750);
        ids.push(index);
    }
    let changed_ids = [&ids[0], &ids[2]];
    let changed_quantities = [&200, &100];

    items.update_quantities(changed_ids, changed_quantities);

    assert_eq!(*items.get(&ids[0]).quantity, 550);
    assert_eq!(*items.get(&ids[1]).quantity, 750);
    assert_eq!(*items.get(&ids[2]).quantity, 650);
}

#[test]
fn mod_can_can_be_unwrapped_into_displayables() {
    let mut items = Items::new();
    let name = "a".to_string();
    let quantity = 750;
    let index = items.insert(name.clone(), quantity);
    let item = items.get(&index);

    let internals = item.get_displayables();

    assert!(internals[0].contains(&name));
    assert!(internals[1].contains(&quantity.to_string()));
}

#[test]
fn displayables_are_exactly_name_and_quantity() {
    let mut items = Items::new();
    let index = items.insert("vermouth".to_string(), 4096);

    let internals = items.get(&index).get_displayables();

    assert_eq!(internals, ["vermouth".to_string(), "4096".to_string()]);
}

#[test]
fn deleted_items_keep_their_identifier_unused() {
    let mut items = Items::new();
    let first = items.insert("a".to_string(), 1);
    items.delete(first);

    let second = items.insert("b".to_string(), 2);

    assert_ne!(first, second);
    assert_eq!(second.0, 1);
    assert_eq!(items.get(&second).name, "b");
}
