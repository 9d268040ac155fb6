use bartend::persistence::schema::Schema;

fn items() -> Schema {
    Schema::new("items").column("id").column("name").column("quantity").column("unit")
}

#[test]
fn schema_keeps_name_and_columns() {
    let schema = items();

    assert_eq!(schema.name(), "items");
    assert_eq!(schema.columns(), &vec!["id", "name", "quantity", "unit"]);
}

#[test]
fn columns_are_joined_by_commas() {
    assert_eq!(items().columns_string(), "id, name, quantity, unit");
    assert_eq!(Schema::new("t").column("only").columns_string(), "only");
}

#[test]
fn autoinsert_statement_leaves_out_the_key() {
    assert_eq!(items().get_autoinsert_statement(), "items (name, quantity, unit)");
    assert_eq!(Schema::new("t").column("id").get_autoinsert_statement(), "t ()");
}
