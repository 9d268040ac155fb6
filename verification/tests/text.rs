use bartend::logic::category::{Category, CategoryManager};
use bartend::logic::text::decimal_string;

#[test]
fn decimal_forms() {
    assert_eq!(decimal_string(0), "0");
    assert_eq!(decimal_string(7), "7");
    assert_eq!(decimal_string(10), "10");
    assert_eq!(decimal_string(-42), "-42");
    assert_eq!(decimal_string(1234567890), "1234567890");
    assert_eq!(decimal_string(i64::MAX), i64::MAX.to_string());
    assert_eq!(decimal_string(i64::MIN), i64::MIN.to_string());
}

#[test]
fn category_statements() {
    let category = Category::test_cat();

    assert_eq!(
        Category::create(),
        "CREATE TABLE IF NOT EXISTS category(\n            id INTEGER PRIMARY KEY,\n            name STRING NOT NULL\n        );"
    );
    assert_eq!(
        category.update(),
        "\n            UPDATE category SET\n            name = test\n            WHERE id = 1\n        "
    );
    assert_eq!(category.delete(), "DELETE * FROM category WHERE id=1");
}

#[test]
fn manager_statements_create_three_tables() {
    let statements = CategoryManager::create();

    assert_eq!(statements.len(), 3);
    assert!(statements[0].starts_with("CREATE TABLE IF NOT EXISTS category("));
    assert!(statements[1].starts_with("CREATE TABLE IF NOT EXISTS graph("));
    assert!(statements[2].starts_with("CREATE TABLE IF NOT EXISTS category_item_mapping("));
}
