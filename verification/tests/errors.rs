use bartend::models::{
    BartendError, CategoryBody, CategoryID, ConfigError, DBError, DBVersion, ItemID, LogicError,
    RecipeID,
};

#[test]
fn logic_error_messages() {
    assert_eq!(
        LogicError::InvalidCategoryRelation { parent: CategoryID(3), child: CategoryID(-1) }.message(),
        "LOGIC ERROR: Category Edge 3 to -1 would create loop!"
    );
    assert_eq!(LogicError::InvalidCategory(CategoryID(12)).message(), "LOGIC ERROR: invalid Category 12");
    assert_eq!(LogicError::InvalidItem(ItemID(0)).message(), "LOGIC ERROR: invalid Item 0");
    assert_eq!(LogicError::InvalidRecipe(RecipeID(5)).message(), "LOGIC ERROR: invalid Recipe 5");
    assert_eq!(
        LogicError::CategoryNotInGraph(CategoryID(44)).message(),
        "LOGIC ERROR: Category not in graph 44"
    );
}

#[test]
fn db_error_messages() {
    assert_eq!(
        DBError::FutureSchema { found: DBVersion(2), supported: DBVersion(1) }.message(),
        "DB ERROR: Attempted to read db from version 2 of Bartend. Only version 1 is supported"
    );
    assert_eq!(DBError::External("disk".to_string()).message(), "DB ERROR: External DB Error: disk");
    assert_eq!(DBError::RestrictViolation.message(), "DB ERROR: Attempted to delete Restricted Value");
    assert_eq!(
        DBError::NotABartendDB.message(),
        "DB ERROR: Attempted to read a DB from another application"
    );
    assert_eq!(DBError::InvalidUnit.message(), "DB ERROR: Attempted to read invalid unit");
}

#[test]
fn bartend_error_shows_what_it_carries() {
    assert_eq!(
        BartendError::from(LogicError::InvalidItem(ItemID(9))).message(),
        "LOGIC ERROR: invalid Item 9"
    );
    assert_eq!(
        BartendError::from(DBError::InvalidUnit).message(),
        "DB ERROR: Attempted to read invalid unit"
    );
    assert_eq!(BartendError::Config(ConfigError::ReadError).message(), "ReadError");
}

#[test]
fn failed_storage_calls_map_to_errors() {
    assert_eq!(DBError::from_failure(true, "constraint".to_string()), DBError::RestrictViolation);
    assert_eq!(
        DBError::from_failure(false, "no such table".to_string()),
        DBError::External("no such table".to_string())
    );
}

#[test]
fn default_category_body_is_marked_invalid() {
    assert_eq!(CategoryBody::default().name, "Invalid Category");
}
