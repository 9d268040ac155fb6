use bartend::models::{DBError, DBVersion};
use bartend::persistence::migrations::{latest, migration_plan, migrations, VERSION_PRAGMA};

#[test]
fn migration_versions_are_sequential() {
    for (v, m) in (1..=latest().0).zip(migrations().iter()) {
        assert_eq!(v, m.version as i64);
    }
}

#[test]
fn latest_is_the_number_of_migrations() {
    assert_eq!(latest().0, migrations().len() as i64);
    assert_eq!(VERSION_PRAGMA, "user_version");
}

#[test]
fn tables_exist() {
    let plan = migration_plan(DBVersion(0), 0).unwrap();
    let table_names = vec!["items", "category", "graph", "category_item", "recipes", "ingredients"];

    for table in table_names {
        let statement = format!("CREATE TABLE IF NOT EXISTS {table}(");
        assert!(plan.iter().any(|m| m.sql.contains(&statement)));
    }
}

#[test]
fn fresh_database_gets_every_migration() {
    let plan = migration_plan(DBVersion(0), 0).unwrap();

    assert_eq!(plan.len(), migrations().len());
    assert_eq!(plan[0].version, 1);
    assert!(plan[0].sql.contains("CREATE TABLE IF NOT EXISTS ingredients("));
}

#[test]
fn current_database_needs_nothing() {
    let plan = migration_plan(latest(), 3).unwrap();

    assert!(plan.is_empty());
}

#[test]
fn rejects_used_db_file() {
    let plan = migration_plan(DBVersion(0), 1);

    assert_eq!(plan.unwrap_err(), DBError::NotABartendDB);
}

#[test]
fn rejects_next_version() {
    let next_version = DBVersion(latest().0 + 1);

    let plan = migration_plan(next_version, 0);

    assert_eq!(
        plan.unwrap_err(),
        DBError::FutureSchema { found: next_version, supported: latest() }
    );
}
