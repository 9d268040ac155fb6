//! The schema migrations and the decision of which of them a database needs.

use crate::models::{DBError, DBVersion};
use vstd::prelude::*;

verus! {

/// The statements that bring a database to `version`.
#[derive(Debug, Clone, Copy)]
pub struct Migration {
    pub version: u32,
    pub sql: &'static str,
}

/// The pragma that holds the schema version of a database.
pub const VERSION_PRAGMA: &'static str = "user_version";

/// The first schema: items, categories, their relations and mappings, recipes and ingredients.
pub const V1: &'static str = "
                CREATE TABLE IF NOT EXISTS items(
                    id INTEGER PRIMARY KEY,
                    name TEXT NOT NULL,
                    quantity REAL NOT NULL,
                    unit INTEGER NOT NULL
                );

                CREATE TABLE IF NOT EXISTS category(
                    id INTEGER PRIMARY KEY,
                    name TEXT NOT NULL
                );

                CREATE TABLE IF NOT EXISTS graph(
                    parent_id INTEGER,
                    child_id INTEGER,
                    FOREIGN KEY (parent_id) REFERENCES category(id) ON DELETE CASCADE,
                    FOREIGN KEY (child_id) REFERENCES category(id) ON DELETE CASCADE,
                UNIQUE (parent_id, child_id));

                CREATE TABLE IF NOT EXISTS category_item(
                    category_id INTEGER,
                   item_id INTEGER,
                   FOREIGN KEY (category_id) REFERENCES category(id) ON DELETE CASCADE,
                   FOREIGN KEY (item_id) REFERENCES items(id) ON DELETE CASCADE,
                UNIQUE(category_id, item_id));

                CREATE TABLE IF NOT EXISTS recipes(
                    id INTEGER PRIMARY KEY,
                    name TEXT NOT NULL
                );

                CREATE TABLE IF NOT EXISTS ingredients(
                    recipe_id INTEGER,
                    ingredient_index INTEGER,
                    category_id INTEGER,
                    quantity REAL NOT NULL,
                    unit INTEGER NOT NULL,
                    FOREIGN KEY (recipe_id) REFERENCES recipes(id) ON DELETE CASCADE,
                    FOREIGN KEY (category_id) REFERENCES category(id) ON DELETE RESTRICT,
                UNIQUE(recipe_id, ingredient_index));
            ";

/// Every migration, oldest first.
pub open spec fn migration_list() -> Seq<Migration> {
    seq![Migration { version: 1, sql: V1 }]
}

/// Every migration, oldest first; the versions run 1, 2, 3, ... without gaps.
pub fn migrations() -> (r: Vec<Migration>)
    ensures
        r@ == migration_list(),
        forall|i: int| 0 <= i < r@.len() ==> #[trigger] r@[i].version == i + 1,
{
    let r = vec![Migration { version: 1, sql: V1 }];
    proof {
        assert(r@ =~= migration_list());
    }
    r
}

/// The newest schema version, the number of migrations.
pub fn latest() -> (r: DBVersion)
    ensures
        r.0 == migration_list().len(),
{
    DBVersion(1)
}

/// The migrations that a database at `current` still needs, oldest first.
/// A database without a version must hold no tables of its own
/// (`user_tables` counts them; it is not consulted otherwise), and a database
/// newer than `latest()` is refused.
pub fn migration_plan(current: DBVersion, user_tables: i64) -> (r: Result<Vec<Migration>, DBError>)
    ensures
        current.0 == 0 && user_tables != 0 ==> r == Err::<Vec<Migration>, DBError>(
            DBError::NotABartendDB,
        ),
        current.0 != 0 && current.0 > migration_list().len() ==> r == Err::<Vec<Migration>, DBError>(
            DBError::FutureSchema { found: current, supported: DBVersion(migration_list().len() as i64) },
        ),
        (current.0 == 0 && user_tables == 0) || (current.0 != 0 && current.0 <= migration_list().len())
            ==> (r matches Ok(plan) && plan@ == migration_list().filter(
            |m: Migration| m.version > current.0,
        )),
{
    let supported = latest();
    if current.0 == 0 {
        if user_tables != 0 {
            return Err(DBError::NotABartendDB);
        }
    } else if current.0 > supported.0 {
        return Err(DBError::FutureSchema { found: current, supported });
    }
    let all = migrations();
    let mut plan: Vec<Migration> = Vec::new();
    let n = all.len();
    let mut i: usize = 0;
    while i < n
        invariant
            n == all@.len(),
            i <= n,
            all@ == migration_list(),
            plan@ == all@.take(i as int).filter(|m: Migration| m.version > current.0),
        decreases n - i,
    {
        let m = all[i];
        proof {
            assert(all@.take(i + 1).drop_last() =~= all@.take(i as int));
            reveal_with_fuel(Seq::filter, 1);
        }
        if m.version as i64 > current.0 {
            plan.push(m);
        }
        proof {
            assert(plan@ =~= all@.take(i + 1).filter(|m: Migration| m.version > current.0));
        }
        i = i + 1;
    }
    proof {
        assert(all@.take(n as int) =~= all@);
    }
    Ok(plan)
}

} // verus!
