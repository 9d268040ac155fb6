//! Statements that create, change and remove categories in storage, for the
//! categories and manager of the first layout.

use crate::common::category::graph::{DirectedAcyclicGraph, GRAPH_TABLE};
pub use crate::common::category::{Category, CategoryID, CategoryManager};
use crate::logic::text::{decimal, decimal_string};
use vstd::prelude::*;

verus! {

/// The statement that creates the category table.
pub const CATEGORY_TABLE: &'static str = "CREATE TABLE IF NOT EXISTS category(\n            id INTEGER PRIMARY KEY,\n            name STRING NOT NULL\n        );";

/// The statement that creates the table mapping items to categories.
pub const CATEGORY_ITEM_TABLE: &'static str = "CREATE TABLE IF NOT EXISTS category_item_mapping(\n                category_id INTEGER,\n                item_id INTEGER,\n                FOREIGN KEY (category_id) REFERENCES category(id),\n                FOREIGN KEY (item_id) REFERENCES items(id),\n                UNIQUE(category_id, item_id)\n            );";

/// The text of an update statement before the new name.
pub const UPDATE_HEAD: &'static str = "\n            UPDATE category SET\n            name = ";

/// The text of an update statement between the name and the identifier.
pub const UPDATE_WHERE: &'static str = "\n            WHERE id = ";

/// The text of an update statement after the identifier.
pub const UPDATE_TAIL: &'static str = "\n        ";

/// The text of a delete statement before the identifier.
pub const DELETE_HEAD: &'static str = "DELETE * FROM category WHERE id=";

impl Category {
    /// The statement that creates the category table.
    pub fn create() -> (r: String)
        ensures
            r@ == CATEGORY_TABLE@,
    {
        String::from_str(CATEGORY_TABLE)
    }

    /// The statement that stores this category's name under its identifier.
    pub fn update(&self) -> (r: String)
        ensures
            r@ == UPDATE_HEAD@ + self.label() + UPDATE_WHERE@ + decimal(self.identifier().0 as int)
                + UPDATE_TAIL@,
    {
        let mut s = String::from_str(UPDATE_HEAD);
        let name = self.name();
        s.append(name.as_str());
        s.append(UPDATE_WHERE);
        let id = decimal_string(self.id().0);
        s.append(id.as_str());
        s.append(UPDATE_TAIL);
        s
    }

    /// The statement that deletes this category.
    pub fn delete(self) -> (r: String)
        ensures
            r@ == DELETE_HEAD@ + decimal(self.identifier().0 as int),
    {
        let mut s = String::from_str(DELETE_HEAD);
        let id = decimal_string(self.id().0);
        s.append(id.as_str());
        s
    }
}

impl CategoryManager {
    /// The statements that create the tables of categories, their relations
    /// and their items, in that order.
    pub fn create() -> (r: Vec<String>)
        ensures
            r@.len() == 3,
            r@[0]@ == CATEGORY_TABLE@,
            r@[1]@ == GRAPH_TABLE@,
            r@[2]@ == CATEGORY_ITEM_TABLE@,
    {
        let mut stmts: Vec<String> = Vec::new();
        stmts.push(Category::create());
        stmts.push(DirectedAcyclicGraph::create());
        stmts.push(String::from_str(CATEGORY_ITEM_TABLE));
        stmts
    }
}

} // verus!
