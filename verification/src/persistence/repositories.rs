//! The storage operations that the services rely on.
//!
//! Maps and sets of identifiers are keyed by the raw integer of the identifier.

use crate::logic::graph::GraphPatch;
use crate::logic::item_service::Item;
use crate::models::{Category, CategoryBody, CategoryID, DBError, ItemID, Recipe, RecipeBody, RecipeID};
use std::collections::HashMap;
use std::collections::HashSet;
use vstd::prelude::*;

verus! {

/// Storage of items, whose bodies are of type `B`.
pub trait ItemRepository<B> {
    /// Stores a new item and returns its identifier.
    fn insert(&self, body: &B) -> Result<ItemID, DBError>;

    /// Overwrites the stored body of an item.
    fn update(&self, item: &Item<B>) -> Result<(), DBError>;

    /// Deletes an item.
    fn delete(&self, item: ItemID) -> Result<(), DBError>;

    /// Every stored item, keyed by identifier.
    fn get_all(&self) -> Result<HashMap<i64, B>, DBError>;
}

/// Storage of categories, their relations and the item-to-category mapping.
pub trait CategoryRepository {
    /// Stores a new category and returns its identifier.
    fn insert(&self, body: &CategoryBody) -> Result<CategoryID, DBError>;

    /// Overwrites the stored body of a category.
    fn update(&self, category: &Category) -> Result<(), DBError>;

    /// Deletes a category and applies the edge changes of its removal.
    fn delete(&self, patch: &GraphPatch) -> Result<(), DBError>;

    /// Every stored category, keyed by identifier.
    fn get_all(&self) -> Result<HashMap<i64, CategoryBody>, DBError>;

    /// The category of each mapped item, keyed by item identifier.
    fn get_map(&self) -> Result<HashMap<i64, i64>, DBError>;

    /// The stored relations: each category to its children.
    fn get_graph(&self) -> Result<HashMap<i64, HashSet<i64>>, DBError>;

    /// Stores the relation `parent -> child`.
    fn insert_relation(&self, parent: CategoryID, child: CategoryID) -> Result<(), DBError>;

    /// Deletes the relation `parent -> child`.
    fn delete_edge(&self, parent: CategoryID, child: CategoryID) -> Result<(), DBError>;

    /// Stores that `item` belongs to `category`.
    fn map_insert(&self, item: &ItemID, category: &CategoryID) -> Result<(), DBError>;

    /// Deletes the stored mapping of `item` to `category`.
    fn map_delete(&self, item: &ItemID, category: &CategoryID) -> Result<(), DBError>;
}

/// Storage of recipes, whose ingredient quantities are of type `Q`.
pub trait RecipeRepository<Q> {
    /// Stores a new recipe and returns its identifier.
    fn insert(&self, body: &RecipeBody<Q>) -> Result<RecipeID, DBError>;

    /// Overwrites the stored body of a recipe.
    fn update(&self, item: &Recipe<Q>) -> Result<(), DBError>;

    /// Deletes a recipe.
    fn delete(&self, item: RecipeID) -> Result<(), DBError>;

    /// Every stored recipe, keyed by identifier.
    fn get_all(&self) -> Result<HashMap<i64, RecipeBody<Q>>, DBError>;
}

} // verus!
