//! Recipes: a name and the ingredients it calls for.

pub use crate::models::{Ingredient, Recipe, RecipeBody, RecipeID};
