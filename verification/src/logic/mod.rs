//! The rules of the library: the category hierarchy and the caches of
//! categories, items and recipes, with the units and orderings they use.

pub mod category;
pub mod category_service;
pub mod graph;
pub mod id_generator;
pub mod id_table;
pub mod item;
pub mod item_service;
pub mod order;
pub mod quantity;
pub mod reach;
pub mod recipe;
pub mod recipe_service;
pub mod text;
