//! The first form of the category hierarchy, its manager, and the shared
//! identifiers, units and configuration errors it names.

pub mod category;
pub mod config;
pub mod item;
pub mod quantity;
