//! Items: the base element that every other part works over.

pub use crate::models::ItemID;
