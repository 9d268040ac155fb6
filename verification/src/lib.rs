//! A bar inventory library: categories of ingredients arranged in an acyclic
//! hierarchy, the items that belong to them, units of measure and the
//! bookkeeping that keeps the in-memory caches consistent with storage.

pub mod common;
pub mod logic;
pub mod models;
pub mod persistence;
