//! Units of measure and the names of counted quantities.

pub use crate::logic::quantity::{CountName, Unit};
