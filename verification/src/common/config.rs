//! Program defaults and the ways in which locating or reading them can fail.

pub use crate::models::ConfigError;
