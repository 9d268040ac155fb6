//! Storage: the schema migrations, the operations the services need from
//! storage, and what stored rows mean once read.

pub mod migrations;
pub mod repositories;
pub mod rows;
pub mod schema;
