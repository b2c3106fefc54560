//! The notes store: schema and query rules.

pub mod notes;
pub mod schema;
