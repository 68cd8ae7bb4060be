//! The in-memory file index: documents keyed by id, with name-token and
//! content lookups.

pub mod index;
pub mod models;
