//! Idiomatic types for building a robust JSON API: member names and paths,
//! the query-string language, pagination, and compound-document assembly.

pub mod collections;
pub mod doc;
pub mod error;
pub mod fields;
pub mod laws;
pub mod page;
pub mod query;
pub mod resource;
pub mod text;
