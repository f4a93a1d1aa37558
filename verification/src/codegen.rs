//! The schema compiler: DDL plus annotations in, record layout and a typed
//! codec out. Layout is fixed at compile time: field offsets, row width, and
//! the schema hash all derive from the schema text.
//!
//! The parser accepts a deliberately small DDL subset. Parse errors carry the
//! line number and read like documentation.

pub mod columns;
pub mod declaring;
pub mod emit;
pub mod formatting;
pub mod generating;
pub mod hashing;
pub mod laws;
pub mod queries;
pub mod refusals;
pub mod schema;
pub mod splitting;
pub mod statements;
pub mod text;

pub use emit::{emit_rust, fnv1a64, Layout};
pub use queries::{
    emit_queries_rust, parse_queries, query_space_hash, Query, QueryKind, QueryShape,
};
pub use schema::{parse_schema, ColType, Column, ParseError, Schema};
