//! Key-indexed comparison of two tables that share a schema.
//!
//! A table is a header (column names) and rows of text cells. Rows are
//! indexed by a composite primary key and the two indexes are compared:
//! keys found on one side only, and keys found on both sides whose
//! remaining columns disagree.

pub mod error;
pub mod names;
pub mod hashing;
pub mod source;
pub mod mapping;
pub mod schema;
pub mod keyed;
pub mod index;
pub mod diff;
pub mod compare;
