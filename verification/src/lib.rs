//! Note and memory logic of the `nt` note organizer, verified with Verus.
pub mod error;
pub mod help;
pub mod index;
pub mod input;
pub mod lexical;
pub mod listing;
pub mod memory;
pub mod note;
pub mod notebook;
pub mod query;
pub mod query_sql;
pub mod strmap;
pub mod text;
