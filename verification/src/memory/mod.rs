//! Long-term memory: memories and summaries, sequence ranges, wake covers,
//! queries, the choice of a context, and the decisions of the store.
pub mod context;
pub mod model;
pub mod query;
pub mod store;
pub mod tree;
