//! Recommends catalog items by comparing a query against the items'
//! embeddings, restricted by tags: a bounded top-k selector, a tag filter,
//! a catalog store that is built once and then only read, and the query steps
//! that combine them.

pub mod args;
pub mod catalog;
pub mod query;
pub mod tags;
pub mod text;
pub mod topk;

pub use args::Args;
pub use catalog::{BuildError, CatalogStore, Data};
pub use query::{candidates, find_embedding, ranked, QueryError};
pub use tags::through_filter;
pub use text::filter;
pub use topk::{top_k, Recommendations, TopKError};
