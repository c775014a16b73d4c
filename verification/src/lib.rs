//! Core of a vector similarity search engine: segments that combine a
//! vector index with a payload index and pick a filtered-search strategy by
//! estimated cardinality, and the collection layer that replicates updates
//! across segments and answers point retrieval as one logical operation.

pub mod api;
pub mod collection;
pub mod filters;
pub mod index;
pub mod laws;
pub mod merge;
pub mod operations;
pub mod scoring;
pub mod segment;
pub mod types;
