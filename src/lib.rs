//! A small in-memory document index that ranks stored documents against a
//! query by the cosine similarity of their term-frequency vectors.
pub mod terms;
pub mod similarity;
pub mod indexer;
pub mod server;
