//! An in-memory store of embeddings with exact nearest-neighbour ranking.
//!
//! The store keeps `(id, embedding)` pairs in insertion order. Similarity
//! scores are handed to the ranking as IEEE-754 single-precision bit
//! patterns ([`Score`]), which the library orders without floating-point
//! arithmetic.
pub mod ranking;
pub mod score;
pub mod store;

pub use score::Score;
pub use store::VectorDB;
