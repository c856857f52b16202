//! Sparse-vector maximum-inner-product retrieval over an uncompressed
//! inverted index, scored one coordinate at a time.
//!
//! Weights are integers: callers with real-valued weights scale them to a
//! fixed point of their choice before inserting or querying, which makes
//! every score an exact inner product.
pub mod posting;
pub mod model;
pub mod index;
mod parallel;
pub mod topk;
pub mod budget;
pub mod persist;
pub mod laws;
