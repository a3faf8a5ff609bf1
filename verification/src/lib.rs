//! A catalog of book records, an embedding pipeline that attaches a
//! fixed-dimension coordinate vector to each record, and an exact
//! k-nearest-neighbor index over those vectors: a k-d tree built once from
//! the full batch, queried by squared Euclidean distance with subtree
//! pruning. Every query is proved to return the canonical answer: the
//! `min(k, n)` closest vectors, ordered by ascending squared distance with
//! ties broken by construction order.

pub mod catalog;
pub mod distance;
pub mod knn;
pub mod tree;
pub mod index;

pub use catalog::Book;
pub use catalog::EmbeddedBook;
pub use catalog::EmbeddingError;
pub use catalog::Library;
pub use index::IndexError;
pub use index::KdIndex;
pub use knn::Neighbor;
