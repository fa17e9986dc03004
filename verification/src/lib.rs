//! Content pipeline and persistence/retrieval layer for directory
//! summarization and querying: chunking of text files into bounded,
//! overlapping, boundary-safe segments; an embedded store of collections,
//! embeddings and typed metadata; cosine-similarity ranking of stored
//! embeddings; and a two-level (map, then one reduce) summary reduction.

pub mod chunking;
pub mod errors;
pub mod models;
pub mod similarity;
pub mod store;
pub mod summarizer;
pub mod text_splitter;
