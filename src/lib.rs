//! Retrieval core of a personal-notes assistant: word-window chunking,
//! a content-addressed embedding cache, similarity ranking and the
//! decisions of a bounded k-means clustering pass.
pub mod chunking;
pub mod digest;
pub mod cache;
pub mod loader;
pub mod ranking;
pub mod cluster;
pub mod prompt;
pub mod config;
