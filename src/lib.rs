//! Core of a small retrieval-augmented-generation pipeline: sliding-window
//! text chunking on character boundaries, and top-k ranking of scored records.

pub mod chunk;
pub mod rank;

pub use chunk::chunk_text;
pub use rank::{check_dimensions, rank_top_k, score_key, RagError};
