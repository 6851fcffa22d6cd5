//! An in-memory word-level inverted index over a corpus of text
//! documents.
//!
//! The index maps each lowercase word-like term to its posting list:
//! the ordered, non-deduplicated sequence of ids of the documents
//! containing it, one entry per occurrence. Three build strategies
//! populate the shared term → document map — a sequential build, a
//! per-file parallel build merging under a single lock, and a batched
//! parallel build that pre-reserves contiguous document-id ranges —
//! and the laws relating their results (identical occurrence counts,
//! deterministic id assignment for the batched build) are stated and
//! proved in [`laws`].
//!
//! The builders work on [`Document`] values: a path together with the
//! lines of text read from it. Enumerating and reading files, and
//! dispatching batches onto worker threads, are the caller's affair.

pub mod laws;
pub mod model;
pub mod rpc;
pub mod simple_inverted_index;
pub mod tokenizer;

mod index;

pub use index::Document;
pub use index::InvertedIndex;
pub use index::TermIndex;
