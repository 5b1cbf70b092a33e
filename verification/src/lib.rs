//! A local knowledge-base engine: it splits Markdown documents into
//! addressable chunks keyed by heading structure and maintains a small
//! in-memory dataset of knowledge bases and documents, with the
//! referential-integrity rules (cascading delete, recomputed document
//! counts) that a flat-file store needs.

pub mod text;
pub mod heading;
pub mod models;
pub mod seqs;
pub mod fresh;
pub mod chunker;
pub mod title;
pub mod store;
pub mod history;
pub mod codec;
