//! A semantic document index: text is cut into passages, passages are
//! embedded, and queries are ranked against the embedded passages with one
//! entry per document.
pub mod embed;
pub mod index;
pub mod indexer;
pub mod models;
pub mod rank;
pub mod segment;
