//! Maintenance engine for the prefix-postings half of a full-text search
//! index: given a word database mapping (word, position slot) to a document-id
//! set, it derives and incrementally maintains a prefix database mapping
//! (prefix, position slot) to the union of the document-id sets of every word
//! that starts with the prefix.

pub mod builder;
pub mod deltas;
pub mod docids;
pub mod grouping;
pub mod errors;
pub mod keys;
pub mod laws;
pub mod sorter;
pub mod store;
