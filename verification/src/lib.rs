//! Kite: the core of a segment-based full-text index that keeps its data in
//! an ordered key-value store.
//!
//! The library holds the index's rules: how keys and values are laid out, how
//! documents become segments, how segments are merged and searched. It performs
//! no I/O itself: operations that change the index hand back a [`write_batch::WriteBatch`]
//! for the caller to commit, and operations that read take the stored bytes as
//! arguments.

pub mod active;
pub mod assoc;
pub mod bitmap;
pub mod collectors;
pub mod counts;
pub mod decimal;
pub mod doc_id_mapping;
pub mod doc_id_set;
pub mod document;
pub mod document_index;
pub mod encoding;
pub mod in_step;
pub mod index;
pub mod inserted;
pub mod key;
pub mod key_order;
pub mod merge_operator;
pub mod merged;
pub mod query;
pub mod removal;
pub mod schema;
pub mod scoring;
pub mod search;
pub mod segment;
pub mod segment_builder;
pub mod segment_ops;
pub mod segment_stats;
pub mod segment_writer;
pub mod settled;
pub mod staged;
pub mod term;
pub mod term_dictionary;
pub mod term_vector;
pub mod token;
pub mod write_batch;
