//! Collecting the documents that a search finds.

pub mod top_score;
