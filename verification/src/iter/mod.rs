//! Iterators over sorted sequences.

pub mod dedup;
pub mod filter_sorted;
pub mod merge_sorted;
pub mod text_items;
