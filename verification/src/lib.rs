//! An in-memory ordered map keyed by arbitrary byte sequences, built as a
//! skip list: a multi-level linked structure whose expected-logarithmic
//! balance comes from randomized tower heights rather than rebalancing.

pub mod order;
pub mod skiplist;
