//! Flat (exhaustive) vector similarity search core: a growing table of
//! fixed-dimension vectors, bounded top-k / bottom-k candidate selection,
//! and the supporting id-keyed lookup structures.
use vstd::prelude::*;

pub mod error;
pub mod filter;
pub mod heap;
pub mod inverted_index;
pub mod metric;
pub mod posting_list;
pub mod rank;
pub mod selector;
pub mod table;
