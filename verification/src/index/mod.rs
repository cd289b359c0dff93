//! Indexes: the tokenizer, the predicate tree of the property index with
//! its bitmap combination, and the vector index's configuration. The
//! full-text scoring and the property index's lookups, which work on
//! floating-point scores and keys, live in the application crate.

pub mod fulltext;
pub mod property;
pub mod vector;
