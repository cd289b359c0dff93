//! Full-text analysis. The term dictionary and BM25 ranking, which score
//! with floating point, live in the application crate.

pub mod analyzer;

pub use analyzer::CjkAnalyzer;
