//! Query options shared by the query builder and executor.

use vstd::prelude::*;

verus! {

/// When the property predicate is applied.
#[derive(Debug, Clone, Copy, PartialEq, Eq, Structural)]
pub enum FilterTiming {
    /// Filter first (for selective predicates, under 10%).
    Pre,
    /// Score first, filter afterwards (selectivity of 10% or more).
    Post,
    /// Choose by the estimated selectivity.
    Adaptive,
}

/// The direction of a traversal step.
#[derive(Debug, Clone, Copy, PartialEq, Eq, Structural)]
pub enum Direction {
    Out,
    In,
    Both,
}

} // verus!
