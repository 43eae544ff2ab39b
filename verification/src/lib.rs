//! Search for change-ringing compositions: a composition graph built from
//! method and call definitions, an optimiser that shrinks the graph, and a
//! best-first search that streams out valid compositions.

use vstd::prelude::*;

pub mod bell;
pub mod builder;
pub mod composition;
pub mod graph;
pub mod mask;
pub mod multipart;
pub mod music;
pub mod optimise;
pub mod params;
pub mod row;
pub mod search;
pub mod utils;

verus! {

/// Integer division, but rounding up instead of down.
pub fn div_rounding_up(lhs: usize, rhs: usize) -> (r: usize)
    requires
        rhs > 0,
        lhs + rhs <= usize::MAX,
    ensures
        r == (lhs + rhs - 1) / (rhs as int),
{
    (lhs + rhs - 1) / rhs
}

} // verus!
