//! The limits of a generation run.
use vstd::prelude::*;

verus! {

/// Limits on the graphs to generate: the number of vertices, the numbers of
/// edges and the largest degree.
#[derive(Clone, Copy, Debug, PartialEq, Eq)]
pub struct Env {
    pub maxn: usize,
    pub maxe: usize,
    pub mine: usize,
    pub maxdeg: usize,
}

} // verus!
