//! The error of graph6 decoding.
use vstd::prelude::*;

verus! {

/// A graph6 string could not be decoded: it ended too early or held a byte
/// below the printable range of the format.
#[derive(Debug, PartialEq, Eq)]
pub struct G6Error();

} // verus!
