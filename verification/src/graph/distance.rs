//! Lengths of edges.
use vstd::prelude::*;
use crate::num::Numeric;

verus! {

/// Edge information from which the length of the edge can be read.
pub trait Distance<N> where N: Numeric + Copy {
    /// The length of the edge.
    spec fn dist_spec(&self) -> N;

    /// The length of the edge.
    fn dist(&self) -> (out: N)
        ensures
            out == self.dist_spec(),
    ;
}

/// A number is its own length.
impl<N> Distance<N> for N where N: Numeric + Copy {
    open spec fn dist_spec(&self) -> N {
        *self
    }

    fn dist(&self) -> (out: N) {
        *self
    }
}

} // verus!
