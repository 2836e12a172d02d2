//! Degrees of nodes.
use vstd::prelude::*;

verus! {

/// Node information from which the degrees of the node can be read.
pub trait Degree {
    /// The number of edges that end at the node.
    spec fn in_dgr_spec(&self) -> nat;

    /// The number of edges that start at the node.
    spec fn out_dgr_spec(&self) -> nat;

    /// The number of edges at the node.
    spec fn dgr_spec(&self) -> nat;

    /// The number of edges that end at the node.
    fn in_dgr(&self) -> (out: usize)
        ensures
            out == self.in_dgr_spec(),
    ;

    /// The number of edges that start at the node.
    fn out_dgr(&self) -> (out: usize)
        ensures
            out == self.out_dgr_spec(),
    ;

    /// The number of edges at the node.
    fn dgr(&self) -> (out: usize)
        requires
            self.dgr_spec() <= usize::MAX,
        ensures
            out == self.dgr_spec(),
    ;
}

/// A single count stands for every degree: the node of an undirected
/// graph.
impl Degree for usize {
    open spec fn in_dgr_spec(&self) -> nat {
        *self as nat
    }

    open spec fn out_dgr_spec(&self) -> nat {
        *self as nat
    }

    open spec fn dgr_spec(&self) -> nat {
        *self as nat
    }

    fn in_dgr(&self) -> (out: usize) {
        *self
    }

    fn out_dgr(&self) -> (out: usize) {
        *self
    }

    fn dgr(&self) -> (out: usize) {
        *self
    }
}

/// A pair holds the in-degree, then the out-degree: the node of a directed
/// graph.
impl Degree for (usize, usize) {
    open spec fn in_dgr_spec(&self) -> nat {
        self.0 as nat
    }

    open spec fn out_dgr_spec(&self) -> nat {
        self.1 as nat
    }

    open spec fn dgr_spec(&self) -> nat {
        (self.0 + self.1) as nat
    }

    fn in_dgr(&self) -> (out: usize) {
        self.0
    }

    fn out_dgr(&self) -> (out: usize) {
        self.1
    }

    fn dgr(&self) -> (out: usize) {
        self.0 + self.1
    }
}

} // verus!
