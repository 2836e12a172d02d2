//! Small shared traits.
use vstd::prelude::*;

verus! {

/// A mark that can be set and read, such as the "visited" mark of an edge.
pub trait Flag {
    /// Whether the mark is set.
    spec fn is_set(&self) -> bool;

    /// Sets or clears the mark.
    fn set(&mut self, val: bool)
        ensures
            final(self).is_set() == val,
    ;

    /// Reads the mark.
    fn get(&self) -> (out: bool)
        ensures
            out == self.is_set(),
    ;
}

impl Flag for bool {
    open spec fn is_set(&self) -> bool {
        *self
    }

    fn set(&mut self, val: bool) {
        *self = val;
    }

    fn get(&self) -> (out: bool) {
        *self
    }
}

} // verus!
