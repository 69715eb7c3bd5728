//! Arity of a tuple as a value, written out impl by impl.

use vstd::prelude::*;

verus! {

/// The number of components a tuple carries.
pub trait TupleLen {
    fn len(&self) -> usize;
}

impl<A> TupleLen for (A,) {
    fn len(&self) -> usize {
        1
    }
}

impl<A, B> TupleLen for (A, B) {
    fn len(&self) -> usize {
        2
    }
}

impl<A, B, C> TupleLen for (A, B, C) {
    fn len(&self) -> usize {
        3
    }
}

impl<A, B, C, D> TupleLen for (A, B, C, D) {
    fn len(&self) -> usize {
        4
    }
}

impl<A, B, C, D, E> TupleLen for (A, B, C, D, E) {
    fn len(&self) -> usize {
        5
    }
}

impl<A, B, C, D, E, F> TupleLen for (A, B, C, D, E, F) {
    fn len(&self) -> usize {
        6
    }
}

impl<A, B, C, D, E, F, G> TupleLen for (A, B, C, D, E, F, G) {
    fn len(&self) -> usize {
        7
    }
}

impl<A, B, C, D, E, F, G, H> TupleLen for (A, B, C, D, E, F, G, H) {
    fn len(&self) -> usize {
        8
    }
}

} // verus!
