//! Ordered accumulation of heterogeneous parsed values into one tuple.
//!
//! Appending an element to an n-tuple yields an (n+1)-tuple that keeps the
//! existing elements in order; the parser grows its result one field per
//! expected parameter this way, up to a fixed greatest arity.

use vstd::prelude::*;

verus! {

/// Appends one value of type `C` to a product type, preserving order.
pub trait TupleConcat<C>: Sized {
    /// The product type extended by one trailing element of type `C`.
    type Out;

    /// What `tup_cat` returns: the receiver's elements, then `c`.
    spec fn spec_cat(self, c: C) -> Self::Out;

    /// Appends `c` after the receiver's elements.
    fn tup_cat(self, c: C) -> (r: Self::Out)
        ensures
            r == self.spec_cat(c),
    ;
}

impl<C> TupleConcat<C> for () {
    type Out = (C,);

    open spec fn spec_cat(self, c: C) -> (C,) {
        (c,)
    }

    fn tup_cat(self, c: C) -> (r: (C,)) {
        (c,)
    }
}

impl<T0, C> TupleConcat<C> for (T0,) {
    type Out = (T0, C);

    open spec fn spec_cat(self, c: C) -> (T0, C) {
        (self.0, c)
    }

    fn tup_cat(self, c: C) -> (r: (T0, C)) {
        (self.0, c)
    }
}

impl<T0, T1, C> TupleConcat<C> for (T0, T1) {
    type Out = (T0, T1, C);

    open spec fn spec_cat(self, c: C) -> (T0, T1, C) {
        (self.0, self.1, c)
    }

    fn tup_cat(self, c: C) -> (r: (T0, T1, C)) {
        (self.0, self.1, c)
    }
}

impl<T0, T1, T2, C> TupleConcat<C> for (T0, T1, T2) {
    type Out = (T0, T1, T2, C);

    open spec fn spec_cat(self, c: C) -> (T0, T1, T2, C) {
        (self.0, self.1, self.2, c)
    }

    fn tup_cat(self, c: C) -> (r: (T0, T1, T2, C)) {
        (self.0, self.1, self.2, c)
    }
}

impl<T0, T1, T2, T3, C> TupleConcat<C> for (T0, T1, T2, T3) {
    type Out = (T0, T1, T2, T3, C);

    open spec fn spec_cat(self, c: C) -> (T0, T1, T2, T3, C) {
        (self.0, self.1, self.2, self.3, c)
    }

    fn tup_cat(self, c: C) -> (r: (T0, T1, T2, T3, C)) {
        (self.0, self.1, self.2, self.3, c)
    }
}

impl<T0, T1, T2, T3, T4, C> TupleConcat<C> for (T0, T1, T2, T3, T4) {
    type Out = (T0, T1, T2, T3, T4, C);

    open spec fn spec_cat(self, c: C) -> (T0, T1, T2, T3, T4, C) {
        (self.0, self.1, self.2, self.3, self.4, c)
    }

    fn tup_cat(self, c: C) -> (r: (T0, T1, T2, T3, T4, C)) {
        (self.0, self.1, self.2, self.3, self.4, c)
    }
}

impl<T0, T1, T2, T3, T4, T5, C> TupleConcat<C> for (T0, T1, T2, T3, T4, T5) {
    type Out = (T0, T1, T2, T3, T4, T5, C);

    open spec fn spec_cat(self, c: C) -> (T0, T1, T2, T3, T4, T5, C) {
        (self.0, self.1, self.2, self.3, self.4, self.5, c)
    }

    fn tup_cat(self, c: C) -> (r: (T0, T1, T2, T3, T4, T5, C)) {
        (self.0, self.1, self.2, self.3, self.4, self.5, c)
    }
}

impl<T0, T1, T2, T3, T4, T5, T6, C> TupleConcat<C> for (T0, T1, T2, T3, T4, T5, T6) {
    type Out = (T0, T1, T2, T3, T4, T5, T6, C);

    open spec fn spec_cat(self, c: C) -> (T0, T1, T2, T3, T4, T5, T6, C) {
        (self.0, self.1, self.2, self.3, self.4, self.5, self.6, c)
    }

    fn tup_cat(self, c: C) -> (r: (T0, T1, T2, T3, T4, T5, T6, C)) {
        (self.0, self.1, self.2, self.3, self.4, self.5, self.6, c)
    }
}

impl<T0, T1, T2, T3, T4, T5, T6, T7, C> TupleConcat<C> for (T0, T1, T2, T3, T4, T5, T6, T7) {
    type Out = (T0, T1, T2, T3, T4, T5, T6, T7, C);

    open spec fn spec_cat(self, c: C) -> (T0, T1, T2, T3, T4, T5, T6, T7, C) {
        (self.0, self.1, self.2, self.3, self.4, self.5, self.6, self.7, c)
    }

    fn tup_cat(self, c: C) -> (r: (T0, T1, T2, T3, T4, T5, T6, T7, C)) {
        (self.0, self.1, self.2, self.3, self.4, self.5, self.6, self.7, c)
    }
}

impl<T0, T1, T2, T3, T4, T5, T6, T7, T8, C> TupleConcat<C> for (T0, T1, T2, T3, T4, T5, T6, T7, T8) {
    type Out = (T0, T1, T2, T3, T4, T5, T6, T7, T8, C);

    open spec fn spec_cat(self, c: C) -> (T0, T1, T2, T3, T4, T5, T6, T7, T8, C) {
        (self.0, self.1, self.2, self.3, self.4, self.5, self.6, self.7, self.8, c)
    }

    fn tup_cat(self, c: C) -> (r: (T0, T1, T2, T3, T4, T5, T6, T7, T8, C)) {
        (self.0, self.1, self.2, self.3, self.4, self.5, self.6, self.7, self.8, c)
    }
}

impl<T0, T1, T2, T3, T4, T5, T6, T7, T8, T9, C> TupleConcat<C> for (T0, T1, T2, T3, T4, T5, T6, T7, T8, T9) {
    type Out = (T0, T1, T2, T3, T4, T5, T6, T7, T8, T9, C);

    open spec fn spec_cat(self, c: C) -> (T0, T1, T2, T3, T4, T5, T6, T7, T8, T9, C) {
        (self.0, self.1, self.2, self.3, self.4, self.5, self.6, self.7, self.8, self.9, c)
    }

    fn tup_cat(self, c: C) -> (r: (T0, T1, T2, T3, T4, T5, T6, T7, T8, T9, C)) {
        (self.0, self.1, self.2, self.3, self.4, self.5, self.6, self.7, self.8, self.9, c)
    }
}

impl<T0, T1, T2, T3, T4, T5, T6, T7, T8, T9, T10, C> TupleConcat<C> for (T0, T1, T2, T3, T4, T5, T6, T7, T8, T9, T10) {
    type Out = (T0, T1, T2, T3, T4, T5, T6, T7, T8, T9, T10, C);

    open spec fn spec_cat(self, c: C) -> (T0, T1, T2, T3, T4, T5, T6, T7, T8, T9, T10, C) {
        (self.0, self.1, self.2, self.3, self.4, self.5, self.6, self.7, self.8, self.9, self.10, c)
    }

    fn tup_cat(self, c: C) -> (r: (T0, T1, T2, T3, T4, T5, T6, T7, T8, T9, T10, C)) {
        (self.0, self.1, self.2, self.3, self.4, self.5, self.6, self.7, self.8, self.9, self.10, c)
    }
}

impl<T0, T1, T2, T3, T4, T5, T6, T7, T8, T9, T10, T11, C> TupleConcat<C> for (T0, T1, T2, T3, T4, T5, T6, T7, T8, T9, T10, T11) {
    type Out = (T0, T1, T2, T3, T4, T5, T6, T7, T8, T9, T10, T11, C);

    open spec fn spec_cat(self, c: C) -> (T0, T1, T2, T3, T4, T5, T6, T7, T8, T9, T10, T11, C) {
        (self.0, self.1, self.2, self.3, self.4, self.5, self.6, self.7, self.8, self.9, self.10, self.11, c)
    }

    fn tup_cat(self, c: C) -> (r: (T0, T1, T2, T3, T4, T5, T6, T7, T8, T9, T10, T11, C)) {
        (self.0, self.1, self.2, self.3, self.4, self.5, self.6, self.7, self.8, self.9, self.10, self.11, c)
    }
}

} // verus!
