//! A product lattice: pairs ordered componentwise, with componentwise joins
//! and meets, as used for nested scopes of logical time.

use vstd::prelude::*;
use crate::lattice::{lat_eq, Lattice};

verus! {

/// A pair of an outer and an inner timestamp, ordered componentwise as a
/// lattice and lexicographically for sorting.
#[derive(Clone, Copy, Debug)]
pub struct Product<T1, T2> {
    /// The outer timestamp.
    pub outer: T1,
    /// The inner timestamp.
    pub inner: T2,
}

impl<T1, T2> Product<T1, T2> {
    /// Packs an outer and an inner timestamp into a product time.
    pub fn new(outer: T1, inner: T2) -> (r: Self)
        ensures
            r.outer == outer,
            r.inner == inner,
    {
        Product { outer, inner }
    }
}

impl<T1: Lattice, T2: Lattice> Lattice for Product<T1, T2> {
    open spec fn lle(self, other: Self) -> bool {
        self.outer.lle(other.outer) && self.inner.lle(other.inner)
    }

    open spec fn tle(self, other: Self) -> bool {
        if self.outer == other.outer {
            self.inner.tle(other.inner)
        } else {
            self.outer.tle(other.outer)
        }
    }

    open spec fn sjoin(self, other: Self) -> Self {
        Product { outer: self.outer.sjoin(other.outer), inner: self.inner.sjoin(other.inner) }
    }

    open spec fn smeet(self, other: Self) -> Self {
        Product { outer: self.outer.smeet(other.outer), inner: self.inner.smeet(other.inner) }
    }

    open spec fn smin() -> Self {
        Product { outer: T1::smin(), inner: T2::smin() }
    }

    open spec fn smax() -> Self {
        Product { outer: T1::smax(), inner: T2::smax() }
    }

    fn less_equal(&self, other: &Self) -> (r: bool) {
        self.outer.less_equal(&other.outer) && self.inner.less_equal(&other.inner)
    }

    fn total_le(&self, other: &Self) -> (r: bool) {
        if lat_eq(&self.outer, &other.outer) {
            self.inner.total_le(&other.inner)
        } else {
            self.outer.total_le(&other.outer)
        }
    }

    fn join(&self, other: &Self) -> (r: Self) {
        Product { outer: self.outer.join(&other.outer), inner: self.inner.join(&other.inner) }
    }

    fn meet(&self, other: &Self) -> (r: Self) {
        Product { outer: self.outer.meet(&other.outer), inner: self.inner.meet(&other.inner) }
    }

    fn minimum() -> (r: Self) {
        Product { outer: T1::minimum(), inner: T2::minimum() }
    }

    fn maximum() -> (r: Self) {
        Product { outer: T1::maximum(), inner: T2::maximum() }
    }

    proof fn lemma_refl(a: Self) {
        T1::lemma_refl(a.outer);
        T2::lemma_refl(a.inner);
    }

    proof fn lemma_trans(a: Self, b: Self, c: Self) {
        T1::lemma_trans(a.outer, b.outer, c.outer);
        T2::lemma_trans(a.inner, b.inner, c.inner);
        T1::lemma_antisym(a.outer, b.outer);
        T1::lemma_antisym(b.outer, c.outer);
        T1::lemma_antisym(a.outer, c.outer);
    }

    proof fn lemma_antisym(a: Self, b: Self) {
        T1::lemma_antisym(a.outer, b.outer);
        T2::lemma_antisym(a.inner, b.inner);
        T1::lemma_refl(a.outer);
    }

    proof fn lemma_total(a: Self, b: Self) {
        T1::lemma_total(a.outer, b.outer);
        T2::lemma_total(a.inner, b.inner);
    }

    proof fn lemma_join_lub(a: Self, b: Self, u: Self) {
        T1::lemma_join_lub(a.outer, b.outer, u.outer);
        T2::lemma_join_lub(a.inner, b.inner, u.inner);
    }

    proof fn lemma_meet_glb(a: Self, b: Self, u: Self) {
        T1::lemma_meet_glb(a.outer, b.outer, u.outer);
        T2::lemma_meet_glb(a.inner, b.inner, u.inner);
    }

    proof fn lemma_bounds(a: Self) {
        T1::lemma_bounds(a.outer);
        T2::lemma_bounds(a.inner);
    }
}

} // verus!
