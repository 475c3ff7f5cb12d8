//! Immutable sorted batches of updates and the builder that forms them.
//!
//! A batch is a canonical block of updates covering the half-open interval
//! of times `[lower, upper)`. A builder accepts updates one by one,
//! coalesces records of an equal `(key, val, time)` triple, drops cancelled
//! triples, and seals the block after advancing every time by a compaction
//! frontier `since`.

use vstd::prelude::*;
use crate::lattice::{in_closure, Lattice};
use crate::update::{
    canonical, compact, compact_inv, lemma_sums_push, lemma_total_abs_nonneg,
    lemma_compact_times_advanced, lemma_weight_advanced, times_advanced, total_abs, triple_sum,
    has_triple, weight, Update,
};

verus! {

/// Copies a vector of plain values.
pub fn copy_vec<A: Copy>(v: &Vec<A>) -> (r: Vec<A>)
    ensures
        r@ == v@,
{
    let mut r: Vec<A> = Vec::new();
    let mut i: usize = 0;
    while i < v.len()
        invariant
            0 <= i <= v@.len(),
            r@ == v@.take(i as int),
        decreases v@.len() - i,
    {
        r.push(v[i]);
        proof {
            assert(v@.take(i + 1) =~= v@.take(i as int).push(v@[i as int]));
        }
        i = i + 1;
    }
    proof {
        assert(v@.take(v@.len() as int) =~= v@);
    }
    r
}

/// An immutable sorted block of updates over the time interval
/// `[lower, upper)`.
pub struct Batch<T: Lattice> {
    /// The records, in canonical form: strictly sorted by
    /// `(key, val, time)`, with no zero diff.
    pub recs: Vec<Update<T>>,
    /// The frontier at which the batch's interval begins.
    pub lower: Vec<T>,
    /// The frontier at which the batch's interval ends.
    pub upper: Vec<T>,
}

impl<T: Lattice> Batch<T> {
    /// Well-formedness: the records are canonical.
    pub open spec fn wf(self) -> bool {
        canonical(self.recs@)
    }

    /// The number of records in the batch.
    pub fn len(&self) -> (r: usize)
        ensures
            r == self.recs@.len(),
    {
        self.recs.len()
    }

    /// Whether the batch holds no records.
    pub fn is_empty(&self) -> (r: bool)
        ensures
            r == (self.recs@.len() == 0),
    {
        self.recs.len() == 0
    }

    /// A deep copy of the batch.
    pub fn duplicate(&self) -> (r: Self)
        ensures
            r.recs@ == self.recs@,
            r.lower@ == self.lower@,
            r.upper@ == self.upper@,
    {
        Batch {
            recs: copy_vec(&self.recs),
            lower: copy_vec(&self.lower),
            upper: copy_vec(&self.upper),
        }
    }
}

/// Accumulates updates into the canonical form of a batch. Updates of an
/// equal `(key, val, time)` triple are coalesced as they arrive and triples
/// whose diffs cancel are dropped, so the builder's contents always carry
/// exactly the weights of everything pushed.
pub struct Builder<T: Lattice> {
    /// The coalesced records accumulated so far.
    pub recs: Vec<Update<T>>,
    /// Every update ever pushed, the reference for the builder's contracts.
    pub pushed: Ghost<Seq<Update<T>>>,
}

impl<T: Lattice> Builder<T> {
    /// Well-formedness: the contents are a compaction of what was pushed,
    /// and the accumulated magnitude still fits a machine diff.
    pub open spec fn wf(self) -> bool {
        &&& compact_inv(self.recs@, self.pushed@)
        &&& total_abs(self.pushed@) <= 0x7fff_ffff_ffff_ffff
    }

    /// An empty builder.
    pub fn new() -> (r: Self)
        ensures
            r.wf(),
            r.pushed@ == Seq::<Update<T>>::empty(),
    {
        Builder { recs: Vec::new(), pushed: Ghost(Seq::empty()) }
    }

    /// Accepts one more update. Unlike a batch, the builder takes updates in
    /// any order and accepts zero diffs; the magnitude bound is what keeps
    /// coalesced diffs within the machine range.
    pub fn push(&mut self, u: Update<T>)
        requires
            old(self).wf(),
            total_abs(old(self).pushed@) + (if u.diff < 0 {
                -(u.diff as int)
            } else {
                u.diff as int
            }) <= 0x7fff_ffff_ffff_ffff,
        ensures
            final(self).wf(),
            final(self).pushed@ == old(self).pushed@.push(u),
    {
        let ghost p = self.pushed@;
        if u.diff != 0 {
            let mut recs: Vec<Update<T>> = Vec::new();
            core::mem::swap(&mut recs, &mut self.recs);
            self.recs = crate::update::compact_step(recs, u, Ghost(p));
        } else {
            proof {
                assert forall|k: u64, v: u64, q: T| #[trigger] weight(self.recs@, k, v, q)
                    == weight(p.push(u), k, v, q) by {
                    lemma_sums_push(p, u, k, v, q);
                }
                assert forall|a: int| 0 <= a < self.recs@.len() implies (#[trigger] self.recs@[a])
                    .diff as int == triple_sum(
                    p.push(u),
                    self.recs@[a].key,
                    self.recs@[a].val,
                    self.recs@[a].time,
                ) by {
                    lemma_sums_push(p, u, self.recs@[a].key, self.recs@[a].val, self.recs@[a].time);
                }
                assert forall|k: u64, v: u64, t: T| !has_triple(self.recs@, k, v, t)
                    implies #[trigger] triple_sum(p.push(u), k, v, t) == 0 by {
                    lemma_sums_push(p, u, k, v, t);
                }
                lemma_sums_push(p, u, 0, 0, u.time);
            }
        }
        proof {
            lemma_sums_push(p, u, 0, 0, u.time);
            self.pushed@ = p.push(u);
        }
    }

    /// Seals the builder into a batch over `[lower, upper)`, advancing every
    /// time by the compaction frontier `since`. At every query time in the
    /// upward closure of `since` the batch weighs exactly what was pushed.
    pub fn done(self, lower: &Vec<T>, upper: &Vec<T>, since: &Vec<T>) -> (b: Batch<T>)
        requires
            self.wf(),
        ensures
            b.wf(),
            b.lower@ == lower@,
            b.upper@ == upper@,
            forall|k: u64, v: u64, q: T|
                in_closure(q, since@) ==> #[trigger] weight(b.recs@, k, v, q) == weight(
                    self.pushed@,
                    k,
                    v,
                    q,
                ),
            times_advanced(b.recs@, since@),
            total_abs(b.recs@) <= total_abs(self.pushed@),
    {
        proof {
            lemma_total_abs_nonneg(self.recs@);
        }
        let recs = compact(&self.recs, since);
        proof {
            let adv = crate::update::advance_upds(self.recs@, since@);
            lemma_compact_times_advanced(recs@, self.recs@, since@);
            assert forall|k: u64, v: u64, q: T| in_closure(q, since@) implies #[trigger] weight(
                recs@,
                k,
                v,
                q,
            ) == weight(self.pushed@, k, v, q) by {
                lemma_weight_advanced(self.recs@, since@, k, v, q);
                assert(weight(recs@, k, v, q) == weight(adv, k, v, q));
                assert(weight(adv, k, v, q) == weight(self.recs@, k, v, q));
            }
            lemma_weight_advanced(self.recs@, since@, 0, 0, T::smin());
        }
        Batch { recs, lower: copy_vec(lower), upper: copy_vec(upper) }
    }
}

} // verus!
