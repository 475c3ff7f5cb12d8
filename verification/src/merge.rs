//! A progressive, fueled merge of two adjacent batches.
//!
//! The merger consumes the records of both inputs one at a time, advancing
//! each time by the compaction frontier captured when the merge began,
//! coalescing records of an equal resulting triple and dropping cancelled
//! triples. Work is measured in records consumed: every call to `work`
//! debits one unit of fuel per record, so the fuel spent across all calls
//! equals the records of the two inputs.

use vstd::prelude::*;
use crate::batch::{copy_vec, Batch};
use crate::lattice::{in_closure, Lattice};
use crate::update::{
    advance_upds, compact_inv, compact_step, lemma_compact_times_advanced, lemma_sums_concat,
    lemma_total_abs_prefix, lemma_weight_advanced, nonzero, times_advanced, total_abs, weight,
    Update,
};

verus! {

/// A merge in progress between two adjacent batches.
pub struct Merger<T: Lattice> {
    /// The records of both inputs, first batch first.
    pub input: Vec<Update<T>>,
    /// How many input records have been consumed so far.
    pub pos: usize,
    /// The compacted output assembled so far.
    pub staged: Vec<Update<T>>,
    /// The compaction frontier applied to every merged time.
    pub since: Vec<T>,
    /// The lower bound of the merged interval: that of the first input.
    pub lower: Vec<T>,
    /// The upper bound of the merged interval: that of the second input.
    pub upper: Vec<T>,
}

impl<T: Lattice> Merger<T> {
    /// Well-formedness: the staged output is a compaction of the advanced
    /// consumed prefix, and the input's magnitude fits a machine diff.
    pub open spec fn wf(self) -> bool {
        &&& self.pos <= self.input@.len()
        &&& nonzero(self.input@)
        &&& total_abs(self.input@) <= 0x7fff_ffff_ffff_ffff
        &&& compact_inv(self.staged@, advance_upds(self.input@.take(self.pos as int), self.since@))
    }

    /// Starts a merge of two adjacent batches, capturing the compaction
    /// frontier `since`. The merged interval spans from the first input's
    /// lower bound to the second input's upper bound.
    pub fn begin_merge(b1: &Batch<T>, b2: &Batch<T>, since: &Vec<T>) -> (m: Self)
        requires
            b1.wf(),
            b2.wf(),
            b1.upper@ == b2.lower@,
            total_abs(b1.recs@) + total_abs(b2.recs@) <= 0x7fff_ffff_ffff_ffff,
        ensures
            m.wf(),
            m.pos == 0,
            m.staged@.len() == 0,
            m.input@ == b1.recs@ + b2.recs@,
            m.since@ == since@,
            m.lower@ == b1.lower@,
            m.upper@ == b2.upper@,
    {
        let mut input = copy_vec(&b1.recs);
        let mut second = copy_vec(&b2.recs);
        input.append(&mut second);
        proof {
            lemma_sums_concat(b1.recs@, b2.recs@, 0, 0, T::smin());
            assert(advance_upds(input@.take(0), since@) =~= Seq::<Update<T>>::empty());
            assert forall|i: int| 0 <= i < input@.len() implies (#[trigger] input@[i]).diff
                != 0 by {
                if i < b1.recs@.len() {
                    assert(input@[i] == b1.recs@[i]);
                } else {
                    assert(input@[i] == b2.recs@[i - b1.recs@.len()]);
                }
            }
        }
        Merger {
            input,
            pos: 0,
            staged: Vec::new(),
            since: copy_vec(since),
            lower: copy_vec(&b1.lower),
            upper: copy_vec(&b2.upper),
        }
    }

    /// Performs work towards the merge, consuming one input record per unit
    /// of fuel, until the fuel or the input is exhausted. Fuel remaining
    /// positive after a call signals that the inputs were fully consumed.
    pub fn work(&mut self, fuel: &mut i64)
        requires
            old(self).wf(),
        ensures
            final(self).wf(),
            final(self).input@ == old(self).input@,
            final(self).since@ == old(self).since@,
            final(self).lower@ == old(self).lower@,
            final(self).upper@ == old(self).upper@,
            final(self).pos >= old(self).pos,
            final(self).pos - old(self).pos == *old(fuel) - *final(fuel),
            *old(fuel) > 0 ==> final(self).pos == final(self).input@.len() || *final(fuel) <= 0,
            *old(fuel) <= 0 ==> *final(fuel) == *old(fuel),
            *old(fuel) >= 0 ==> *final(fuel) >= 0,
    {
        let ghost fuel0 = *fuel;
        let ghost pos0 = self.pos;
        while self.pos < self.input.len() && *fuel > 0
            invariant
                self.wf(),
                self.input@ == old(self).input@,
                self.since@ == old(self).since@,
                self.lower@ == old(self).lower@,
                self.upper@ == old(self).upper@,
                pos0 <= self.pos,
                self.pos - pos0 == fuel0 - *fuel,
                fuel0 <= 0 ==> *fuel == fuel0,
                fuel0 >= 0 ==> *fuel >= 0,
            decreases self.input@.len() - self.pos,
        {
            let u = self.input[self.pos];
            let t2 = crate::lattice::advance_by(&u.time, &self.since);
            let au = Update { key: u.key, val: u.val, time: t2, diff: u.diff };
            let ghost p = advance_upds(self.input@.take(self.pos as int), self.since@);
            proof {
                assert(au == crate::update::advance_upd(self.input@[self.pos as int], self.since@));
                assert(advance_upds(self.input@.take(self.pos + 1), self.since@) =~= p.push(au));
                lemma_weight_advanced(self.input@.take(self.pos as int), self.since@, 0, 0, u.time);
                assert(self.input@.take(self.pos + 1).drop_last() =~= self.input@.take(
                    self.pos as int,
                ));
                lemma_total_abs_prefix(self.input@, self.pos + 1);
                assert(total_abs(self.input@.take(self.pos as int)) + (if u.diff < 0 {
                    -(u.diff as int)
                } else {
                    u.diff as int
                }) == total_abs(self.input@.take(self.pos + 1)));
            }
            let mut staged: Vec<Update<T>> = Vec::new();
            core::mem::swap(&mut staged, &mut self.staged);
            self.staged = compact_step(staged, au, Ghost(p));
            self.pos = self.pos + 1;
            *fuel = *fuel - 1;
        }
    }

    /// Seals a fully consumed merge into the merged batch: canonical, with
    /// every time advanced by the captured frontier, weighing at every query
    /// time in the frontier's upward closure exactly what the two inputs
    /// weigh together.
    pub fn done(self) -> (b: Batch<T>)
        requires
            self.wf(),
            self.pos == self.input@.len(),
        ensures
            b.wf(),
            b.lower@ == self.lower@,
            b.upper@ == self.upper@,
            forall|k: u64, v: u64, q: T|
                in_closure(q, self.since@) ==> #[trigger] weight(b.recs@, k, v, q) == weight(
                    self.input@,
                    k,
                    v,
                    q,
                ),
            times_advanced(b.recs@, self.since@),
            total_abs(b.recs@) <= total_abs(self.input@),
    {
        proof {
            assert(self.input@.take(self.input@.len() as int) =~= self.input@);
            let adv = advance_upds(self.input@, self.since@);
            lemma_compact_times_advanced(self.staged@, self.input@, self.since@);
            assert forall|k: u64, v: u64, q: T| in_closure(q, self.since@)
                implies #[trigger] weight(self.staged@, k, v, q) == weight(
                self.input@,
                k,
                v,
                q,
            ) by {
                lemma_weight_advanced(self.input@, self.since@, k, v, q);
            }
            lemma_weight_advanced(self.input@, self.since@, 0, 0, T::smin());
        }
        Batch { recs: self.staged, lower: self.lower, upper: self.upper }
    }
}

/// Merges two adjacent batches to completion in one call, compacting by
/// `since`: the result is canonical, spans the two inputs' composed
/// interval, and weighs at every query time in the upward closure of
/// `since` exactly what the inputs weigh together.
pub fn merge_batches<T: Lattice>(b1: &Batch<T>, b2: &Batch<T>, since: &Vec<T>) -> (b: Batch<T>)
    requires
        b1.wf(),
        b2.wf(),
        b1.upper@ == b2.lower@,
        total_abs(b1.recs@) + total_abs(b2.recs@) <= 0x7fff_ffff_ffff_ffff,
    ensures
        b.wf(),
        b.lower@ == b1.lower@,
        b.upper@ == b2.upper@,
        forall|k: u64, v: u64, q: T|
            in_closure(q, since@) ==> #[trigger] weight(b.recs@, k, v, q) == weight(
                b1.recs@ + b2.recs@,
                k,
                v,
                q,
            ),
        times_advanced(b.recs@, since@),
        total_abs(b.recs@) <= total_abs(b1.recs@) + total_abs(b2.recs@),
{
    let mut m = Merger::begin_merge(b1, b2, since);
    while m.pos < m.input.len()
        invariant
            m.wf(),
            m.input@ == b1.recs@ + b2.recs@,
            m.since@ == since@,
            m.lower@ == b1.lower@,
            m.upper@ == b2.upper@,
        decreases m.input@.len() - m.pos,
    {
        let mut fuel: i64 = 65536;
        m.work(&mut fuel);
    }
    let b = m.done();
    proof {
        lemma_sums_concat(b1.recs@, b2.recs@, 0, 0, T::smin());
    }
    b
}

} // verus!
