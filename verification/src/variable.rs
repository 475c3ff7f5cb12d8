//! Recursive collections defined through a feedback edge.
//!
//! A variable stands for a collection defined by a least-fixed-point
//! computation: it is created from a source collection, and once the body of
//! the iteration has produced its result, `set` closes the variable and
//! yields the feedback updates — the result minus the source — that the
//! enclosing iterative scope plays back around the loop. A variable must be
//! set exactly once.

use vstd::prelude::*;
use crate::lattice::Lattice;
use crate::update::{
    compact, compact_inv, lemma_diff_bound, lemma_sums_concat, lemma_total_abs_nonneg,
    lemma_weight_advanced, total_abs, weight, Update,
};

verus! {

/// A recursive collection awaiting its defining result.
pub struct Variable<T: Lattice> {
    /// The updates of the source collection the variable started from.
    pub source: Vec<Update<T>>,
    /// Whether the variable has been set; a set variable is final.
    pub closed: bool,
}

impl<T: Lattice> Variable<T> {
    /// Opens a variable over a source collection.
    pub fn from(source: Vec<Update<T>>) -> (v: Self)
        ensures
            v.source@ == source@,
            !v.closed,
    {
        Variable { source, closed: false }
    }

    /// Closes the variable with the iteration body's result and returns the
    /// feedback updates: at every query time, the result's weights minus the
    /// source's, coalesced.
    pub fn set(&mut self, result: &Vec<Update<T>>) -> (feedback: Vec<Update<T>>)
        requires
            !old(self).closed,
            total_abs(old(self).source@) + total_abs(result@) <= 0x7fff_ffff_ffff_ffff,
        ensures
            final(self).closed,
            final(self).source@ == old(self).source@,
            forall|k: u64, v: u64, q: T|
                #[trigger] weight(feedback@, k, v, q) == weight(result@, k, v, q) - weight(
                    old(self).source@,
                    k,
                    v,
                    q,
                ),
    {
        proof {
            lemma_total_abs_nonneg(self.source@);
            lemma_total_abs_nonneg(result@);
        }
        let mut combined: Vec<Update<T>> = Vec::new();
        let mut i: usize = 0;
        while i < result.len()
            invariant
                i <= result@.len(),
                combined@ == result@.take(i as int),
            decreases result@.len() - i,
        {
            combined.push(result[i]);
            proof {
                assert(combined@ =~= result@.take(i + 1));
            }
            i = i + 1;
        }
        proof {
            assert(result@.take(result@.len() as int) =~= result@);
        }
        let ghost neg = Seq::new(
            self.source@.len(),
            |j: int|
                Update {
                    key: self.source@[j].key,
                    val: self.source@[j].val,
                    time: self.source@[j].time,
                    diff: (-(self.source@[j].diff as int)) as i64,
                },
        );
        let mut j: usize = 0;
        while j < self.source.len()
            invariant
                j <= self.source@.len(),
                self.source@ == old(self).source@,
                self.closed == old(self).closed,
                total_abs(self.source@) + total_abs(result@) <= 0x7fff_ffff_ffff_ffff,
                total_abs(self.source@) >= 0,
                total_abs(result@) >= 0,
                neg == Seq::new(
                    self.source@.len(),
                    |jj: int|
                        Update {
                            key: self.source@[jj].key,
                            val: self.source@[jj].val,
                            time: self.source@[jj].time,
                            diff: (-(self.source@[jj].diff as int)) as i64,
                        },
                ),
                combined@ == result@ + neg.take(j as int),
            decreases self.source@.len() - j,
        {
            let u = self.source[j];
            proof {
                lemma_diff_bound(self.source@, j as int);
            }
            combined.push(Update { key: u.key, val: u.val, time: u.time, diff: -u.diff });
            proof {
                assert(combined@ =~= result@ + neg.take(j + 1));
            }
            j = j + 1;
        }
        proof {
            assert(neg.take(self.source@.len() as int) =~= neg);
        }
        // Coalesce the difference without compacting any time: advancing by
        // the smallest time is the identity.
        let mut since: Vec<T> = Vec::new();
        since.push(T::minimum());
        proof {
            assert forall|jj: int| 0 <= jj < old(self).source@.len() implies (#[trigger] neg[
            jj]).key == old(self).source@[jj].key && neg[jj].val == old(self).source@[jj].val
                && neg[jj].time == old(self).source@[jj].time && neg[jj].diff as int == -((old(
                self,
            ).source@[jj]).diff as int) by {
                lemma_diff_bound(old(self).source@, jj);
            }
            lemma_combined_sums(old(self).source@, result@, neg, combined@);
        }
        let feedback = compact(&combined, &since);
        proof {
            assert forall|k: u64, v: u64, q: T| #[trigger] weight(feedback@, k, v, q) == weight(
                result@,
                k,
                v,
                q,
            ) - weight(old(self).source@, k, v, q) by {
                T::lemma_bounds(q);
                assert(since@[0].lle(q));
                assert(crate::lattice::in_closure(q, since@));
                lemma_weight_advanced(combined@, since@, k, v, q);
                lemma_sums_concat(result@, neg, k, v, q);
                lemma_neg_weight(old(self).source@, neg, k, v, q);
            }
        }
        self.closed = true;
        feedback
    }
}

/// The magnitude of the assembled difference is the sum of its parts.
proof fn lemma_combined_sums<T: Lattice>(
    source: Seq<Update<T>>,
    result: Seq<Update<T>>,
    neg: Seq<Update<T>>,
    combined: Seq<Update<T>>,
)
    requires
        combined == result + neg,
        neg.len() == source.len(),
        forall|j: int|
            0 <= j < source.len() ==> (#[trigger] neg[j]).diff as int == -((#[trigger] source[
            j]).diff as int),
        total_abs(source) + total_abs(result) <= 0x7fff_ffff_ffff_ffff,
    ensures
        total_abs(combined) <= 0x7fff_ffff_ffff_ffff,
{
    lemma_neg_abs(source, neg);
    lemma_sums_concat(result, neg, 0, 0, T::smin());
}

/// Negated records keep their magnitude.
proof fn lemma_neg_abs<T: Lattice>(source: Seq<Update<T>>, neg: Seq<Update<T>>)
    requires
        neg.len() == source.len(),
        forall|j: int|
            0 <= j < source.len() ==> (#[trigger] neg[j]).diff as int == -((#[trigger] source[
            j]).diff as int),
    ensures
        total_abs(neg) == total_abs(source),
    decreases source.len(),
{
    if source.len() > 0 {
        assert forall|j: int| 0 <= j < source.drop_last().len() implies (#[trigger] neg.drop_last()[
        j]).diff as int == -((source.drop_last()[j]).diff as int) by {
            assert(neg.drop_last()[j] == neg[j]);
            assert(source.drop_last()[j] == source[j]);
        }
        lemma_neg_abs(source.drop_last(), neg.drop_last());
    }
}

/// Negated records flip every visible weight.
proof fn lemma_neg_weight<T: Lattice>(
    source: Seq<Update<T>>,
    neg: Seq<Update<T>>,
    k: u64,
    v: u64,
    q: T,
)
    requires
        neg.len() == source.len(),
        forall|j: int|
            0 <= j < source.len() ==> (#[trigger] neg[j]).key == source[j].key && neg[j].val
                == source[j].val && neg[j].time == source[j].time && neg[j].diff as int == -((
            source[j]).diff as int),
    ensures
        weight(neg, k, v, q) == -weight(source, k, v, q),
    decreases source.len(),
{
    if source.len() > 0 {
        assert forall|j: int| 0 <= j < source.drop_last().len() implies (#[trigger] neg.drop_last()[
        j]).key == source.drop_last()[j].key && neg.drop_last()[j].val == source.drop_last()[j].val
            && neg.drop_last()[j].time == source.drop_last()[j].time && neg.drop_last()[j].diff
            as int == -((source.drop_last()[j]).diff as int) by {
            assert(neg.drop_last()[j] == neg[j]);
            assert(source.drop_last()[j] == source[j]);
        }
        lemma_neg_weight(source.drop_last(), neg.drop_last(), k, v, q);
    }
}

} // verus!
