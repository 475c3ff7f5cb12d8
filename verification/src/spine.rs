//! An append-only trace of update batches with progressive merging.
//!
//! The spine keeps its batches in layers: each layer is vacant, holds a
//! single batch, or holds two batches being merged. Freshly inserted batches
//! wait in a pending queue until readers allow their admission; admitted
//! batches enter a layer sized to their record count, and fuel proportional
//! to what enters drives the merges of larger layers forward. Reading from
//! high layers to low layers and then through the pending queue, the batches
//! of a spine tile a contiguous interval of logical times, and together they
//! weigh, at every query time in the upward closure of the compaction
//! frontier, exactly what was ever inserted.

use vstd::prelude::*;
use vstd::pervasive::VecAdditionalExecFns;
use crate::batch::{copy_vec, Batch, Builder};
use crate::lattice::{
    frontier_le, frontier_le_exec, in_closure, lemma_frontier_le_trans, lemma_in_closure_mono,
    Lattice,
};
use crate::merge::Merger;
use crate::update::{lemma_sums_concat, lemma_total_abs_nonneg, total_abs, weight, Update};

verus! {

/// A merge of two batches in progress, or already complete.
pub enum MergeVariant<T: Lattice> {
    /// An actual in-progress merge between two batches.
    InProgress(Batch<T>, Batch<T>, Merger<T>),
    /// A merge requiring no further work; `None` stands for a structurally
    /// empty result kept only for bookkeeping.
    Complete(Option<Batch<T>>),
}

/// The state of one layer of the spine.
pub enum MergeState<T: Lattice> {
    /// An empty layer.
    Vacant,
    /// A layer holding one batch; `None` is a structurally empty batch kept
    /// to drive maintenance work.
    Single(Option<Batch<T>>),
    /// A layer holding two batches in the process of merging.
    Double(MergeVariant<T>),
}

impl<T: Lattice> MergeState<T> {
    /// Whether the layer is vacant.
    pub open spec fn is_vacant(self) -> bool {
        self is Vacant
    }

    /// Whether the layer holds a single batch.
    pub open spec fn is_single(self) -> bool {
        self is Single
    }

    /// Whether the layer holds a merge.
    pub open spec fn is_double(self) -> bool {
        self is Double
    }
}

/// The batches an optional batch contributes.
pub open spec fn opt_seq<T: Lattice>(b: Option<Batch<T>>) -> Seq<Batch<T>> {
    match b {
        Some(b) => seq![b],
        None => Seq::empty(),
    }
}

/// The batches one layer contributes, oldest first.
pub open spec fn slot_batches<T: Lattice>(m: MergeState<T>) -> Seq<Batch<T>> {
    match m {
        MergeState::Vacant => Seq::empty(),
        MergeState::Single(b) => opt_seq(b),
        MergeState::Double(MergeVariant::InProgress(b1, b2, _)) => seq![b1, b2],
        MergeState::Double(MergeVariant::Complete(b)) => opt_seq(b),
    }
}

/// The batches of a sequence of layers, highest layer (oldest data) first.
pub open spec fn slots_seq<T: Lattice>(ms: Seq<MergeState<T>>) -> Seq<Batch<T>>
    decreases ms.len(),
{
    if ms.len() == 0 {
        Seq::empty()
    } else {
        slot_batches(ms.last()) + slots_seq(ms.drop_last())
    }
}

/// The records of a sequence of batches, in order.
pub open spec fn flat<T: Lattice>(bs: Seq<Batch<T>>) -> Seq<Update<T>>
    decreases bs.len(),
{
    if bs.len() == 0 {
        Seq::empty()
    } else {
        flat(bs.drop_last()) + bs.last().recs@
    }
}

/// Whether consecutive batches tile an interval: each upper bound is the
/// next batch's lower bound.
pub open spec fn chain<T: Lattice>(bs: Seq<Batch<T>>) -> bool {
    forall|i: int| 0 <= i < bs.len() - 1 ==> (#[trigger] bs[i]).upper@ == bs[i + 1].lower@
}

/// Whether every batch of the sequence is well formed.
pub open spec fn batches_wf<T: Lattice>(bs: Seq<Batch<T>>) -> bool {
    forall|i: int| 0 <= i < bs.len() ==> (#[trigger] bs[i]).wf()
}

/// Layer well-formedness: an in-progress merge carries a merger over exactly
/// the two batches' records, spanning their composed interval, whose
/// captured compaction frontier lies at or below the spine's current one.
pub open spec fn slot_wf<T: Lattice>(m: MergeState<T>, af: Seq<T>) -> bool {
    match m {
        MergeState::Double(MergeVariant::InProgress(b1, b2, mg)) => {
            &&& mg.wf()
            &&& mg.input@ == b1.recs@ + b2.recs@
            &&& mg.lower@ == b1.lower@
            &&& mg.upper@ == b2.upper@
            &&& frontier_le(mg.since@, af)
        },
        _ => true,
    }
}

/// Well-formedness of every layer.
pub open spec fn slots_wf<T: Lattice>(ms: Seq<MergeState<T>>, af: Seq<T>) -> bool {
    forall|i: int| 0 <= i < ms.len() ==> slot_wf(#[trigger] ms[i], af)
}

/// Layer batches split over concatenation, reversing the order of the parts.
pub proof fn lemma_slots_concat<T: Lattice>(a: Seq<MergeState<T>>, b: Seq<MergeState<T>>)
    ensures
        slots_seq(a + b) == slots_seq(b) + slots_seq(a),
    decreases b.len(),
{
    if b.len() == 0 {
        assert(a + b =~= a);
        assert(slots_seq(b) + slots_seq(a) =~= slots_seq(a));
    } else {
        assert((a + b).drop_last() =~= a + b.drop_last());
        assert((a + b).last() == b.last());
        lemma_slots_concat(a, b.drop_last());
        assert(slot_batches(b.last()) + (slots_seq(b.drop_last()) + slots_seq(a)) =~= (slot_batches(
            b.last(),
        ) + slots_seq(b.drop_last())) + slots_seq(a));
    }
}

/// Layer batches of a sequence, split at one layer: the layers above it
/// first, then the layer, then the layers below.
pub proof fn lemma_slots_split<T: Lattice>(ms: Seq<MergeState<T>>, i: int)
    requires
        0 <= i < ms.len(),
    ensures
        slots_seq(ms) == slots_seq(ms.skip(i + 1)) + slot_batches(ms[i]) + slots_seq(ms.take(i)),
    decreases ms.len(),
{
    assert(ms =~= ms.take(i) + seq![ms[i]] + ms.skip(i + 1));
    lemma_slots_concat(ms.take(i) + seq![ms[i]], ms.skip(i + 1));
    lemma_slots_concat(ms.take(i), seq![ms[i]]);
    assert(slots_seq(seq![ms[i]]) == slot_batches(ms[i]) + slots_seq(Seq::<MergeState<T>>::empty()))
        by {
        assert(seq![ms[i]].drop_last() =~= Seq::<MergeState<T>>::empty());
    }
    assert(slots_seq(seq![ms[i]]) =~= slot_batches(ms[i]));
    assert(slots_seq(ms.skip(i + 1)) + (slot_batches(ms[i]) + slots_seq(ms.take(i))) =~= slots_seq(
        ms.skip(i + 1),
    ) + slot_batches(ms[i]) + slots_seq(ms.take(i)));
    assert(slots_seq(ms) =~= slots_seq(ms.skip(i + 1)) + slot_batches(ms[i]) + slots_seq(
        ms.take(i),
    ));
}

/// Growing the layer list with a vacant layer adds no batches.
pub proof fn lemma_slots_push_vacant<T: Lattice>(ms: Seq<MergeState<T>>)
    ensures
        slots_seq(ms.push(MergeState::Vacant)) == slots_seq(ms),
{
    assert(ms.push(MergeState::Vacant).drop_last() =~= ms);
    assert(slot_batches(MergeState::<T>::Vacant) + slots_seq(ms) =~= slots_seq(ms));
}

/// Records split over batch concatenation.
pub proof fn lemma_flat_concat<T: Lattice>(a: Seq<Batch<T>>, b: Seq<Batch<T>>)
    ensures
        flat(a + b) == flat(a) + flat(b),
    decreases b.len(),
{
    if b.len() == 0 {
        assert(a + b =~= a);
        assert(flat(a) + flat(b) =~= flat(a));
    } else {
        assert((a + b).drop_last() =~= a + b.drop_last());
        lemma_flat_concat(a, b.drop_last());
        assert(flat(a) + flat(b.drop_last()) + b.last().recs@ =~= flat(a) + (flat(b.drop_last())
            + b.last().recs@));
    }
}

/// The records of a single batch.
pub proof fn lemma_flat_one<T: Lattice>(b: Batch<T>)
    ensures
        flat(seq![b]) == b.recs@,
{
    assert(seq![b].drop_last() =~= Seq::<Batch<T>>::empty());
    assert(flat(Seq::<Batch<T>>::empty()) + b.recs@ =~= b.recs@);
}

/// One segment of a batch sequence stands in for another: both are empty, or
/// both are single spans covering the same interval, with the same weights
/// at every query time in the upward closure of `af` and no more total
/// magnitude.
pub open spec fn span_eqv<T: Lattice>(news: Seq<Batch<T>>, olds: Seq<Batch<T>>, af: Seq<T>) -> bool {
    &&& (olds.len() == 0 ==> news.len() == 0)
    &&& (olds.len() > 0 ==> news.len() == 1 && news[0].wf() && news[0].lower@ == olds[0].lower@
        && news[0].upper@ == olds.last().upper@)
    &&& forall|k: u64, v: u64, q: T|
        in_closure(q, af) ==> #[trigger] weight(flat(news), k, v, q) == weight(flat(olds), k, v, q)
    &&& total_abs(flat(news)) <= total_abs(flat(olds))
}

/// Replacing a segment of a chained batch sequence by an equivalent span
/// preserves the chain, the boundary bounds, the weights at every query time
/// in the upward closure of `af`, and the magnitude bound.
#[verifier::rlimit(100)]
pub proof fn lemma_span_replace<T: Lattice>(
    pre: Seq<Batch<T>>,
    olds: Seq<Batch<T>>,
    news: Seq<Batch<T>>,
    post: Seq<Batch<T>>,
    af: Seq<T>,
)
    requires
        span_eqv(news, olds, af),
        chain(pre + olds + post),
        batches_wf(pre + olds + post),
        batches_wf(news),
    ensures
        chain(pre + news + post),
        batches_wf(pre + news + post),
        forall|k: u64, v: u64, q: T|
            in_closure(q, af) ==> #[trigger] weight(flat(pre + news + post), k, v, q) == weight(
                flat(pre + olds + post),
                k,
                v,
                q,
            ),
        total_abs(flat(pre + news + post)) <= total_abs(flat(pre + olds + post)),
        (pre + olds + post).len() > 0 ==> (pre + news + post).len() > 0 && (pre + news
            + post).last().upper@ == (pre + olds + post).last().upper@,
        (pre + olds + post).len() == 0 ==> (pre + news + post).len() == 0,
{
    let lo = pre + olds + post;
    let ln = pre + news + post;
    // Membership of each position of ln.
    assert forall|i: int| 0 <= i < ln.len() - 1 implies (#[trigger] ln[i]).upper@ == ln[i
        + 1].lower@ by {
        if news.len() == 0 {
            assert(ln =~= pre + post);
            if i < pre.len() - 1 {
                assert(ln[i] == lo[i] && ln[i + 1] == lo[i + 1]);
            } else if i == pre.len() - 1 {
                // Boundary between pre and post; olds is empty so they were
                // already adjacent in lo.
                assert(olds.len() == 0);
                assert(lo =~= pre + post);
                assert(ln[i] == lo[i] && ln[i + 1] == lo[i + 1]);
            } else {
                assert(ln[i] == lo[i] && ln[i + 1] == lo[i + 1]);
            }
        } else {
            let nb = news[0];
            if i < pre.len() - 1 {
                assert(ln[i] == lo[i] && ln[i + 1] == lo[i + 1]);
            } else if i == pre.len() - 1 {
                assert(ln[i] == lo[i]);
                assert(ln[i + 1] == nb);
                assert(lo[pre.len() as int] == olds[0]);
                assert(nb.lower@ == olds[0].lower@);
            } else if i == pre.len() {
                assert(ln[i] == nb);
                assert(ln[i + 1] == post[0]);
                assert(lo[pre.len() + olds.len() - 1int] == olds.last());
                assert(lo[pre.len() + olds.len() as int] == post[0]);
                assert(nb.upper@ == olds.last().upper@);
            } else {
                assert(ln[i] == post[i - pre.len() - 1]);
                assert(ln[i + 1] == post[i - pre.len()]);
                assert(lo[i + olds.len() - 1int] == post[i - pre.len() - 1]);
                assert(lo[i + olds.len() as int] == post[i - pre.len()]);
            }
        }
    }
    assert forall|i: int| 0 <= i < ln.len() implies (#[trigger] ln[i]).wf() by {
        if i < pre.len() {
            assert(ln[i] == lo[i]);
        } else if i < pre.len() + news.len() {
            assert(ln[i] == news[i - pre.len()]);
        } else {
            assert(ln[i] == post[i - pre.len() - news.len()]);
            assert(lo[i - news.len() + olds.len() as int] == post[i - pre.len() - news.len()]);
        }
    }
    // Weights and magnitudes through flat decompositions.
    lemma_flat_concat(pre + olds, post);
    lemma_flat_concat(pre, olds);
    lemma_flat_concat(pre + news, post);
    lemma_flat_concat(pre, news);
    assert forall|k: u64, v: u64, q: T| in_closure(q, af) implies #[trigger] weight(
        flat(ln),
        k,
        v,
        q,
    ) == weight(flat(lo), k, v, q) by {
        lemma_sums_concat(flat(pre + news), flat(post), k, v, q);
        lemma_sums_concat(flat(pre), flat(news), k, v, q);
        lemma_sums_concat(flat(pre + olds), flat(post), k, v, q);
        lemma_sums_concat(flat(pre), flat(olds), k, v, q);
    }
    assert(total_abs(flat(ln)) <= total_abs(flat(lo))) by {
        lemma_sums_concat(flat(pre + news), flat(post), 0, 0, T::smin());
        lemma_sums_concat(flat(pre), flat(news), 0, 0, T::smin());
        lemma_sums_concat(flat(pre + olds), flat(post), 0, 0, T::smin());
        lemma_sums_concat(flat(pre), flat(olds), 0, 0, T::smin());
    }
    // Final bounds.
    if lo.len() > 0 {
        if post.len() > 0 {
            assert(ln.last() == post.last());
            assert(lo.last() == post.last());
        } else if olds.len() > 0 {
            assert(lo.last() == olds.last());
            assert(ln.last() == news[0]);
        } else {
            assert(lo =~= pre + post);
            assert(ln =~= pre + post);
        }
    }
}

/// An append-only trace: layered batches under progressive merging, plus a
/// queue of pending batches awaiting admission.
pub struct Spine<T: Lattice> {
    /// Times after which the trace must accumulate correctly; merges compact
    /// against this frontier.
    pub advance_frontier: Vec<T>,
    /// Times after which the trace must be able to subset its inputs;
    /// pending batches enter the layers only once wholly below it.
    pub through_frontier: Vec<T>,
    /// The layers, lowest level first; higher layers hold older batches.
    pub merging: Vec<MergeState<T>>,
    /// Batches inserted but not yet admitted into the layers.
    pub pending: Vec<Batch<T>>,
    /// The upper bound of everything inserted so far.
    pub upper: Vec<T>,
    /// The effort multiplier: fuel granted per introduced record.
    pub effort: usize,
    /// Every record ever inserted, the reference for the trace's contracts.
    pub history: Ghost<Seq<Update<T>>>,
}

impl<T: Lattice> Spine<T> {
    /// The live batches, oldest first, with a sequence of extra batches held
    /// aside by a caller standing between the layers and the pending queue.
    pub open spec fn live_with(self, extra: Seq<Batch<T>>) -> Seq<Batch<T>> {
        slots_seq(self.merging@) + extra + self.pending@
    }

    /// The live batches, oldest first: the layers from the highest down,
    /// then the pending queue in insertion order.
    pub open spec fn live(self) -> Seq<Batch<T>> {
        slots_seq(self.merging@) + self.pending@
    }

    /// Well-formedness, with a sequence of extra batches held aside by a
    /// caller: every batch well formed, the batches tiling a contiguous
    /// interval ending at `upper`, every layer's merge well formed, and the
    /// live records weighing, at every query time in the upward closure of
    /// the compaction frontier, exactly what the history weighs.
    pub open spec fn wf_with(self, extra: Seq<Batch<T>>) -> bool {
        &&& batches_wf(self.live_with(extra))
        &&& chain(self.live_with(extra))
        &&& (self.live_with(extra).len() > 0 ==> self.live_with(extra).last().upper@
            == self.upper@)
        &&& slots_wf(self.merging@, self.advance_frontier@)
        &&& (forall|k: u64, v: u64, q: T|
            in_closure(q, self.advance_frontier@) ==> #[trigger] weight(
                flat(self.live_with(extra)),
                k,
                v,
                q,
            ) == weight(self.history@, k, v, q))
        &&& total_abs(flat(self.live_with(extra))) <= total_abs(self.history@)
        &&& total_abs(self.history@) <= 0x7fff_ffff_ffff_ffff
        &&& 1 <= self.effort <= 65536
    }

    /// Well-formedness of the spine with nothing held aside.
    pub open spec fn wf(self) -> bool {
        self.wf_with(Seq::empty())
    }

    /// With nothing held aside, `live_with` is `live`.
    pub proof fn lemma_live_empty(self)
        ensures
            self.live_with(Seq::empty()) == self.live(),
    {
        assert(self.live_with(Seq::empty()) =~= self.live());
    }

    /// Grows the layer list with vacant layers until it covers `index`.
    fn pad_to(&mut self, index: usize)
        requires
            index < usize::MAX,
        ensures
            final(self).merging@.len() > index,
            final(self).merging@.len() >= old(self).merging@.len(),
            slots_seq(final(self).merging@) == slots_seq(old(self).merging@),
            forall|j: int|
                0 <= j < old(self).merging@.len() ==> final(self).merging@[j] == old(self).merging@[j],
            forall|j: int|
                old(self).merging@.len() <= j < final(self).merging@.len() ==> (#[trigger] final(self).merging@[j]).is_vacant(),
            final(self).advance_frontier@ == old(self).advance_frontier@,
            final(self).through_frontier@ == old(self).through_frontier@,
            final(self).pending@ == old(self).pending@,
            final(self).upper@ == old(self).upper@,
            final(self).effort == old(self).effort,
            final(self).history@ == old(self).history@,
    {
        while self.merging.len() <= index
            invariant
                index < usize::MAX,
                self.merging@.len() >= old(self).merging@.len(),
                slots_seq(self.merging@) == slots_seq(old(self).merging@),
                forall|j: int|
                    0 <= j < old(self).merging@.len() ==> self.merging@[j] == old(self).merging@[j],
                forall|j: int|
                    old(self).merging@.len() <= j < self.merging@.len() ==> (#[trigger] self
                        .merging@[j]).is_vacant(),
                self.advance_frontier@ == old(self).advance_frontier@,
                self.through_frontier@ == old(self).through_frontier@,
                self.pending@ == old(self).pending@,
                self.upper@ == old(self).upper@,
                self.effort == old(self).effort,
                self.history@ == old(self).history@,
            decreases index + 1 - self.merging@.len(),
        {
            proof {
                lemma_slots_push_vacant(self.merging@);
            }
            self.merging.push(MergeState::Vacant);
        }
    }

    /// Places a batch into a layer: a vacant layer holds it alone, a layer
    /// with a single batch starts a merge of the two, with the older batch
    /// first and the spine's compaction frontier captured.
    fn insert_at(&mut self, batch: Option<Batch<T>>, index: usize)
        requires
            index < old(self).merging@.len(),
            !old(self).merging@[index as int].is_double(),
            batch matches Some(b) ==> b.wf(),
            (match (old(self).merging@[index as int], batch) {
                (MergeState::Single(Some(o)), Some(b)) => o.upper@ == b.lower@ && o.wf()
                    && total_abs(o.recs@) + total_abs(b.recs@) <= 0x7fff_ffff_ffff_ffff,
                _ => true,
            }),
        ensures
            final(self).merging@.len() == old(self).merging@.len(),
            forall|j: int|
                0 <= j < old(self).merging@.len() && j != index ==> final(self).merging@[j] == old(self).merging@[j],
            slot_batches(final(self).merging@[index as int]) == slot_batches(
                old(self).merging@[index as int],
            ) + opt_seq(batch),
            slot_wf(final(self).merging@[index as int], final(self).advance_frontier@),
            final(self).advance_frontier@ == old(self).advance_frontier@,
            final(self).through_frontier@ == old(self).through_frontier@,
            final(self).pending@ == old(self).pending@,
            final(self).upper@ == old(self).upper@,
            final(self).effort == old(self).effort,
            final(self).history@ == old(self).history@,
    {
        let mut slot = MergeState::Vacant;
        self.merging.set_and_swap(index, &mut slot);
        match slot {
            MergeState::Vacant => {
                self.merging.set(index, MergeState::Single(batch));
            },
            MergeState::Single(old_opt) => {
                match (old_opt, batch) {
                    (Some(o), Some(b)) => {
                        proof {
                            crate::lattice::lemma_frontier_le_refl(self.advance_frontier@);
                        }
                        let mg = Merger::begin_merge(&o, &b, &self.advance_frontier);
                        self.merging.set(
                            index,
                            MergeState::Double(MergeVariant::InProgress(o, b, mg)),
                        );
                    },
                    (Some(o), None) => {
                        self.merging.set(
                            index,
                            MergeState::Double(MergeVariant::Complete(Some(o))),
                        );
                        proof {
                            assert(slot_batches(self.merging@[index as int]) =~= slot_batches(
                                old(self).merging@[index as int],
                            ) + opt_seq(batch));
                        }
                    },
                    (None, b) => {
                        self.merging.set(index, MergeState::Double(MergeVariant::Complete(b)));
                        proof {
                            assert(slot_batches(self.merging@[index as int]) =~= slot_batches(
                                old(self).merging@[index as int],
                            ) + opt_seq(b));
                        }
                    },
                }
            },
            MergeState::Double(v) => {
                self.merging.set(index, MergeState::Double(v));
                proof {
                    assert(false);
                }
            },
        }
        proof {
            if old(self).merging@[index as int] is Vacant {
                assert(slot_batches(self.merging@[index as int]) =~= slot_batches(
                    old(self).merging@[index as int],
                ) + opt_seq(batch));
            }
        }
    }

    /// Completes whatever the layer holds and extracts it, leaving the layer
    /// vacant. An in-progress merge is run to exhaustion; the extracted
    /// batch stands in for the layer's batches.
    fn complete_at(&mut self, index: usize) -> (r: Option<Batch<T>>)
        requires
            index < old(self).merging@.len(),
            slot_wf(old(self).merging@[index as int], old(self).advance_frontier@),
            batches_wf(slot_batches(old(self).merging@[index as int])),
        ensures
            final(self).merging@.len() == old(self).merging@.len(),
            forall|j: int|
                0 <= j < old(self).merging@.len() && j != index ==> final(self).merging@[j] == old(self).merging@[j],
            final(self).merging@[index as int].is_vacant(),
            span_eqv(
                opt_seq(r),
                slot_batches(old(self).merging@[index as int]),
                old(self).advance_frontier@,
            ),
            r matches Some(b) ==> b.wf(),
            final(self).advance_frontier@ == old(self).advance_frontier@,
            final(self).through_frontier@ == old(self).through_frontier@,
            final(self).pending@ == old(self).pending@,
            final(self).upper@ == old(self).upper@,
            final(self).effort == old(self).effort,
            final(self).history@ == old(self).history@,
    {
        let mut slot = MergeState::Vacant;
        self.merging.set_and_swap(index, &mut slot);
        let ghost olds = slot_batches(old(self).merging@[index as int]);
        let ghost af = old(self).advance_frontier@;
        match slot {
            MergeState::Vacant => {
                proof {
                    lemma_opt_span_refl(None, af);
                }
                None
            },
            MergeState::Single(opt) => {
                proof {
                    if opt is Some {
                        assert(olds[0] == opt->0);
                        assert(opt->0.wf());
                    }
                    lemma_opt_span_refl(opt, af);
                }
                opt
            },
            MergeState::Double(MergeVariant::Complete(opt)) => {
                proof {
                    if opt is Some {
                        assert(olds[0] == opt->0);
                        assert(opt->0.wf());
                    }
                    lemma_opt_span_refl(opt, af);
                }
                opt
            },
            MergeState::Double(MergeVariant::InProgress(b1, b2, mg)) => {
                let mut mg = mg;
                while mg.pos < mg.input.len()
                    invariant
                        mg.wf(),
                        mg.input@ == b1.recs@ + b2.recs@,
                        mg.lower@ == b1.lower@,
                        mg.upper@ == b2.upper@,
                        frontier_le(mg.since@, af),
                    decreases mg.input@.len() - mg.pos,
                {
                    let mut fuel: i64 = 65536;
                    mg.work(&mut fuel);
                }
                let ghost since = mg.since@;
                let b = mg.done();
                proof {
                    lemma_flat_one(b);
                    assert(olds =~= seq![b1, b2]);
                    assert(olds.drop_last() =~= seq![b1]);
                    lemma_flat_one(b1);
                    assert(flat(olds) == flat(seq![b1]) + b2.recs@);
                    assert(flat(olds) == b1.recs@ + b2.recs@);
                    assert forall|k: u64, v: u64, q: T| in_closure(q, af)
                        implies #[trigger] weight(flat(seq![b]), k, v, q) == weight(
                        flat(olds),
                        k,
                        v,
                        q,
                    ) by {
                        lemma_in_closure_mono(q, since, af);
                        assert(weight(b.recs@, k, v, q) == weight(b1.recs@ + b2.recs@, k, v, q));
                    }
                    assert(opt_seq(Some(b)) =~= seq![b]);
                }
                Some(b)
            },
        }
    }

    /// Forces a layer out of the merging state in place: a finished or
    /// in-progress merge becomes a single batch (or a vacant layer when the
    /// merge was structurally empty), standing in for the layer's batches.
    fn settle(&mut self, index: usize)
        requires
            index < old(self).merging@.len(),
            slot_wf(old(self).merging@[index as int], old(self).advance_frontier@),
            batches_wf(slot_batches(old(self).merging@[index as int])),
        ensures
            final(self).merging@.len() == old(self).merging@.len(),
            forall|j: int|
                0 <= j < old(self).merging@.len() && j != index ==> final(self).merging@[j] == old(self).merging@[j],
            !final(self).merging@[index as int].is_double(),
            slot_wf(final(self).merging@[index as int], final(self).advance_frontier@),
            span_eqv(
                slot_batches(final(self).merging@[index as int]),
                slot_batches(old(self).merging@[index as int]),
                old(self).advance_frontier@,
            ),
            final(self).advance_frontier@ == old(self).advance_frontier@,
            final(self).through_frontier@ == old(self).through_frontier@,
            final(self).pending@ == old(self).pending@,
            final(self).upper@ == old(self).upper@,
            final(self).effort == old(self).effort,
            final(self).history@ == old(self).history@,
    {
        let r = self.complete_at(index);
        match r {
            Some(b) => {
                self.merging.set(index, MergeState::Single(Some(b)));
                proof {
                    assert(slot_batches(self.merging@[index as int]) =~= opt_seq(Some(b)));
                }
            },
            None => {
                proof {
                    assert(slot_batches(self.merging@[index as int]) =~= opt_seq(
                        None::<Batch<T>>,
                    ));
                }
            },
        }
    }

    /// Well-formedness of the spine with a batch held aside that belongs
    /// just below layer `at`: the virtual batch sequence with the batch in
    /// that position satisfies the trace conditions.
    pub open spec fn wf_at(self, b: Option<Batch<T>>, at: int, extra: Seq<Batch<T>>) -> bool {
        &&& 0 <= at <= self.merging@.len()
        &&& {
            let vseq = slots_seq(self.merging@.skip(at)) + opt_seq(b) + slots_seq(
                self.merging@.take(at),
            ) + extra + self.pending@;
            &&& batches_wf(vseq)
            &&& chain(vseq)
            &&& (vseq.len() > 0 ==> vseq.last().upper@ == self.upper@)
            &&& (forall|k: u64, v: u64, q: T|
                in_closure(q, self.advance_frontier@) ==> #[trigger] weight(flat(vseq), k, v, q)
                    == weight(self.history@, k, v, q))
            &&& total_abs(flat(vseq)) <= total_abs(self.history@)
        }
        &&& slots_wf(self.merging@, self.advance_frontier@)
        &&& total_abs(self.history@) <= 0x7fff_ffff_ffff_ffff
        &&& 1 <= self.effort <= 65536
    }

    /// Places a batch (or nothing) into layer `at`, first forcing that layer
    /// out of any merging state. The batch must belong just below the layer:
    /// the spine must be well formed with the batch held aside there.
    fn promote(&mut self, b: Option<Batch<T>>, at: usize, Ghost(extra): Ghost<Seq<Batch<T>>>)
        requires
            old(self).wf_at(b, at as int, extra),
            at < usize::MAX - 1,
        ensures
            final(self).wf_with(extra),
            final(self).merging@.len() >= old(self).merging@.len(),
            final(self).merging@.len() > at,
            forall|j: int|
                0 <= j < final(self).merging@.len() && j != at ==> (if j < old(
                    self,
                ).merging@.len() {
                    final(self).merging@[j] == old(self).merging@[j]
                } else {
                    (#[trigger] final(self).merging@[j]).is_vacant()
                }),
            final(self).advance_frontier@ == old(self).advance_frontier@,
            final(self).through_frontier@ == old(self).through_frontier@,
            final(self).pending@ == old(self).pending@,
            final(self).upper@ == old(self).upper@,
            final(self).effort == old(self).effort,
            final(self).history@ == old(self).history@,
    {
        let ghost s0 = *old(self);
        self.pad_to(at);
        let ghost ms1 = self.merging@;
        proof {
            lemma_promote_pre(s0, ms1, b, at as int, extra);
        }
        self.settle(at);
        let ghost ms2 = self.merging@;
        proof {
            lemma_promote_mid(s0, ms1, ms2, b, at as int, extra);
        }
        self.insert_at(b, at);
        proof {
            lemma_promote_post(s0, *self, ms1, ms2, b, at as int, extra);
        }
    }

    /// Whether layer `i` holds the lowest merging layer: one in the merging
    /// state with no merging layer below it. Promotions cascade upward, so
    /// only this layer's fate under one round of fueling is exact.
    pub open spec fn lowest_merge(ms: Seq<MergeState<T>>, i: int) -> bool {
        &&& 0 <= i < ms.len()
        &&& ms[i].is_double()
        &&& forall|j: int| 0 <= j < i ==> !(#[trigger] ms[j]).is_double()
    }

    /// What one application of `budget` units of fuel does to a merging
    /// layer: an in-progress merge advances by exactly the smaller of the
    /// budget and its remaining records, and a merge thereby (or already)
    /// complete is promoted to the next layer up, leaving this one vacant.
    pub open spec fn fuel_applied(o: MergeState<T>, f: MergeState<T>, budget: i64) -> bool {
        match o {
            MergeState::Double(MergeVariant::InProgress(b1, b2, mg)) => {
                let adv: int = if budget <= 0 {
                    0
                } else if budget < mg.input@.len() - mg.pos {
                    budget as int
                } else {
                    mg.input@.len() - mg.pos
                };
                if mg.pos + adv == mg.input@.len() {
                    f.is_vacant()
                } else {
                    match f {
                        MergeState::Double(MergeVariant::InProgress(c1, c2, mg2)) => {
                            &&& c1 == b1
                            &&& c2 == b2
                            &&& mg2.input@ == mg.input@
                            &&& mg2.since@ == mg.since@
                            &&& mg2.lower@ == mg.lower@
                            &&& mg2.upper@ == mg.upper@
                            &&& mg2.pos == mg.pos + adv
                        },
                        _ => false,
                    }
                }
            },
            MergeState::Double(MergeVariant::Complete(_)) => f.is_vacant(),
            _ => true,
        }
    }

    /// Applies an amount of fuel to every merge in progress, each layer
    /// receiving its own copy of the budget. A merge that completes is
    /// promoted: its result enters the next layer up.
    fn apply_fuel_with(&mut self, fuel: &mut i64, Ghost(extra): Ghost<Seq<Batch<T>>>)
        requires
            old(self).wf_with(extra),
        ensures
            final(self).wf_with(extra),
            final(self).advance_frontier@ == old(self).advance_frontier@,
            final(self).through_frontier@ == old(self).through_frontier@,
            final(self).pending@ == old(self).pending@,
            final(self).upper@ == old(self).upper@,
            final(self).effort == old(self).effort,
            final(self).history@ == old(self).history@,
            *final(fuel) == *old(fuel),
            final(self).merging@.len() >= old(self).merging@.len(),
            // The lowest merging layer receives the full budget.
            forall|i: int|
                #[trigger] Self::lowest_merge(old(self).merging@, i) && i < 0xffff_fff0 ==> i
                    < final(self).merging@.len() && Self::fuel_applied(
                    old(self).merging@[i],
                    final(self).merging@[i],
                    *old(fuel),
                ),
    {
        let n = if self.merging.len() > 0xffff_fff0usize {
            0xffff_fff0usize
        } else {
            self.merging.len()
        };
        let mut index: usize = 0;
        while index < n
            invariant
                self.wf_with(extra),
                index <= n,
                n <= 0xffff_fff0usize,
                n <= self.merging@.len(),
                self.advance_frontier@ == old(self).advance_frontier@,
                self.through_frontier@ == old(self).through_frontier@,
                self.pending@ == old(self).pending@,
                self.upper@ == old(self).upper@,
                self.effort == old(self).effort,
                self.history@ == old(self).history@,
                self.merging@.len() >= old(self).merging@.len(),
                forall|i: int|
                    #[trigger] Self::lowest_merge(old(self).merging@, i) ==> i
                        < self.merging@.len() && (forall|j: int|
                        0 <= j < i ==> self.merging@[j] == old(self).merging@[j]) && (if i
                        >= index {
                        self.merging@[i] == old(self).merging@[i]
                    } else {
                        Self::fuel_applied(old(self).merging@[i], self.merging@[i], *old(fuel))
                    }),
            decreases n - index,
        {
            let ghost sl = *self;
            let mut slot = MergeState::Vacant;
            self.merging.set_and_swap(index, &mut slot);
            let completed: bool;
            match slot {
                MergeState::Double(MergeVariant::InProgress(b1, b2, mg)) => {
                    let mut mg = mg;
                    let mut budget: i64 = *fuel;
                    mg.work(&mut budget);
                    completed = mg.pos == mg.input.len();
                    self.merging.set(
                        index,
                        MergeState::Double(MergeVariant::InProgress(b1, b2, mg)),
                    );
                    proof {
                        lemma_replace_slot_same(sl, *self, index as int, extra);
                    }
                },
                MergeState::Double(MergeVariant::Complete(opt)) => {
                    completed = true;
                    self.merging.set(index, MergeState::Double(MergeVariant::Complete(opt)));
                    proof {
                        assert(self.merging@ =~= sl.merging@);
                        lemma_replace_slot_same(sl, *self, index as int, extra);
                    }
                },
                other => {
                    completed = false;
                    self.merging.set(index, other);
                    proof {
                        assert(self.merging@ =~= sl.merging@);
                        lemma_replace_slot_same(sl, *self, index as int, extra);
                    }
                },
            }
            if completed {
                let ghost sc = *self;
                proof {
                    lemma_slot_batches_wf(sc, index as int, extra);
                }
                let r = self.complete_at(index);
                proof {
                    lemma_extract_wf_at(sc, *self, index as int, r, extra);
                }
                self.promote(r, index + 1, Ghost(extra));
            }
            proof {
                assert forall|i: int| #[trigger] Self::lowest_merge(old(self).merging@, i)
                    implies i < self.merging@.len() && (forall|j: int|
                    0 <= j < i ==> self.merging@[j] == old(self).merging@[j]) && (if i >= index
                    + 1 {
                    self.merging@[i] == old(self).merging@[i]
                } else {
                    Self::fuel_applied(old(self).merging@[i], self.merging@[i], *old(fuel))
                }) by {
                    if index < i {
                        // A layer below the lowest merge is not merging, so
                        // this round restored it and promoted nothing.
                        assert(sl.merging@[index as int] == old(self).merging@[index as int]);
                        assert(!old(self).merging@[index as int].is_double());
                    } else if index == i {
                        assert(sl.merging@[i] == old(self).merging@[i]);
                    }
                }
            }
            index = index + 1;
        }
    }

    /// Whether one layer is vacant.
    fn slot_vacant(&self, j: usize) -> (r: bool)
        requires
            j < self.merging@.len(),
        ensures
            r == self.merging@[j as int].is_vacant(),
    {
        match &self.merging[j] {
            MergeState::Vacant => true,
            _ => false,
        }
    }

    /// Whether one layer holds a merge.
    fn slot_double(&self, j: usize) -> (r: bool)
        requires
            j < self.merging@.len(),
        ensures
            r == self.merging@[j as int].is_double(),
    {
        match &self.merging[j] {
            MergeState::Double(_) => true,
            _ => false,
        }
    }

    /// Folds every layer below `index` into a single batch landing at layer
    /// `index`, so that an insertion there finds every lower layer vacant.
    /// The landing layer is left out of any merging state.
    #[verifier::rlimit(100)]
    fn roll_up(&mut self, index: usize, Ghost(ex): Ghost<Seq<Batch<T>>>)
        requires
            old(self).wf_with(ex),
            index < 0xffff_fff0usize,
        ensures
            final(self).wf_with(ex),
            final(self).merging@.len() > index,
            !final(self).merging@[index as int].is_double(),
            forall|j: int| 0 <= j < index ==> (#[trigger] final(self).merging@[j]).is_vacant(),
            slots_seq(final(self).merging@.take(index as int)) == Seq::<Batch<T>>::empty(),
            final(self).advance_frontier@ == old(self).advance_frontier@,
            final(self).through_frontier@ == old(self).through_frontier@,
            final(self).pending@ == old(self).pending@,
            final(self).upper@ == old(self).upper@,
            final(self).effort == old(self).effort,
            final(self).history@ == old(self).history@,
    {
        let ghost s0 = *old(self);
        self.pad_to(index);
        proof {
            assert(self.live_with(ex) =~= s0.live_with(ex));
            assert forall|i: int| 0 <= i < self.merging@.len() implies slot_wf(
                #[trigger] self.merging@[i],
                self.advance_frontier@,
            ) by {
                if i < s0.merging@.len() {
                    assert(self.merging@[i] == s0.merging@[i]);
                }
            }
            assert(self.wf_with(ex));
        }
        // Whether any lower layer holds anything at all.
        let mut any = false;
        let mut j: usize = 0;
        while j < index
            invariant
                j <= index,
                index < self.merging@.len(),
                !any ==> forall|jj: int| 0 <= jj < j ==> (#[trigger] self.merging@[jj]).is_vacant(),
            decreases index - j,
        {
            if !self.slot_vacant(j) {
                any = true;
            }
            j = j + 1;
        }
        if any {
            // Collect and merge the contents of every layer below `index`.
            let mut merged: Option<Batch<T>> = None;
            let mut i: usize = 0;
            proof {
                assert(self.merging@.skip(0) =~= self.merging@);
                assert(self.merging@.take(0) =~= Seq::<MergeState<T>>::empty());
                let vseq = slots_seq(self.merging@.skip(0)) + opt_seq(None::<Batch<T>>)
                    + slots_seq(self.merging@.take(0)) + ex + self.pending@;
                assert(vseq =~= self.live_with(ex));
                assert(self.wf_at(None::<Batch<T>>, 0, ex));
            }
            while i < index
                invariant
                    i <= index,
                    index < 0xffff_fff0usize,
                    self.wf_at(merged, i as int, ex),
                    forall|jj: int| 0 <= jj < i ==> (#[trigger] self.merging@[jj]).is_vacant(),
                    self.advance_frontier@ == old(self).advance_frontier@,
                    self.through_frontier@ == old(self).through_frontier@,
                    self.pending@ == old(self).pending@,
                    self.upper@ == old(self).upper@,
                    self.effort == old(self).effort,
                    self.history@ == old(self).history@,
                decreases index - i,
            {
                self.promote(merged, i, Ghost(ex));
                let ghost sc = *self;
                proof {
                    lemma_slot_batches_wf(sc, i as int, ex);
                }
                merged = self.complete_at(i);
                proof {
                    lemma_extract_wf_at(sc, *self, i as int, merged, ex);
                }
                i = i + 1;
            }
            self.promote(merged, index, Ghost(ex));
        }
        // The landing layer must not be mid-merge.
        proof {
            assert(index < self.merging@.len());
        }
        if self.slot_double(index) {
            let ghost sc = *self;
            proof {
                lemma_slot_batches_wf(sc, index as int, ex);
            }
            let r = self.complete_at(index);
            proof {
                lemma_extract_wf_at(sc, *self, index as int, r, ex);
            }
            self.promote(r, index + 1, Ghost(ex));
        }
        proof {
            assert forall|jj: int| 0 <= jj < index implies (#[trigger] self.merging@[
                jj]).is_vacant() by {
            }
            assert forall|jj: int|
                0 <= jj < self.merging@.take(index as int).len() implies (#[trigger] self.merging@
                .take(index as int)[jj]).is_vacant() by {
                assert(self.merging@.take(index as int)[jj] == self.merging@[jj]);
            }
            lemma_slots_all_vacant(self.merging@.take(index as int));
        }
    }

    /// Applies an amount of fuel to merges in progress; see `exert` for the
    /// maintenance discipline this drives.
    pub fn apply_fuel(&mut self, fuel: &mut i64)
        requires
            old(self).wf(),
        ensures
            final(self).wf(),
            final(self).advance_frontier@ == old(self).advance_frontier@,
            final(self).through_frontier@ == old(self).through_frontier@,
            final(self).pending@ == old(self).pending@,
            final(self).upper@ == old(self).upper@,
            final(self).effort == old(self).effort,
            final(self).history@ == old(self).history@,
            *final(fuel) == *old(fuel),
            // The lowest merging layer receives the full budget: its merge
            // advances by exactly the smaller of the budget and its
            // remaining records, or completes and is promoted.
            forall|i: int|
                #[trigger] Self::lowest_merge(old(self).merging@, i) && i < 0xffff_fff0 ==> i
                    < final(self).merging@.len() && Self::fuel_applied(
                    old(self).merging@[i],
                    final(self).merging@[i],
                    *old(fuel),
                ),
    {
        self.apply_fuel_with(fuel, Ghost(Seq::empty()));
    }

    /// Whether one layer holds a single batch (possibly a structural
    /// placeholder).
    fn slot_single(&self, j: usize) -> (r: bool)
        requires
            j < self.merging@.len(),
        ensures
            r == self.merging@[j as int].is_single(),
    {
        match &self.merging[j] {
            MergeState::Single(_) => true,
            _ => false,
        }
    }

    /// Attempts to draw the largest layer down to a layer appropriate to its
    /// record count: vacant layers below it are absorbed, and a single batch
    /// directly below it may start a merge when the bookkeeping sizes of the
    /// lower layers leave enough room.
    #[verifier::rlimit(100)]
    fn tidy_layers(&mut self, Ghost(ex): Ghost<Seq<Batch<T>>>)
        requires
            old(self).wf_with(ex),
        ensures
            final(self).wf_with(ex),
            final(self).advance_frontier@ == old(self).advance_frontier@,
            final(self).through_frontier@ == old(self).through_frontier@,
            final(self).pending@ == old(self).pending@,
            final(self).upper@ == old(self).upper@,
            final(self).effort == old(self).effort,
            final(self).history@ == old(self).history@,
            // Tidying only touches layers above the lowest merging one:
            // everything up to and including it is preserved.
            forall|i: int|
                #[trigger] Self::lowest_merge(old(self).merging@, i) ==> i < final(self).merging@.len() && final(self).merging@[i] == old(self).merging@[i] && (forall|
                    j: int,
                |
                    0 <= j < i ==> final(self).merging@[j] == old(self).merging@[j]),
    {
        if self.merging.len() == 0 {
            return ;
        }
        let mut length = self.merging.len();
        if !self.slot_single(length - 1) {
            return ;
        }
        // The layer this batch would naturally occupy.
        let top_len: usize = match &self.merging[length - 1] {
            MergeState::Single(Some(b)) => b.recs.len(),
            _ => 0,
        };
        let mut appropriate: usize = 0;
        while (appropriate < 62 && (1u64 << appropriate) < (top_len as u64))
            invariant
                appropriate <= 62,
            decreases 62 - appropriate,
        {
            appropriate = appropriate + 1;
        }
        while appropriate + 1 < length
            invariant
                self.wf_with(ex),
                appropriate <= 62,
                1 <= length,
                length == self.merging@.len(),
                self.merging@[length - 1].is_single(),
                self.advance_frontier@ == old(self).advance_frontier@,
                self.through_frontier@ == old(self).through_frontier@,
                self.pending@ == old(self).pending@,
                self.upper@ == old(self).upper@,
                self.effort == old(self).effort,
                self.history@ == old(self).history@,
                forall|i: int|
                    #[trigger] Self::lowest_merge(old(self).merging@, i) ==> i
                        < self.merging@.len() && self.merging@[i] == old(self).merging@[i] && (
                    forall|j: int| 0 <= j < i ==> self.merging@[j] == old(self).merging@[j]),
            decreases length,
        {
            let ghost sl = *self;
            let mut slot = MergeState::Vacant;
            self.merging.set_and_swap(length - 2, &mut slot);
            match slot {
                MergeState::Vacant => {
                    self.merging.remove(length - 2);
                    proof {
                        assert(self.merging@ =~= sl.merging@.remove(length - 2));
                        assert(slot_batches(sl.merging@[length - 2]) =~= Seq::<Batch<T>>::empty());
                        lemma_remove_empty_slot(sl, *self, length - 2, ex);
                        lemma_tidy_prefix(old(self).merging@, sl.merging@, self.merging@, length - 2);
                    }
                    length = self.merging.len();
                },
                MergeState::Single(None) => {
                    self.merging.remove(length - 2);
                    proof {
                        assert(self.merging@ =~= sl.merging@.remove(length - 2));
                        assert(slot_batches(sl.merging@[length - 2]) =~= Seq::<Batch<T>>::empty());
                        lemma_remove_empty_slot(sl, *self, length - 2, ex);
                        lemma_tidy_prefix(old(self).merging@, sl.merging@, self.merging@, length - 2);
                    }
                    length = self.merging.len();
                },
                MergeState::Single(Some(batch)) => {
                    // Bookkeeping sizes of the layers below; a merge may
                    // begin only when they leave enough room.
                    let mut smaller: u64 = 0;
                    let mut idx: usize = 0;
                    while idx < length - 2
                        invariant
                            2 <= length,
                            length == self.merging@.len(),
                            idx <= length,
                        decreases length - idx,
                    {
                        let add: u64 = if idx < 60 {
                            if self.slot_double(idx) {
                                2u64 << idx
                            } else if self.slot_vacant(idx) {
                                0u64
                            } else {
                                1u64 << idx
                            }
                        } else {
                            0xffff_ffff_ffff_0000u64
                        };
                        smaller = if smaller > 0xffff_ffff_ffff_ffffu64 - add {
                            0xffff_ffff_ffff_ffffu64
                        } else {
                            smaller + add
                        };
                        idx = idx + 1;
                    }
                    let threshold: u64 = (1u64 << (if length < 60 {
                        length
                    } else {
                        60
                    })) / 8;
                    if smaller <= threshold && length < 0xffff_ff00usize {
                        proof {
                            lemma_replace_slot_vacated(sl, *self, length - 2, ex);
                            lemma_slot_batches_wf(sl, length - 2, ex);
                            assert(slot_batches(sl.merging@[length - 2]) =~= opt_seq(Some(batch)));
                            assert(batch.wf()) by {
                                assert(slot_batches(sl.merging@[length - 2])[0] == batch);
                            }
                            lemma_opt_span_refl(Some(batch), sl.advance_frontier@);
                            lemma_extract_wf_at(sl, *self, length - 2, Some(batch), ex);
                        }
                        self.promote(Some(batch), length - 1, Ghost(ex));
                        proof {
                            assert forall|i: int|
                                #[trigger] Self::lowest_merge(old(self).merging@, i) implies i
                                < self.merging@.len() && self.merging@[i] == old(self).merging@[i]
                                && (forall|j: int|
                                0 <= j < i ==> self.merging@[j] == old(self).merging@[j]) by {
                                assert(sl.merging@[i] == old(self).merging@[i]);
                                assert(sl.merging@[i].is_double());
                                assert(i < length - 1);
                                assert(i != length - 2);
                                assert forall|j: int| 0 <= j <= i implies self.merging@[j]
                                    == sl.merging@[j] by {}
                            }
                        }
                        return ;
                    } else {
                        self.merging.set(length - 2, MergeState::Single(Some(batch)));
                        proof {
                            assert(self.merging@ =~= sl.merging@);
                            lemma_replace_slot_same(sl, *self, length - 2, ex);
                        }
                        return ;
                    }
                },
                MergeState::Double(v) => {
                    self.merging.set(length - 2, MergeState::Double(v));
                    proof {
                        assert(self.merging@ =~= sl.merging@);
                        lemma_replace_slot_same(sl, *self, length - 2, ex);
                    }
                    return ;
                },
            }
        }
    }

    /// The number of records a layer accounts for.
    pub open spec fn slot_size(m: MergeState<T>) -> nat {
        match m {
            MergeState::Single(Some(b)) => b.recs@.len(),
            MergeState::Double(MergeVariant::InProgress(b1, b2, _)) => b1.recs@.len()
                + b2.recs@.len(),
            MergeState::Double(MergeVariant::Complete(Some(b))) => b.recs@.len(),
            _ => 0,
        }
    }

    /// Whether a layer holds any records.
    fn slot_nonempty(&self, j: usize) -> (r: bool)
        requires
            j < self.merging@.len(),
        ensures
            r == (Self::slot_size(self.merging@[j as int]) > 0),
    {
        match &self.merging[j] {
            MergeState::Single(Some(b)) => b.recs.len() > 0,
            MergeState::Double(MergeVariant::InProgress(b1, b2, _)) => b1.recs.len() > 0
                || b2.recs.len() > 0,
            MergeState::Double(MergeVariant::Complete(Some(b))) => b.recs.len() > 0,
            _ => false,
        }
    }

    /// Whether the trace is reduced: no merge is in progress and at most one
    /// layer holds records. A reduced trace has no maintenance work left.
    pub open spec fn is_reduced(self) -> bool {
        &&& forall|i: int| 0 <= i < self.merging@.len() ==> !(#[trigger] self.merging@[i]).is_double()
        &&& forall|i: int, j: int|
            0 <= i < j < self.merging@.len() ==> !(Self::slot_size(#[trigger] self.merging@[i]) > 0
                && Self::slot_size(#[trigger] self.merging@[j]) > 0)
    }

    /// Decides whether the trace is reduced.
    pub fn reduced(&self) -> (r: bool)
        ensures
            r == self.is_reduced(),
    {
        let mut has_double = false;
        let mut nonempty: usize = 0;
        let mut i: usize = 0;
        while i < self.merging.len()
            invariant
                0 <= i <= self.merging@.len(),
                nonempty <= i,
                has_double == exists|j: int| 0 <= j < i && (#[trigger] self.merging@[j]).is_double(),
                (nonempty == 0) == (forall|j: int|
                    0 <= j < i ==> Self::slot_size(#[trigger] self.merging@[j]) == 0),
                nonempty == 1 ==> forall|a: int, b: int|
                    0 <= a < b < i ==> !(Self::slot_size(#[trigger] self.merging@[a]) > 0
                        && Self::slot_size(#[trigger] self.merging@[b]) > 0),
                nonempty >= 2 ==> exists|a: int, b: int|
                    0 <= a < b < i && Self::slot_size(#[trigger] self.merging@[a]) > 0
                        && Self::slot_size(#[trigger] self.merging@[b]) > 0,
            decreases self.merging@.len() - i,
        {
            if self.slot_double(i) {
                has_double = true;
            }
            if self.slot_nonempty(i) {
                if nonempty < 2 {
                    nonempty = nonempty + 1;
                }
            }
            i = i + 1;
        }
        !has_double && nonempty <= 1
    }

    /// Whether any layer holds a merge.
    fn any_double(&self) -> (r: bool)
        ensures
            r == exists|j: int| 0 <= j < self.merging@.len() && (#[trigger] self.merging@[
                j]).is_double(),
    {
        let mut found = false;
        let mut i: usize = 0;
        while i < self.merging.len()
            invariant
                0 <= i <= self.merging@.len(),
                found == exists|j: int| 0 <= j < i && (#[trigger] self.merging@[j]).is_double(),
            decreases self.merging@.len() - i,
        {
            if self.slot_double(i) {
                found = true;
            }
            i = i + 1;
        }
        found
    }

    /// Describes the merge progress of the layers: for each, whether it is
    /// vacant, single or merging, and how many records it accounts for.
    pub fn describe(&self) -> (r: Vec<(usize, usize)>)
        ensures
            r@.len() == self.merging@.len(),
    {
        let mut r: Vec<(usize, usize)> = Vec::new();
        let mut i: usize = 0;
        while i < self.merging.len()
            invariant
                0 <= i <= self.merging@.len(),
                r@.len() == i,
            decreases self.merging@.len() - i,
        {
            let entry = match &self.merging[i] {
                MergeState::Vacant => (0usize, 0usize),
                MergeState::Single(None) => (1usize, 0usize),
                MergeState::Single(Some(b)) => (1usize, b.recs.len()),
                MergeState::Double(MergeVariant::InProgress(b1, b2, _)) => {
                    let l1 = b1.recs.len();
                    let l2 = b2.recs.len();
                    (2usize, if l1 > usize::MAX - l2 {
                        usize::MAX
                    } else {
                        l1 + l2
                    })
                },
                MergeState::Double(MergeVariant::Complete(None)) => (2usize, 0usize),
                MergeState::Double(MergeVariant::Complete(Some(b))) => (2usize, b.recs.len()),
            };
            r.push(entry);
            i = i + 1;
        }
        r
    }

    /// Allocates a fueled spine with the given effort multiplier: the factor
    /// of fuel granted per introduced record. An effort of zero is raised to
    /// one, since no merging would otherwise happen.
    pub fn with_effort(effort: usize) -> (s: Self)
        requires
            effort <= 65536,
        ensures
            s.wf(),
            s.merging@.len() == 0,
            s.pending@.len() == 0,
            s.upper@ == seq![T::smin()],
            s.advance_frontier@ == seq![T::smin()],
            s.through_frontier@ == seq![T::smin()],
            s.history@ == Seq::<Update<T>>::empty(),
            s.effort == (if effort == 0 {
                1usize
            } else {
                effort
            }),
    {
        let e = if effort == 0 {
            1usize
        } else {
            effort
        };
        let mut af: Vec<T> = Vec::new();
        af.push(T::minimum());
        let mut tf: Vec<T> = Vec::new();
        tf.push(T::minimum());
        let mut up: Vec<T> = Vec::new();
        up.push(T::minimum());
        let s = Spine {
            advance_frontier: af,
            through_frontier: tf,
            merging: Vec::new(),
            pending: Vec::new(),
            upper: up,
            effort: e,
            history: Ghost(Seq::empty()),
        };
        proof {
            assert(s.live_with(Seq::empty()) =~= Seq::<Batch<T>>::empty());
            assert(s.upper@ =~= seq![T::smin()]);
            assert(s.advance_frontier@ =~= seq![T::smin()]);
            assert(s.through_frontier@ =~= seq![T::smin()]);
        }
        s
    }

    /// Allocates a spine with the default effort multiplier of one.
    pub fn new() -> (s: Self)
        ensures
            s.wf(),
            s.merging@.len() == 0,
            s.pending@.len() == 0,
            s.upper@ == seq![T::smin()],
            s.advance_frontier@ == seq![T::smin()],
            s.through_frontier@ == seq![T::smin()],
            s.history@ == Seq::<Update<T>>::empty(),
            s.effort == 1,
    {
        Self::with_effort(1)
    }

    /// The compaction frontier: times after which the trace accumulates
    /// correctly.
    pub fn advance_frontier(&self) -> (r: &Vec<T>)
        ensures
            r@ == self.advance_frontier@,
    {
        &self.advance_frontier
    }

    /// The admission frontier: times after which the trace can subset its
    /// inputs.
    pub fn distinguish_frontier(&self) -> (r: &Vec<T>)
        ensures
            r@ == self.through_frontier@,
    {
        &self.through_frontier
    }

    /// Introduces a batch at an indicated layer, or drives maintenance with
    /// no batch at all: fuel proportional to the layer's size is applied to
    /// every merge in progress, the lower layers are rolled up, and the
    /// batch lands in the vacated layer. The fuel discipline is stated on
    /// `apply_fuel`, and the landing discipline — every lower layer left
    /// vacant, the landing layer out of any merging state — on `roll_up`;
    /// the tidying that follows may reshape the layers again, so this
    /// contract pins the contents and bounds rather than the layout.
    pub fn introduce_batch(&mut self, batch: Option<Batch<T>>, batch_index: usize)
        requires
            old(self).wf_with(opt_seq(batch)),
            batch_index < 0xffff_ff00usize,
        ensures
            final(self).wf(),
            final(self).advance_frontier@ == old(self).advance_frontier@,
            final(self).through_frontier@ == old(self).through_frontier@,
            final(self).pending@ == old(self).pending@,
            final(self).upper@ == old(self).upper@,
            final(self).effort == old(self).effort,
            final(self).history@ == old(self).history@,
    {
        // Eight units of fuel for each introduced record, scaled by the
        // effort multiplier and capped to keep the budget within range.
        let mut fuel: i64 = 8i64 * (self.effort as i64);
        let mut l: usize = 0;
        while l < batch_index
            invariant
                8 <= fuel <= 0x8000_0000_0000i64,
            decreases batch_index - l,
        {
            if fuel <= 0x4000_0000_0000i64 {
                fuel = fuel * 2;
            }
            l = l + 1;
        }
        self.apply_fuel_with(&mut fuel, Ghost(opt_seq(batch)));
        self.roll_up(batch_index, Ghost(opt_seq(batch)));
        proof {
            // With every lower layer vacant, the held batch belongs directly
            // below the landing layer.
            let ms = self.merging@;
            assert(ms =~= ms.take(batch_index as int) + ms.skip(batch_index as int));
            lemma_slots_concat(ms.take(batch_index as int), ms.skip(batch_index as int));
            assert(slots_seq(ms) =~= slots_seq(ms.skip(batch_index as int)));
            let vseq = slots_seq(ms.skip(batch_index as int)) + opt_seq(batch) + slots_seq(
                ms.take(batch_index as int),
            ) + Seq::<Batch<T>>::empty() + self.pending@;
            assert(vseq =~= self.live_with(opt_seq(batch)));
            assert(self.wf_at(batch, batch_index as int, Seq::empty()));
        }
        self.promote(batch, batch_index, Ghost(Seq::empty()));
        self.tidy_layers(Ghost(Seq::empty()));
    }

    /// Migrates pending batches into the layers: a pending batch enters once
    /// its upper bound lies at or below the admission frontier, landing at
    /// the layer sized to its record count.
    fn consider_merges(&mut self)
        requires
            old(self).wf(),
        ensures
            final(self).wf(),
            final(self).advance_frontier@ == old(self).advance_frontier@,
            final(self).through_frontier@ == old(self).through_frontier@,
            final(self).upper@ == old(self).upper@,
            final(self).effort == old(self).effort,
            final(self).history@ == old(self).history@,
            final(self).pending@.len() <= old(self).pending@.len(),
            final(self).pending@ == old(self).pending@.skip(
                old(self).pending@.len() - final(self).pending@.len(),
            ),
            final(self).pending@.len() > 0 ==> !frontier_le(
                final(self).pending@[0].upper@,
                final(self).through_frontier@,
            ),
    {
        loop
            invariant
                self.wf(),
                self.advance_frontier@ == old(self).advance_frontier@,
                self.through_frontier@ == old(self).through_frontier@,
                self.upper@ == old(self).upper@,
                self.effort == old(self).effort,
                self.history@ == old(self).history@,
                self.pending@.len() <= old(self).pending@.len(),
                self.pending@ == old(self).pending@.skip(
                    old(self).pending@.len() - self.pending@.len(),
                ),
            ensures
                self.wf(),
                self.advance_frontier@ == old(self).advance_frontier@,
                self.through_frontier@ == old(self).through_frontier@,
                self.upper@ == old(self).upper@,
                self.effort == old(self).effort,
                self.history@ == old(self).history@,
                self.pending@.len() <= old(self).pending@.len(),
                self.pending@ == old(self).pending@.skip(
                    old(self).pending@.len() - self.pending@.len(),
                ),
                self.pending@.len() > 0 ==> !frontier_le(
                    self.pending@[0].upper@,
                    self.through_frontier@,
                ),
            decreases self.pending@.len(),
        {
            if self.pending.len() == 0 {
                break ;
            }
            if !frontier_le_exec(&self.pending[0].upper, &self.through_frontier) {
                break ;
            }
            let ghost sp = *self;
            let batch = self.pending.remove(0);
            proof {
                assert(sp.pending@ =~= seq![batch] + self.pending@);
                assert(self.pending@ =~= old(self).pending@.skip(
                    old(self).pending@.len() - self.pending@.len(),
                ));
                assert(self.live_with(opt_seq(Some(batch))) =~= sp.live_with(Seq::empty()));
                assert(self.wf_with(opt_seq(Some(batch)))) by {
                    assert(self.live_with(opt_seq(Some(batch))) == sp.live_with(Seq::empty()));
                }
            }
            let blen = batch.recs.len();
            let mut level: usize = 0;
            while (level < 62 && (1u64 << level) < (blen as u64))
                invariant
                    level <= 62,
                decreases 62 - level,
            {
                level = level + 1;
            }
            self.introduce_batch(Some(batch), level);
        }
    }

    /// Appends a batch to the trace. The batch must continue the trace's
    /// interval exactly where it ends; the trace's upper bound becomes the
    /// batch's. The batch waits in the pending queue until the admission
    /// frontier lets it enter the layers.
    pub fn insert(&mut self, batch: Batch<T>)
        requires
            old(self).wf(),
            batch.wf(),
            batch.lower@ == old(self).upper@,
            batch.lower@ != batch.upper@,
            total_abs(old(self).history@) + total_abs(batch.recs@) <= 0x7fff_ffff_ffff_ffff,
        ensures
            final(self).wf(),
            final(self).upper@ == batch.upper@,
            final(self).history@ == old(self).history@ + batch.recs@,
            final(self).advance_frontier@ == old(self).advance_frontier@,
            final(self).through_frontier@ == old(self).through_frontier@,
            final(self).effort == old(self).effort,
            // The batch joins the pending queue; a prefix of the queue is
            // then admitted into the layers, in order, as far as the
            // admission frontier allows.
            final(self).pending@.len() <= old(self).pending@.len() + 1,
            final(self).pending@ == old(self).pending@.push(batch).skip(
                old(self).pending@.len() + 1 - final(self).pending@.len(),
            ),
            final(self).pending@.len() > 0 ==> !frontier_le(
                final(self).pending@[0].upper@,
                final(self).through_frontier@,
            ),
    {
        let ghost b = batch;
        let ghost lv0 = old(self).live_with(Seq::empty());
        self.upper = copy_vec(&batch.upper);
        proof {
            self.history@ = self.history@ + b.recs@;
        }
        self.pending.push(batch);
        proof {
            let lv1 = self.live_with(Seq::empty());
            assert(lv1 =~= lv0.push(b));
            assert(lv1.drop_last() =~= lv0);
            assert(flat(lv1) == flat(lv0) + b.recs@);
            assert forall|k: u64, v: u64, q: T| in_closure(q, self.advance_frontier@)
                implies #[trigger] weight(flat(lv1), k, v, q) == weight(self.history@, k, v, q) by {
                lemma_sums_concat(flat(lv0), b.recs@, k, v, q);
                lemma_sums_concat(old(self).history@, b.recs@, k, v, q);
            }
            lemma_sums_concat(flat(lv0), b.recs@, 0, 0, T::smin());
            lemma_sums_concat(old(self).history@, b.recs@, 0, 0, T::smin());
            assert forall|i: int| 0 <= i < lv1.len() - 1 implies (#[trigger] lv1[i]).upper@ == lv1[
                i + 1].lower@ by {
                if i < lv0.len() - 1 {
                    assert(lv1[i] == lv0[i] && lv1[i + 1] == lv0[i + 1]);
                } else {
                    assert(lv1[i] == lv0.last());
                    assert(lv1[i + 1] == b);
                }
            }
            assert forall|i: int| 0 <= i < lv1.len() implies (#[trigger] lv1[i]).wf() by {
                if i < lv0.len() {
                    assert(lv1[i] == lv0[i]);
                } else {
                    assert(lv1[i] == b);
                }
            }
        }
        self.consider_merges();
    }

    /// Completes the trace with a final empty batch reaching the end of
    /// time, emptying the trace's upper bound. Closing an already closed
    /// trace changes nothing.
    pub fn close(&mut self)
        requires
            old(self).wf(),
        ensures
            final(self).wf(),
            final(self).upper@.len() == 0,
            final(self).history@ == old(self).history@,
            final(self).advance_frontier@ == old(self).advance_frontier@,
            final(self).through_frontier@ == old(self).through_frontier@,
            final(self).effort == old(self).effort,
            old(self).upper@.len() == 0 ==> *final(self) == *old(self),
    {
        if self.upper.len() > 0 {
            let lower = copy_vec(&self.upper);
            let empty_upper: Vec<T> = Vec::new();
            let bld = Builder::new();
            let b = bld.done(&lower, &empty_upper, &lower);
            proof {
                if b.recs@.len() > 0 {
                    lemma_total_abs_nonneg(b.recs@.drop_last());
                    assert(b.recs@.last().diff != 0);
                    assert(total_abs(b.recs@) > 0);
                }
                assert(b.recs@.len() == 0);
                assert(total_abs(b.recs@) == 0);
                assert(b.lower@.len() != b.upper@.len());
            }
            self.insert(b);
            proof {
                assert(old(self).history@ + b.recs@ =~= old(self).history@);
            }
        }
    }

    /// Performs maintenance even in the absence of new data: applies the
    /// effort as fuel to merges in progress, or, when none is under way,
    /// introduces an empty batch at a layer sized to the effort to keep the
    /// layers ascending. A reduced trace needs nothing and is left exactly
    /// as it is. The contract pins the no-op, the unspent effort and the
    /// progress of the lowest merge; where the introduced empty batch lands
    /// is bookkeeping that the closing tidy pass may reshape, so it is
    /// deliberately left open.
    pub fn exert(&mut self, effort: &mut i64)
        requires
            old(self).wf(),
            *old(effort) >= 0,
        ensures
            final(self).wf(),
            final(self).advance_frontier@ == old(self).advance_frontier@,
            final(self).through_frontier@ == old(self).through_frontier@,
            final(self).upper@ == old(self).upper@,
            final(self).effort == old(self).effort,
            final(self).history@ == old(self).history@,
            // Exertion is accounted, not consumed: the effort counter is a
            // measure of work to perform, handed to each merge in turn.
            *final(effort) == *old(effort),
            // A reduced trace needs no maintenance: nothing changes.
            old(self).is_reduced() ==> *final(self) == *old(self),
            // Otherwise the lowest merging layer receives the full effort:
            // its merge advances by exactly the smaller of the effort and
            // its remaining records, or completes and is promoted.
            forall|i: int|
                #[trigger] Self::lowest_merge(old(self).merging@, i) && i < 0xffff_fff0 ==> i
                    < final(self).merging@.len() && Self::fuel_applied(
                    old(self).merging@[i],
                    final(self).merging@[i],
                    *old(effort),
                ),
    {
        if self.reduced() {
            return ;
        }
        let ghost s0 = *old(self);
        self.tidy_layers(Ghost(Seq::empty()));
        let ghost st = *self;
        if self.any_double() {
            self.apply_fuel_with(effort, Ghost(Seq::empty()));
            proof {
                assert forall|i: int|
                    #[trigger] Self::lowest_merge(s0.merging@, i) && i < 0xffff_fff0 implies i
                    < self.merging@.len() && Self::fuel_applied(
                    s0.merging@[i],
                    self.merging@[i],
                    *old(effort),
                ) by {
                    // Tidying preserved the lowest merge and everything
                    // below it, so it is still the lowest merge when the
                    // fuel is applied.
                    assert(st.merging@[i] == s0.merging@[i]);
                    assert(Self::lowest_merge(st.merging@, i));
                }
            }
        } else {
            // No merge is in progress: introduce an empty batch at a layer
            // sized to the effort, to keep the layers ascending.
            proof {
                assert forall|i: int| #[trigger] Self::lowest_merge(s0.merging@, i) implies
                    false by {
                    assert(st.merging@[i] == s0.merging@[i]);
                    assert(st.merging@[i].is_double());
                }
            }
            let mut level: usize = 0;
            while (level < 62 && (1i64 << level) < *effort)
                invariant
                    level <= 62,
                    *effort == *old(effort),
                decreases 62 - level,
            {
                level = level + 1;
            }
            proof {
                assert(opt_seq(None::<Batch<T>>) =~= Seq::<Batch<T>>::empty());
            }
            self.introduce_batch(None, level);
        }
    }

    /// Advances the compaction frontier: times in subsequently merged
    /// batches are advanced against it. The frontier only ever moves
    /// forward. An empty frontier ends the trace and drops every batch.
    pub fn advance_by(&mut self, frontier: &Vec<T>)
        requires
            old(self).wf(),
            frontier_le(old(self).advance_frontier@, frontier@),
        ensures
            final(self).wf(),
            final(self).advance_frontier@ == frontier@,
            frontier@.len() == 0 ==> final(self).live().len() == 0,
            // With a non-empty frontier no batch is added or removed: only
            // the compaction target of future merges changes.
            frontier@.len() > 0 ==> final(self).merging@ == old(self).merging@ && final(self).pending@ == old(self).pending@,
            final(self).through_frontier@ == old(self).through_frontier@,
            final(self).upper@ == old(self).upper@,
            final(self).effort == old(self).effort,
            final(self).history@ == old(self).history@,
    {
        let ghost s0 = *old(self);
        self.advance_frontier = copy_vec(frontier);
        if self.advance_frontier.len() == 0 {
            self.pending = Vec::new();
            self.merging = Vec::new();
            proof {
                assert(self.live_with(Seq::empty()) =~= Seq::<Batch<T>>::empty());
                lemma_total_abs_nonneg(s0.history@);
            }
        } else {
            proof {
                assert forall|k: u64, v: u64, q: T| in_closure(q, self.advance_frontier@)
                    implies #[trigger] weight(flat(self.live_with(Seq::empty())), k, v, q)
                    == weight(self.history@, k, v, q) by {
                    lemma_in_closure_mono(q, s0.advance_frontier@, frontier@);
                    assert(self.live_with(Seq::empty()) =~= s0.live_with(Seq::empty()));
                }
                assert(self.live_with(Seq::empty()) =~= s0.live_with(Seq::empty()));
                assert forall|i: int| 0 <= i < self.merging@.len() implies slot_wf(
                    #[trigger] self.merging@[i],
                    self.advance_frontier@,
                ) by {
                    assert(slot_wf(s0.merging@[i], s0.advance_frontier@));
                    match self.merging@[i] {
                        MergeState::Double(MergeVariant::InProgress(b1, b2, mg)) => {
                            lemma_frontier_le_trans(mg.since@, s0.advance_frontier@, frontier@);
                        },
                        _ => {},
                    }
                }
            }
        }
    }

    /// Returns copies of every batch the spine holds, oldest first, for a
    /// reader to iterate.
    pub fn map_batches(&self) -> (r: Vec<Batch<T>>)
        ensures
            batches_eqv(r@, self.live()),
    {
        let mut out: Vec<Batch<T>> = Vec::new();
        let mut i: usize = self.merging.len();
        proof {
            assert(self.merging@.skip(i as int) =~= Seq::<MergeState<T>>::empty());
        }
        while i > 0
            invariant
                i <= self.merging@.len(),
                batches_eqv(out@, slots_seq(self.merging@.skip(i as int))),
            decreases i,
        {
            i = i - 1;
            let ghost pre = out@;
            match &self.merging[i] {
                MergeState::Double(MergeVariant::InProgress(b1, b2, _)) => {
                    out.push(b1.duplicate());
                    out.push(b2.duplicate());
                },
                MergeState::Double(MergeVariant::Complete(Some(b))) => {
                    out.push(b.duplicate());
                },
                MergeState::Single(Some(b)) => {
                    out.push(b.duplicate());
                },
                _ => {},
            }
            proof {
                lemma_slots_skip_one(self.merging@, i as int);
                let sb = slot_batches(self.merging@[i as int]);
                let target = slots_seq(self.merging@.skip(i as int));
                assert forall|j: int| 0 <= j < out@.len() implies batch_eqv(
                    #[trigger] out@[j],
                    target[j],
                ) by {
                    if j < pre.len() {
                        assert(out@[j] == pre[j]);
                        assert(target[j] == slots_seq(self.merging@.skip(i + 1))[j]);
                    } else {
                        assert(target[j] == sb[j - pre.len()]);
                    }
                }
            }
        }
        let mut j: usize = 0;
        proof {
            assert(self.merging@.skip(0) =~= self.merging@);
        }
        while j < self.pending.len()
            invariant
                j <= self.pending@.len(),
                batches_eqv(out@, slots_seq(self.merging@) + self.pending@.take(j as int)),
            decreases self.pending@.len() - j,
        {
            let ghost pre = out@;
            out.push(self.pending[j].duplicate());
            proof {
                assert(self.pending@.take(j + 1) =~= self.pending@.take(j as int).push(
                    self.pending@[j as int],
                ));
                let target = slots_seq(self.merging@) + self.pending@.take(j + 1);
                assert forall|jj: int| 0 <= jj < out@.len() implies batch_eqv(
                    #[trigger] out@[jj],
                    target[jj],
                ) by {
                    if jj < pre.len() {
                        assert(out@[jj] == pre[jj]);
                        assert(target[jj] == (slots_seq(self.merging@) + self.pending@.take(
                            j as int,
                        ))[jj]);
                    }
                }
            }
            j = j + 1;
        }
        proof {
            assert(self.pending@.take(self.pending@.len() as int) =~= self.pending@);
        }
        out
    }

    /// Returns copies of the batches a reader through `upper` must consult:
    /// every non-empty layer batch, and every non-empty pending batch whose
    /// upper bound lies at or below `upper` — a consistent prefix of the
    /// trace. When `upper` covers every pending batch, the result carries,
    /// at every query time in the upward closure of the compaction frontier,
    /// exactly the weights of everything ever inserted; an emptied trace
    /// reads as no batches at all. A bound below the admission frontier, or
    /// one cutting a non-empty pending batch in half, is a reader error; it
    /// is refused as `None` rather than left to unverified callers, so no
    /// inconsistent read can be assembled.
    pub fn cursor_through(&self, upper: &Vec<T>) -> (r: Option<Vec<Batch<T>>>)
        requires
            self.wf(),
        ensures
            (r is None) <==> (!frontier_le(self.through_frontier@, upper@) || exists|i: int|
                0 <= i < self.pending@.len() && straddles(#[trigger] self.pending@[i], upper@)),
            (match r {
                Some(bs) => {
                    &&& forall|i: int|
                        0 <= i < bs@.len() ==> (#[trigger] bs@[i]).wf() && bs@[i].recs@.len() > 0
                    // The consistent-prefix read: the result weighs exactly
                    // what the layer batches and the covered pending batches
                    // weigh, at every query time.
                    &&& forall|k: u64, v: u64, q: T| #[trigger] weight(flat(bs@), k, v, q)
                        == weight(
                        flat(slots_seq(self.merging@) + admitted(self.pending@, upper@)),
                        k,
                        v,
                        q,
                    )
                    &&& ((forall|i: int|
                        0 <= i < self.pending@.len() ==> (#[trigger] self.pending@[i]).recs@.len()
                            == 0 || frontier_le(self.pending@[i].upper@, upper@)) ==> (forall|
                        k: u64,
                        v: u64,
                        q: T,
                    |
                        in_closure(q, self.advance_frontier@) ==> #[trigger] weight(
                            flat(bs@),
                            k,
                            v,
                            q,
                        ) == weight(self.history@, k, v, q)))
                    &&& (self.live().len() == 0 ==> bs@.len() == 0)
                },
                None => true,
            }),
    {
        if !frontier_le_exec(&self.through_frontier, upper) {
            return None;
        }
        let mut out: Vec<Batch<T>> = Vec::new();
        let mut i: usize = self.merging.len();
        proof {
            assert(self.merging@.skip(i as int) =~= Seq::<MergeState<T>>::empty());
        }
        while i > 0
            invariant
                self.wf(),
                i <= self.merging@.len(),
                forall|j: int|
                    0 <= j < out@.len() ==> (#[trigger] out@[j]).wf() && out@[j].recs@.len() > 0,
                forall|k: u64, v: u64, q: T| #[trigger] weight(flat(out@), k, v, q) == weight(
                    flat(slots_seq(self.merging@.skip(i as int))),
                    k,
                    v,
                    q,
                ),
                self.live().len() == 0 ==> out@.len() == 0,
            decreases i,
        {
            i = i - 1;
            let ghost pre = out@;
            proof {
                lemma_slot_batches_wf(*self, i as int, Seq::empty());
                lemma_slots_split(self.merging@, i as int);
                if slot_batches(self.merging@[i as int]).len() > 0 {
                    assert(self.live().len() > 0);
                }
            }
            match &self.merging[i] {
                MergeState::Double(MergeVariant::InProgress(b1, b2, _)) => {
                    proof {
                        let sb = slot_batches(self.merging@[i as int]);
                        assert(sb[0] == *b1 && sb[1] == *b2);
                    }
                    push_nonempty(&mut out, b1);
                    push_nonempty(&mut out, b2);
                    proof {
                        let sb = slot_batches(self.merging@[i as int]);
                        assert(sb =~= seq![*b1, *b2]);
                        assert(seq![*b1, *b2].drop_last() =~= seq![*b1]);
                        lemma_flat_one(*b1);
                        assert(flat(sb) == b1.recs@ + b2.recs@);
                        assert(flat(out@) =~= flat(pre) + flat(sb));
                    }
                },
                MergeState::Double(MergeVariant::Complete(Some(b))) => {
                    proof {
                        let sb = slot_batches(self.merging@[i as int]);
                        assert(sb[0] == *b);
                    }
                    push_nonempty(&mut out, b);
                    proof {
                        let sb = slot_batches(self.merging@[i as int]);
                        assert(sb =~= seq![*b]);
                        lemma_flat_one(*b);
                        assert(flat(out@) =~= flat(pre) + flat(sb));
                    }
                },
                MergeState::Single(Some(b)) => {
                    proof {
                        let sb = slot_batches(self.merging@[i as int]);
                        assert(sb[0] == *b);
                    }
                    push_nonempty(&mut out, b);
                    proof {
                        let sb = slot_batches(self.merging@[i as int]);
                        assert(sb =~= seq![*b]);
                        lemma_flat_one(*b);
                        assert(flat(out@) =~= flat(pre) + flat(sb));
                    }
                },
                _ => {
                    proof {
                        let sb = slot_batches(self.merging@[i as int]);
                        assert(sb =~= Seq::<Batch<T>>::empty());
                        assert(flat(out@) =~= flat(pre) + flat(sb));
                    }
                },
            }
            proof {
                lemma_slots_skip_one(self.merging@, i as int);
                let sb = slot_batches(self.merging@[i as int]);
                lemma_flat_concat(slots_seq(self.merging@.skip(i + 1)), sb);
                assert forall|k: u64, v: u64, q: T| #[trigger] weight(flat(out@), k, v, q)
                    == weight(flat(slots_seq(self.merging@.skip(i as int))), k, v, q) by {
                    lemma_sums_concat(flat(pre), flat(sb), k, v, q);
                    lemma_sums_concat(flat(slots_seq(self.merging@.skip(i + 1))), flat(sb), k, v, q);
                }
            }
        }
        let mut j: usize = 0;
        proof {
            assert(self.merging@.skip(0) =~= self.merging@);
        }
        while j < self.pending.len()
            invariant
                self.wf(),
                j <= self.pending@.len(),
                frontier_le(self.through_frontier@, upper@),
                forall|jj: int|
                    0 <= jj < out@.len() ==> (#[trigger] out@[jj]).wf() && out@[jj].recs@.len()
                        > 0,
                forall|jj: int| 0 <= jj < j ==> !straddles(#[trigger] self.pending@[jj], upper@),
                forall|k: u64, v: u64, q: T| #[trigger] weight(flat(out@), k, v, q) == weight(
                    flat(slots_seq(self.merging@) + admitted(self.pending@.take(j as int), upper@)),
                    k,
                    v,
                    q,
                ),
                self.live().len() == 0 ==> out@.len() == 0,
            decreases self.pending@.len() - j,
        {
            let ghost pre = out@;
            proof {
                // the pending batch is part of the live sequence, so wf
                let lv = self.live_with(Seq::empty());
                assert(lv[slots_seq(self.merging@).len() + j] == self.pending@[j as int]);
                assert(self.live().len() > 0);
            }
            let mut included = false;
            let nonempty = self.pending[j].recs.len() > 0;
            if nonempty {
                let include_lower = frontier_le_exec(&self.pending[j].lower, upper);
                let include_upper = frontier_le_exec(&self.pending[j].upper, upper);
                if include_lower != include_upper && !frontier_eq(&self.pending[j].lower, upper) {
                    proof {
                        assert(straddles(self.pending@[j as int], upper@));
                    }
                    return None;
                }
                if include_upper {
                    out.push(self.pending[j].duplicate());
                    included = true;
                }
            }
            proof {
                let b = self.pending@[j as int];
                let adm = admitted(self.pending@.take(j as int), upper@);
                let adm2 = admitted(self.pending@.take(j + 1), upper@);
                let base = slots_seq(self.merging@) + adm;
                let base2 = slots_seq(self.merging@) + adm2;
                assert(self.pending@.take(j + 1).drop_last() =~= self.pending@.take(j as int));
                assert(self.pending@.take(j + 1).last() == b);
                if included {
                    // The batch is non-empty and covered: it joins the
                    // consulted prefix and the gathered copies alike.
                    assert(adm2 == adm.push(b));
                    assert(base2 =~= base.push(b));
                    assert(base2.drop_last() =~= base);
                    assert(flat(base2) == flat(base) + b.recs@);
                    assert(out@.drop_last() =~= pre);
                    assert(flat(out@) == flat(pre) + out@.last().recs@);
                    assert(out@.last().recs@ == b.recs@);
                    assert forall|k: u64, v: u64, q: T| #[trigger] weight(flat(out@), k, v, q)
                        == weight(flat(base2), k, v, q) by {
                        lemma_sums_concat(flat(base), b.recs@, k, v, q);
                        lemma_sums_concat(flat(pre), out@.last().recs@, k, v, q);
                    }
                } else {
                    // Empty, or beyond the bound: consulted by neither.
                    assert(adm2 == adm);
                    assert(out@ == pre);
                }
            }
            j = j + 1;
        }
        proof {
            assert(self.pending@.take(self.pending@.len() as int) =~= self.pending@);
            if forall|jj: int|
                0 <= jj < self.pending@.len() ==> (#[trigger] self.pending@[jj]).recs@.len() == 0
                    || frontier_le(self.pending@[jj].upper@, upper@) {
                assert forall|k: u64, v: u64, q: T| in_closure(q, self.advance_frontier@)
                    implies #[trigger] weight(flat(out@), k, v, q) == weight(
                    self.history@,
                    k,
                    v,
                    q,
                ) by {
                    lemma_admitted_weights(self.pending@, upper@, k, v, q);
                    lemma_flat_concat(slots_seq(self.merging@), admitted(self.pending@, upper@));
                    lemma_flat_concat(slots_seq(self.merging@), self.pending@);
                    lemma_sums_concat(
                        flat(slots_seq(self.merging@)),
                        flat(admitted(self.pending@, upper@)),
                        k,
                        v,
                        q,
                    );
                    lemma_sums_concat(flat(slots_seq(self.merging@)), flat(self.pending@), k, v, q);
                    assert(slots_seq(self.merging@) + self.pending@ =~= self.live_with(
                        Seq::empty(),
                    ));
                    assert(weight(flat(out@), k, v, q) == weight(
                        flat(slots_seq(self.merging@) + self.pending@),
                        k,
                        v,
                        q,
                    ));
                }
            }
        }
        Some(out)
    }

    /// Advances the admission frontier past which pending batches may enter
    /// the layers, and admits what it allows. The frontier only ever moves
    /// forward.
    pub fn distinguish_since(&mut self, frontier: &Vec<T>)
        requires
            old(self).wf(),
            frontier_le(old(self).through_frontier@, frontier@),
        ensures
            final(self).wf(),
            final(self).through_frontier@ == frontier@,
            final(self).advance_frontier@ == old(self).advance_frontier@,
            final(self).upper@ == old(self).upper@,
            final(self).effort == old(self).effort,
            final(self).history@ == old(self).history@,
            // A prefix of the pending queue is admitted into the layers, in
            // order, as far as the new admission frontier allows.
            final(self).pending@.len() <= old(self).pending@.len(),
            final(self).pending@ == old(self).pending@.skip(
                old(self).pending@.len() - final(self).pending@.len(),
            ),
            final(self).pending@.len() > 0 ==> !frontier_le(
                final(self).pending@[0].upper@,
                frontier@,
            ),
    {
        self.through_frontier = copy_vec(frontier);
        self.consider_merges();
    }
}

/// Facts needed to settle the target layer of a promotion: its batches are
/// well formed and its merge (if any) is well formed, and the held batch is
/// well formed.
proof fn lemma_promote_pre<T: Lattice>(
    s0: Spine<T>,
    ms1: Seq<MergeState<T>>,
    b: Option<Batch<T>>,
    at: int,
    extra: Seq<Batch<T>>,
)
    requires
        s0.wf_at(b, at, extra),
        at < ms1.len(),
        ms1.len() >= s0.merging@.len(),
        forall|j: int| 0 <= j < s0.merging@.len() ==> ms1[j] == s0.merging@[j],
        forall|j: int| s0.merging@.len() <= j < ms1.len() ==> (#[trigger] ms1[j]).is_vacant(),
    ensures
        batches_wf(slot_batches(ms1[at])),
        slot_wf(ms1[at], s0.advance_frontier@),
        b matches Some(bb) ==> bb.wf(),
{
    let ms0 = s0.merging@;
    let vs0 = slots_seq(ms0.skip(at)) + opt_seq(b) + slots_seq(ms0.take(at)) + extra + s0.pending@;
    if b is Some {
        assert(vs0[slots_seq(ms0.skip(at)).len() as int] == b->0);
    }
    if at < ms0.len() {
        assert(ms1[at] == ms0[at]);
        assert(slot_wf(ms0[at], s0.advance_frontier@));
        lemma_slots_skip_one(ms0, at);
        let hi = slots_seq(ms0.skip(at + 1));
        let sb = slot_batches(ms0[at]);
        assert(vs0 =~= hi + sb + (opt_seq(b) + slots_seq(ms0.take(at)) + extra + s0.pending@));
        assert forall|i: int| 0 <= i < sb.len() implies (#[trigger] sb[i]).wf() by {
            assert(vs0[hi.len() + i] == sb[i]);
        }
    } else {
        assert(ms1[at].is_vacant());
    }
}

/// Facts needed to insert the held batch after settling: when the settled
/// layer holds a single batch, that batch is adjacent to the held one and
/// their magnitudes fit together.
#[verifier::rlimit(100)]
proof fn lemma_promote_mid<T: Lattice>(
    s0: Spine<T>,
    ms1: Seq<MergeState<T>>,
    ms2: Seq<MergeState<T>>,
    b: Option<Batch<T>>,
    at: int,
    extra: Seq<Batch<T>>,
)
    requires
        s0.wf_at(b, at, extra),
        at < ms1.len(),
        ms1.len() >= s0.merging@.len(),
        forall|j: int| 0 <= j < s0.merging@.len() ==> ms1[j] == s0.merging@[j],
        forall|j: int| s0.merging@.len() <= j < ms1.len() ==> (#[trigger] ms1[j]).is_vacant(),
        ms2.len() == ms1.len(),
        forall|j: int| 0 <= j < ms1.len() && j != at ==> ms2[j] == ms1[j],
        span_eqv(slot_batches(ms2[at]), slot_batches(ms1[at]), s0.advance_frontier@),
    ensures
        (match (ms2[at], b) {
            (MergeState::Single(Some(o)), Some(bb)) => o.upper@ == bb.lower@ && o.wf()
                && total_abs(o.recs@) + total_abs(bb.recs@) <= 0x7fff_ffff_ffff_ffff,
            _ => true,
        }),
        b matches Some(bb) ==> bb.wf(),
{
    let ms0 = s0.merging@;
    let af = s0.advance_frontier@;
    let vs0 = slots_seq(ms0.skip(at)) + opt_seq(b) + slots_seq(ms0.take(at)) + extra + s0.pending@;
    if b is Some {
        assert(vs0[slots_seq(ms0.skip(at)).len() as int] == b->0);
    }
    lemma_pad_stable(ms0, ms1, at);
    lemma_slots_skip_one(ms1, at);
    let hi = slots_seq(ms1.skip(at + 1));
    let s_old = slot_batches(ms1[at]);
    let s_new = slot_batches(ms2[at]);
    let rest = opt_seq(b) + slots_seq(ms0.take(at)) + extra + s0.pending@;
    assert(vs0 =~= hi + s_old + rest);
    assert(batches_wf(s_new)) by {
        if s_old.len() > 0 {
            assert(s_new[0].wf());
            assert forall|i: int| 0 <= i < s_new.len() implies (#[trigger] s_new[i]).wf() by {
                assert(i == 0);
            }
        }
    }
    lemma_span_replace(hi, s_old, s_new, rest, af);
    let vs1 = hi + s_new + rest;
    if ms2[at] is Single && ms2[at]->Single_0 is Some && b is Some {
        let o = ms2[at]->Single_0->0;
        let bb = b->0;
        assert(s_new =~= seq![o]);
        let oi = hi.len() as int;
        assert(vs1[oi] == o);
        assert((hi + s_new)[oi] == o);
        assert(vs1[oi + 1] == rest[0]);
        assert(rest[0] == bb);
        assert(vs1[oi].upper@ == vs1[oi + 1].lower@);
        lemma_total_abs_two(vs1, oi);
        assert(o.wf());
    }
}

/// The spine is well formed again once the held batch has entered the
/// settled layer.
#[verifier::rlimit(100)]
proof fn lemma_promote_post<T: Lattice>(
    s0: Spine<T>,
    s3: Spine<T>,
    ms1: Seq<MergeState<T>>,
    ms2: Seq<MergeState<T>>,
    b: Option<Batch<T>>,
    at: int,
    extra: Seq<Batch<T>>,
)
    requires
        s0.wf_at(b, at, extra),
        at < ms1.len(),
        ms1.len() >= s0.merging@.len(),
        forall|j: int| 0 <= j < s0.merging@.len() ==> ms1[j] == s0.merging@[j],
        forall|j: int| s0.merging@.len() <= j < ms1.len() ==> (#[trigger] ms1[j]).is_vacant(),
        ms2.len() == ms1.len(),
        forall|j: int| 0 <= j < ms1.len() && j != at ==> ms2[j] == ms1[j],
        slot_wf(ms2[at], s0.advance_frontier@),
        span_eqv(slot_batches(ms2[at]), slot_batches(ms1[at]), s0.advance_frontier@),
        s3.merging@.len() == ms2.len(),
        forall|j: int| 0 <= j < ms2.len() && j != at ==> s3.merging@[j] == ms2[j],
        slot_batches(s3.merging@[at]) == slot_batches(ms2[at]) + opt_seq(b),
        slot_wf(s3.merging@[at], s3.advance_frontier@),
        s3.advance_frontier@ == s0.advance_frontier@,
        s3.pending@ == s0.pending@,
        s3.upper@ == s0.upper@,
        s3.history@ == s0.history@,
        s3.effort == s0.effort,
    ensures
        s3.wf_with(extra),
{
    let ms0 = s0.merging@;
    let ms3 = s3.merging@;
    let af = s0.advance_frontier@;
    let vs0 = slots_seq(ms0.skip(at)) + opt_seq(b) + slots_seq(ms0.take(at)) + extra + s0.pending@;
    lemma_pad_stable(ms0, ms1, at);
    lemma_slots_skip_one(ms1, at);
    let hi = slots_seq(ms1.skip(at + 1));
    let s_old = slot_batches(ms1[at]);
    let s_new = slot_batches(ms2[at]);
    let rest = opt_seq(b) + slots_seq(ms0.take(at)) + extra + s0.pending@;
    assert(vs0 =~= hi + s_old + rest);
    assert(batches_wf(s_new)) by {
        if s_old.len() > 0 {
            assert(s_new[0].wf());
            assert forall|i: int| 0 <= i < s_new.len() implies (#[trigger] s_new[i]).wf() by {
                assert(i == 0);
            }
        }
    }
    lemma_span_replace(hi, s_old, s_new, rest, af);
    let vs1 = hi + s_new + rest;
    // The final layer batches assemble into exactly vs1.
    lemma_assemble(ms2, ms3, at);
    assert(ms2.skip(at + 1) =~= ms1.skip(at + 1));
    assert(ms2.take(at) =~= ms1.take(at));
    assert(ms1.take(at) =~= ms0.take(at));
    assert(s3.live_with(extra) =~= vs1);
    // Layer well-formedness.
    assert forall|i: int| 0 <= i < ms3.len() implies slot_wf(#[trigger] ms3[i], af) by {
        if i != at {
            assert(ms3[i] == ms2[i]);
            assert(ms2[i] == ms1[i]);
            if i < ms0.len() {
                assert(ms1[i] == ms0[i]);
            }
        }
    }
    // Weights, magnitudes, chain and bounds carry over from vs1.
    assert forall|k: u64, v: u64, q: T| in_closure(q, s3.advance_frontier@)
        implies #[trigger] weight(flat(s3.live_with(extra)), k, v, q) == weight(
        s3.history@,
        k,
        v,
        q,
    ) by {
        assert(flat(s3.live_with(extra)) == flat(vs1));
        assert(weight(flat(vs1), k, v, q) == weight(flat(vs0), k, v, q));
    }
}

/// The batches of one layer of a well-formed spine are well formed.
proof fn lemma_slot_batches_wf<T: Lattice>(s: Spine<T>, index: int, extra: Seq<Batch<T>>)
    requires
        s.wf_with(extra),
        0 <= index < s.merging@.len(),
    ensures
        batches_wf(slot_batches(s.merging@[index])),
{
    lemma_slots_split(s.merging@, index);
    let hi = slots_seq(s.merging@.skip(index + 1));
    let sb = slot_batches(s.merging@[index]);
    let lv = s.live_with(extra);
    assert(lv =~= hi + sb + (slots_seq(s.merging@.take(index)) + extra + s.pending@));
    assert forall|i: int| 0 <= i < sb.len() implies (#[trigger] sb[i]).wf() by {
        assert(lv[hi.len() + i] == sb[i]);
    }
}

/// Replacing one layer by a layer holding the same batches preserves
/// well-formedness.
proof fn lemma_replace_slot_same<T: Lattice>(
    s0: Spine<T>,
    s1: Spine<T>,
    index: int,
    extra: Seq<Batch<T>>,
)
    requires
        s0.wf_with(extra),
        0 <= index < s0.merging@.len(),
        s1.merging@.len() == s0.merging@.len(),
        forall|j: int|
            0 <= j < s0.merging@.len() && j != index ==> s1.merging@[j] == s0.merging@[j],
        slot_batches(s1.merging@[index]) == slot_batches(s0.merging@[index]),
        slot_wf(s1.merging@[index], s1.advance_frontier@),
        s1.advance_frontier@ == s0.advance_frontier@,
        s1.through_frontier@ == s0.through_frontier@,
        s1.pending@ == s0.pending@,
        s1.upper@ == s0.upper@,
        s1.history@ == s0.history@,
        s1.effort == s0.effort,
    ensures
        s1.wf_with(extra),
{
    lemma_slots_split(s0.merging@, index);
    lemma_slots_split(s1.merging@, index);
    assert(s1.merging@.skip(index + 1) =~= s0.merging@.skip(index + 1));
    assert(s1.merging@.take(index) =~= s0.merging@.take(index));
    assert(s1.live_with(extra) =~= s0.live_with(extra));
    assert forall|i: int| 0 <= i < s1.merging@.len() implies slot_wf(
        #[trigger] s1.merging@[i],
        s1.advance_frontier@,
    ) by {
        if i != index {
            assert(s1.merging@[i] == s0.merging@[i]);
        }
    }
}

/// The tiling invariant of a well-formed trace: its batches are well
/// formed and cover a contiguous interval of times, each batch's upper
/// bound the next one's lower, ending at the trace's own upper bound.
pub proof fn lemma_trace_invariants<T: Lattice>(s: Spine<T>)
    requires
        s.wf(),
    ensures
        batches_wf(s.live()),
        chain(s.live()),
        s.live().len() > 0 ==> s.live().last().upper@ == s.upper@,
{
    s.lemma_live_empty();
}

/// Whether two batches carry the same records and bounds.
pub open spec fn batch_eqv<T: Lattice>(a: Batch<T>, b: Batch<T>) -> bool {
    a.recs@ == b.recs@ && a.lower@ == b.lower@ && a.upper@ == b.upper@
}

/// Whether two batch sequences agree pointwise on records and bounds.
pub open spec fn batches_eqv<T: Lattice>(a: Seq<Batch<T>>, b: Seq<Batch<T>>) -> bool {
    a.len() == b.len() && forall|i: int| 0 <= i < a.len() ==> batch_eqv(#[trigger] a[i], b[i])
}

/// The pending batches a reader through `upper` consults: the non-empty
/// ones whose upper bound lies at or below it, in order.
pub open spec fn admitted<T: Lattice>(pending: Seq<Batch<T>>, upper: Seq<T>) -> Seq<Batch<T>>
    decreases pending.len(),
{
    if pending.len() == 0 {
        Seq::empty()
    } else {
        let pre = admitted(pending.drop_last(), upper);
        if pending.last().recs@.len() > 0 && frontier_le(pending.last().upper@, upper) {
            pre.push(pending.last())
        } else {
            pre
        }
    }
}

/// When every pending batch is empty or covered by `upper`, the consulted
/// batches weigh exactly what the whole queue weighs.
pub proof fn lemma_admitted_weights<T: Lattice>(
    s: Seq<Batch<T>>,
    upper: Seq<T>,
    k: u64,
    v: u64,
    q: T,
)
    requires
        forall|i: int|
            0 <= i < s.len() ==> (#[trigger] s[i]).recs@.len() == 0 || frontier_le(
                s[i].upper@,
                upper,
            ),
    ensures
        weight(flat(admitted(s, upper)), k, v, q) == weight(flat(s), k, v, q),
    decreases s.len(),
{
    if s.len() > 0 {
        assert forall|i: int| 0 <= i < s.drop_last().len() implies (#[trigger] s.drop_last()[
        i]).recs@.len() == 0 || frontier_le(s.drop_last()[i].upper@, upper) by {
            assert(s.drop_last()[i] == s[i]);
        }
        lemma_admitted_weights(s.drop_last(), upper, k, v, q);
        let pre = admitted(s.drop_last(), upper);
        if s.last().recs@.len() > 0 && frontier_le(s.last().upper@, upper) {
            assert(pre.push(s.last()).drop_last() =~= pre);
            assert(flat(pre.push(s.last())) == flat(pre) + s.last().recs@);
            lemma_sums_concat(flat(pre), s.last().recs@, k, v, q);
            lemma_sums_concat(flat(s.drop_last()), s.last().recs@, k, v, q);
        } else {
            assert(s.last().recs@.len() == 0);
            assert(s.last().recs@ =~= Seq::<Update<T>>::empty());
            lemma_sums_concat(flat(s.drop_last()), s.last().recs@, k, v, q);
        }
    }
}

/// Whether a reader bound cuts a non-empty batch in half: the bound covers
/// one end of the batch's interval but not the other, without being exactly
/// the batch's start.
pub open spec fn straddles<T: Lattice>(b: Batch<T>, upper: Seq<T>) -> bool {
    b.recs@.len() > 0 && frontier_le(b.lower@, upper) != frontier_le(b.upper@, upper)
        && b.lower@ != upper
}

/// Decides equality of two frontiers as sequences of times.
pub fn frontier_eq<T: Lattice>(a: &Vec<T>, b: &Vec<T>) -> (r: bool)
    ensures
        r == (a@ == b@),
{
    if a.len() != b.len() {
        proof {
            assert(a@.len() != b@.len());
        }
        return false;
    }
    let mut i: usize = 0;
    let mut ok = true;
    while i < a.len()
        invariant
            i <= a@.len(),
            a@.len() == b@.len(),
            ok == (forall|j: int| 0 <= j < i ==> a@[j] == b@[j]),
        decreases a@.len() - i,
    {
        if !crate::lattice::lat_eq(&a[i], &b[i]) {
            ok = false;
        }
        i = i + 1;
    }
    proof {
        if ok {
            assert(a@ =~= b@);
        }
    }
    ok
}




/// Pushes a copy of a batch onto a reader's batch list when it holds any
/// records; an empty batch is skipped. Either way the gathered records
/// extend by exactly the batch's records.
fn push_nonempty<T: Lattice>(out: &mut Vec<Batch<T>>, b: &Batch<T>)
    requires
        b.wf(),
    ensures
        flat(final(out)@) == flat(old(out)@) + b.recs@,
        forall|j: int|
            0 <= j < final(out)@.len() ==> (if j < old(out)@.len() {
                final(out)@[j] == old(out)@[j]
            } else {
                (#[trigger] final(out)@[j]).wf() && final(out)@[j].recs@.len() > 0
            }),
{
    if b.recs.len() > 0 {
        out.push(b.duplicate());
        proof {
            assert(out@.drop_last() =~= old(out)@);
            assert(flat(out@) == flat(old(out)@) + out@.last().recs@);
            assert(out@.last().recs@ == b.recs@);
        }
    } else {
        proof {
            assert(b.recs@ =~= Seq::<Update<T>>::empty());
            assert(flat(out@) + b.recs@ =~= flat(out@));
        }
    }
}

/// Removing a non-merging layer preserves every layer up to and including
/// the lowest merging one, which must lie strictly below the removed index.
proof fn lemma_tidy_prefix<T: Lattice>(
    ms0: Seq<MergeState<T>>,
    msl: Seq<MergeState<T>>,
    msf: Seq<MergeState<T>>,
    at: int,
)
    requires
        0 <= at < msl.len(),
        at == msl.len() - 2,
        msl[msl.len() - 1].is_single(),
        !msl[at].is_double(),
        msf == msl.update(at, MergeState::Vacant).remove(at),
        forall|i: int|
            #[trigger] Spine::<T>::lowest_merge(ms0, i) ==> i < msl.len() && msl[i] == ms0[i] && (
            forall|j: int| 0 <= j < i ==> msl[j] == ms0[j]),
    ensures
        forall|i: int|
            #[trigger] Spine::<T>::lowest_merge(ms0, i) ==> i < msf.len() && msf[i] == ms0[i] && (
            forall|j: int| 0 <= j < i ==> msf[j] == ms0[j]),
{
    assert forall|i: int| #[trigger] Spine::<T>::lowest_merge(ms0, i) implies i < msf.len() && msf[
    i] == ms0[i] && (forall|j: int| 0 <= j < i ==> msf[j] == ms0[j]) by {
        // The lowest merge lies strictly below the removed layer: the top
        // layer is a single and the removed one is not merging.
        assert(msl[i].is_double());
        assert(i != at);
        assert(i != msl.len() - 1);
        assert(i < at);
        assert(msf[i] == msl[i]);
        assert forall|j: int| 0 <= j < i implies msf[j] == msl[j] by {}
    }
}

/// Removing a layer that holds no batches preserves well-formedness.
proof fn lemma_remove_empty_slot<T: Lattice>(
    s0: Spine<T>,
    s1: Spine<T>,
    i: int,
    ex: Seq<Batch<T>>,
)
    requires
        s0.wf_with(ex),
        0 <= i < s0.merging@.len(),
        slot_batches(s0.merging@[i]) == Seq::<Batch<T>>::empty(),
        s1.merging@ == s0.merging@.remove(i),
        s1.advance_frontier@ == s0.advance_frontier@,
        s1.through_frontier@ == s0.through_frontier@,
        s1.pending@ == s0.pending@,
        s1.upper@ == s0.upper@,
        s1.history@ == s0.history@,
        s1.effort == s0.effort,
    ensures
        s1.wf_with(ex),
{
    lemma_slots_split(s0.merging@, i);
    assert(s1.merging@ =~= s0.merging@.take(i) + s0.merging@.skip(i + 1));
    lemma_slots_concat(s0.merging@.take(i), s0.merging@.skip(i + 1));
    assert(slots_seq(s1.merging@) =~= slots_seq(s0.merging@));
    assert(s1.live_with(ex) =~= s0.live_with(ex));
    assert forall|j: int| 0 <= j < s1.merging@.len() implies slot_wf(
        #[trigger] s1.merging@[j],
        s1.advance_frontier@,
    ) by {
        if j < i {
            assert(s1.merging@[j] == s0.merging@[j]);
        } else {
            assert(s1.merging@[j] == s0.merging@[j + 1]);
        }
    }
}

/// Swapping a vacant layer in place of one that held a single batch leaves
/// the spine one extraction short, with the batch standing in for the layer.
proof fn lemma_replace_slot_vacated<T: Lattice>(
    s0: Spine<T>,
    s1: Spine<T>,
    i: int,
    ex: Seq<Batch<T>>,
)
    requires
        s0.wf_with(ex),
        0 <= i < s0.merging@.len(),
        s1.merging@ == s0.merging@.update(i, MergeState::Vacant),
    ensures
        s1.merging@.len() == s0.merging@.len(),
        forall|j: int|
            0 <= j < s0.merging@.len() && j != i ==> s1.merging@[j] == s0.merging@[j],
        s1.merging@[i].is_vacant(),
{
}

/// After extracting a span-equivalent batch from a layer, the spine is well
/// formed with that batch held just below the next layer up.
#[verifier::rlimit(100)]
proof fn lemma_extract_wf_at<T: Lattice>(
    s0: Spine<T>,
    s1: Spine<T>,
    index: int,
    r: Option<Batch<T>>,
    extra: Seq<Batch<T>>,
)
    requires
        s0.wf_with(extra),
        0 <= index < s0.merging@.len(),
        s1.merging@.len() == s0.merging@.len(),
        forall|j: int|
            0 <= j < s0.merging@.len() && j != index ==> s1.merging@[j] == s0.merging@[j],
        s1.merging@[index].is_vacant(),
        span_eqv(opt_seq(r), slot_batches(s0.merging@[index]), s0.advance_frontier@),
        r matches Some(b) ==> b.wf(),
        s1.advance_frontier@ == s0.advance_frontier@,
        s1.through_frontier@ == s0.through_frontier@,
        s1.pending@ == s0.pending@,
        s1.upper@ == s0.upper@,
        s1.history@ == s0.history@,
        s1.effort == s0.effort,
    ensures
        s1.wf_at(r, index + 1, extra),
{
    let af = s0.advance_frontier@;
    lemma_slots_split(s0.merging@, index);
    let hi = slots_seq(s0.merging@.skip(index + 1));
    let olds = slot_batches(s0.merging@[index]);
    let low = slots_seq(s0.merging@.take(index)) + extra + s0.pending@;
    assert(s0.live_with(extra) =~= hi + olds + low);
    assert(batches_wf(opt_seq(r))) by {
        if r is Some {
            assert forall|i: int| 0 <= i < opt_seq(r).len() implies (#[trigger] opt_seq(r)[i]).wf()
                by {
                assert(opt_seq(r)[i] == r->0);
            }
        }
    }
    lemma_span_replace(hi, olds, opt_seq(r), low, af);
    // The virtual sequence of the promotion target.
    assert(s1.merging@.skip(index + 1) =~= s0.merging@.skip(index + 1));
    assert(slots_seq(s1.merging@.take(index + 1)) == slots_seq(s0.merging@.take(index))) by {
        assert(s1.merging@.take(index + 1).drop_last() =~= s1.merging@.take(index));
        assert(s1.merging@.take(index + 1).last() == s1.merging@[index]);
        assert(slot_batches(s1.merging@[index]) + slots_seq(s1.merging@.take(index)) =~= slots_seq(
            s1.merging@.take(index),
        ));
        assert(s1.merging@.take(index) =~= s0.merging@.take(index));
    }
    let vseq = slots_seq(s1.merging@.skip(index + 1)) + opt_seq(r) + slots_seq(
        s1.merging@.take(index + 1),
    ) + extra + s1.pending@;
    assert(vseq =~= hi + opt_seq(r) + low);
    assert forall|i: int| 0 <= i < s1.merging@.len() implies slot_wf(
        #[trigger] s1.merging@[i],
        s1.advance_frontier@,
    ) by {
        if i != index {
            assert(s1.merging@[i] == s0.merging@[i]);
        }
    }
    assert forall|k: u64, v: u64, q: T| in_closure(q, s1.advance_frontier@)
        implies #[trigger] weight(flat(vseq), k, v, q) == weight(s1.history@, k, v, q) by {
        assert(flat(vseq) == flat(hi + opt_seq(r) + low));
        assert(weight(flat(hi + opt_seq(r) + low), k, v, q) == weight(flat(hi + olds + low), k, v, q));
        assert(flat(s0.live_with(extra)) == flat(hi + olds + low));
    }
}

/// A sequence of vacant layers holds no batches.
proof fn lemma_slots_all_vacant<T: Lattice>(ms: Seq<MergeState<T>>)
    requires
        forall|i: int| 0 <= i < ms.len() ==> (#[trigger] ms[i]).is_vacant(),
    ensures
        slots_seq(ms) == Seq::<Batch<T>>::empty(),
    decreases ms.len(),
{
    if ms.len() > 0 {
        lemma_slots_all_vacant(ms.drop_last());
        assert(slot_batches(ms.last()) + slots_seq(ms.drop_last()) =~= Seq::<Batch<T>>::empty());
    }
}

/// Peeling the lowest layer off a suffix of layers.
proof fn lemma_slots_skip_one<T: Lattice>(ms: Seq<MergeState<T>>, at: int)
    requires
        0 <= at < ms.len(),
    ensures
        slots_seq(ms.skip(at)) == slots_seq(ms.skip(at + 1)) + slot_batches(ms[at]),
{
    lemma_slots_split(ms.skip(at), 0);
    assert(ms.skip(at).skip(1) =~= ms.skip(at + 1));
    assert(ms.skip(at).take(0) =~= Seq::<MergeState<T>>::empty());
    assert(slots_seq(ms.skip(at + 1)) + slot_batches(ms[at]) + Seq::<Batch<T>>::empty()
        =~= slots_seq(ms.skip(at + 1)) + slot_batches(ms[at]));
}

/// The magnitudes of two adjacent batches are bounded by the whole flat
/// magnitude.
proof fn lemma_total_abs_two<T: Lattice>(bs: Seq<Batch<T>>, i: int)
    requires
        0 <= i < bs.len() - 1,
    ensures
        total_abs(bs[i].recs@) + total_abs(bs[i + 1].recs@) <= total_abs(flat(bs)),
{
    assert(bs =~= bs.take(i) + seq![bs[i], bs[i + 1]] + bs.skip(i + 2));
    lemma_flat_concat(bs.take(i) + seq![bs[i], bs[i + 1]], bs.skip(i + 2));
    lemma_flat_concat(bs.take(i), seq![bs[i], bs[i + 1]]);
    assert(seq![bs[i], bs[i + 1]].drop_last() =~= seq![bs[i]]);
    lemma_flat_one(bs[i]);
    assert(flat(seq![bs[i], bs[i + 1]]) == bs[i].recs@ + bs[i + 1].recs@);
    lemma_sums_concat(
        flat(bs.take(i) + seq![bs[i], bs[i + 1]]),
        flat(bs.skip(i + 2)),
        0,
        0,
        T::smin(),
    );
    lemma_sums_concat(flat(bs.take(i)), flat(seq![bs[i], bs[i + 1]]), 0, 0, T::smin());
    lemma_sums_concat(bs[i].recs@, bs[i + 1].recs@, 0, 0, T::smin());
    lemma_total_abs_nonneg(flat(bs.take(i)));
    lemma_total_abs_nonneg(flat(bs.skip(i + 2)));
}

/// Growing a layer list with vacant layers changes no suffix or prefix
/// contribution.
proof fn lemma_pad_stable<T: Lattice>(ms0: Seq<MergeState<T>>, ms1: Seq<MergeState<T>>, at: int)
    requires
        0 <= at <= ms0.len() <= ms1.len(),
        forall|j: int| 0 <= j < ms0.len() ==> ms1[j] == ms0[j],
        forall|j: int| ms0.len() <= j < ms1.len() ==> (#[trigger] ms1[j]).is_vacant(),
    ensures
        slots_seq(ms1.skip(at)) == slots_seq(ms0.skip(at)),
        ms1.take(at) == ms0.take(at),
{
    assert(ms1.take(at) =~= ms0.take(at));
    assert(ms1.skip(at) =~= ms0.skip(at) + ms1.skip(ms0.len() as int));
    assert forall|j: int| 0 <= j < ms1.skip(ms0.len() as int).len() implies (#[trigger] ms1.skip(
        ms0.len() as int,
    )[j]).is_vacant() by {
        assert(ms1.skip(ms0.len() as int)[j] == ms1[j + ms0.len()]);
    }
    lemma_slots_all_vacant(ms1.skip(ms0.len() as int));
    lemma_slots_concat(ms0.skip(at), ms1.skip(ms0.len() as int));
    assert(slots_seq(ms1.skip(at)) =~= slots_seq(ms0.skip(at)));
}

/// After updating layer `at`, the layer batches split around the new layer's
/// contribution, with everything else unchanged.
proof fn lemma_assemble<T: Lattice>(ms2: Seq<MergeState<T>>, ms3: Seq<MergeState<T>>, at: int)
    requires
        0 <= at < ms3.len(),
        ms3.len() == ms2.len(),
        forall|j: int| 0 <= j < ms3.len() && j != at ==> ms3[j] == ms2[j],
    ensures
        slots_seq(ms3) == slots_seq(ms2.skip(at + 1)) + slot_batches(ms3[at]) + slots_seq(
            ms2.take(at),
        ),
        slots_seq(ms2.skip(at)) == slots_seq(ms2.skip(at + 1)) + slot_batches(ms2[at]),
{
    lemma_slots_split(ms3, at);
    assert(ms3.skip(at + 1) =~= ms2.skip(at + 1));
    assert(ms3.take(at) =~= ms2.take(at));
    lemma_slots_skip_one(ms2, at);
}

/// A batch option stands in for itself.
proof fn lemma_opt_span_refl<T: Lattice>(b: Option<Batch<T>>, af: Seq<T>)
    requires
        b matches Some(bb) ==> bb.wf(),
    ensures
        span_eqv(opt_seq(b), opt_seq(b), af),
{
    match b {
        Some(bb) => {
            lemma_flat_one(bb);
        },
        None => {
        },
    }
    lemma_total_abs_nonneg(flat(opt_seq(b)));
}

} // verus!
