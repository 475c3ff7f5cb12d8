//! Weighted update records and the multiset semantics of a trace.
//!
//! An update `(key, val, time, diff)` changes the weight of `(key, val)` by
//! `diff` at every query time greater or equal to `time`. The state a reader
//! observes at a query time `q` is the sum of the diffs of all updates whose
//! time lies at or below `q`; the spec function `weight` expresses that sum,
//! and every batch, merge and trace contract in this crate is stated over it.

use vstd::prelude::*;
use crate::lattice::{
    advance, advance_by, in_closure, lemma_advance_idempotent, lemma_advance_semantics, lat_eq,
    Lattice,
};

verus! {

/// A weighted change: `diff` copies of `(key, val)` appear at `time`.
#[derive(Clone, Copy, Debug)]
pub struct Update<T> {
    /// The key of the changed pair.
    pub key: u64,
    /// The value of the changed pair.
    pub val: u64,
    /// The logical time at which the change takes effect.
    pub time: T,
    /// The signed multiplicity of the change; never zero in a batch.
    pub diff: i64,
}

/// Whether two updates address the same `(key, val, time)` triple.
pub open spec fn kvt_eq<T: Lattice>(a: Update<T>, b: Update<T>) -> bool {
    a.key == b.key && a.val == b.val && a.time == b.time
}

/// The sorting order of update records: by key, then value, then time in the
/// total sorting order of the time type.
pub open spec fn kvt_le<T: Lattice>(a: Update<T>, b: Update<T>) -> bool {
    if a.key != b.key {
        a.key < b.key
    } else if a.val != b.val {
        a.val < b.val
    } else {
        a.time.tle(b.time)
    }
}

/// The strict sorting order of update records.
pub open spec fn kvt_lt<T: Lattice>(a: Update<T>, b: Update<T>) -> bool {
    kvt_le(a, b) && !kvt_eq(a, b)
}

/// The record order is a total order whose equivalence is triple equality.
pub proof fn lemma_kvt_order<T: Lattice>(a: Update<T>, b: Update<T>, c: Update<T>)
    ensures
        kvt_le(a, b) && kvt_le(b, c) ==> kvt_le(a, c),
        kvt_lt(a, b) && kvt_lt(b, c) ==> kvt_lt(a, c),
        kvt_le(a, b) || kvt_le(b, a),
        kvt_le(a, b) && kvt_le(b, a) ==> kvt_eq(a, b),
        kvt_eq(a, b) ==> kvt_le(a, b) && kvt_le(b, a),
{
    T::lemma_refl(a.time);
    T::lemma_refl(b.time);
    T::lemma_trans(a.time, b.time, c.time);
    T::lemma_trans(b.time, a.time, c.time);
    T::lemma_trans(c.time, a.time, b.time);
    T::lemma_antisym(a.time, b.time);
    T::lemma_antisym(b.time, c.time);
    T::lemma_antisym(a.time, c.time);
    T::lemma_total(a.time, b.time);
}

/// Decides the strict order and the triple equality of two records at once:
/// the first component of the result is "strictly before", the second is
/// "same triple".
pub fn kvt_cmp<T: Lattice>(a: &Update<T>, b: &Update<T>) -> (r: (bool, bool))
    ensures
        r.0 == kvt_lt(*a, *b),
        r.1 == kvt_eq(*a, *b),
{
    proof {
        T::lemma_refl(a.time);
        T::lemma_antisym(a.time, b.time);
    }
    if a.key != b.key {
        (a.key < b.key, false)
    } else if a.val != b.val {
        (a.val < b.val, false)
    } else if lat_eq(&a.time, &b.time) {
        (false, true)
    } else {
        (a.time.total_le(&b.time), false)
    }
}

/// Whether a record sequence is strictly sorted by `(key, val, time)`.
pub open spec fn sorted<T: Lattice>(s: Seq<Update<T>>) -> bool {
    forall|i: int, j: int| 0 <= i < j < s.len() ==> kvt_lt(#[trigger] s[i], #[trigger] s[j])
}

/// Whether no record of the sequence carries a zero diff.
pub open spec fn nonzero<T: Lattice>(s: Seq<Update<T>>) -> bool {
    forall|i: int| 0 <= i < s.len() ==> (#[trigger] s[i]).diff != 0
}

/// The canonical form of batch contents: strictly sorted, no zero diffs, so
/// every `(key, val, time)` triple appears at most once.
pub open spec fn canonical<T: Lattice>(s: Seq<Update<T>>) -> bool {
    sorted(s) && nonzero(s)
}

/// What one update adds to the weight of `(k, v)` visible at query time `q`.
pub open spec fn gain<T: Lattice>(u: Update<T>, k: u64, v: u64, q: T) -> int {
    if u.key == k && u.val == v && u.time.lle(q) {
        u.diff as int
    } else {
        0
    }
}

/// The weight of `(k, v)` visible at query time `q`: the sum of the diffs of
/// all updates of `(k, v)` at times at or below `q`. This is the multiset
/// semantics of a collection of updates.
pub open spec fn weight<T: Lattice>(s: Seq<Update<T>>, k: u64, v: u64, q: T) -> int
    decreases s.len(),
{
    if s.len() == 0 {
        0
    } else {
        weight(s.drop_last(), k, v, q) + gain(s.last(), k, v, q)
    }
}

/// What one update adds to the accumulated diff of an exact triple.
pub open spec fn tgain<T: Lattice>(u: Update<T>, k: u64, v: u64, t: T) -> int {
    if u.key == k && u.val == v && u.time == t {
        u.diff as int
    } else {
        0
    }
}

/// The accumulated diff of the exact triple `(k, v, t)` over a sequence.
pub open spec fn triple_sum<T: Lattice>(s: Seq<Update<T>>, k: u64, v: u64, t: T) -> int
    decreases s.len(),
{
    if s.len() == 0 {
        0
    } else {
        triple_sum(s.drop_last(), k, v, t) + tgain(s.last(), k, v, t)
    }
}

/// The sum of the magnitudes of all diffs, bounding every partial sum.
pub open spec fn total_abs<T: Lattice>(s: Seq<Update<T>>) -> int
    decreases s.len(),
{
    if s.len() == 0 {
        0
    } else {
        total_abs(s.drop_last()) + if s.last().diff < 0 {
            -(s.last().diff as int)
        } else {
            s.last().diff as int
        }
    }
}

/// Whether some record of the sequence addresses the triple `(k, v, t)`.
pub open spec fn has_triple<T: Lattice>(s: Seq<Update<T>>, k: u64, v: u64, t: T) -> bool {
    exists|i: int|
        0 <= i < s.len() && (#[trigger] s[i]).key == k && s[i].val == v && s[i].time == t
}

/// All three sums split over concatenation.
pub proof fn lemma_sums_concat<T: Lattice>(s1: Seq<Update<T>>, s2: Seq<Update<T>>, k: u64, v: u64, q: T)
    ensures
        weight(s1 + s2, k, v, q) == weight(s1, k, v, q) + weight(s2, k, v, q),
        triple_sum(s1 + s2, k, v, q) == triple_sum(s1, k, v, q) + triple_sum(s2, k, v, q),
        total_abs(s1 + s2) == total_abs(s1) + total_abs(s2),
    decreases s2.len(),
{
    if s2.len() == 0 {
        assert(s1 + s2 =~= s1);
    } else {
        assert((s1 + s2).drop_last() =~= s1 + s2.drop_last());
        assert((s1 + s2).last() == s2.last());
        lemma_sums_concat(s1, s2.drop_last(), k, v, q);
    }
}

/// All three sums extend over a push.
pub proof fn lemma_sums_push<T: Lattice>(s: Seq<Update<T>>, u: Update<T>, k: u64, v: u64, q: T)
    ensures
        weight(s.push(u), k, v, q) == weight(s, k, v, q) + gain(u, k, v, q),
        triple_sum(s.push(u), k, v, q) == triple_sum(s, k, v, q) + tgain(u, k, v, q),
        total_abs(s.push(u)) == total_abs(s) + if u.diff < 0 {
            -(u.diff as int)
        } else {
            u.diff as int
        },
{
    assert(s.push(u).drop_last() =~= s);
    assert(s.push(u).last() == u);
}

/// All three sums on a one-record sequence.
pub proof fn lemma_sums_one<T: Lattice>(u: Update<T>, k: u64, v: u64, q: T)
    ensures
        weight(seq![u], k, v, q) == gain(u, k, v, q),
        triple_sum(seq![u], k, v, q) == tgain(u, k, v, q),
        total_abs(seq![u]) == if u.diff < 0 {
            -(u.diff as int)
        } else {
            u.diff as int
        },
{
    assert(seq![u].drop_last() =~= Seq::<Update<T>>::empty());
    assert(weight(Seq::<Update<T>>::empty(), k, v, q) == 0);
    assert(triple_sum(Seq::<Update<T>>::empty(), k, v, q) == 0);
    assert(total_abs(Seq::<Update<T>>::empty()) == 0);
}

/// The magnitude of an accumulated triple sum is bounded by the total
/// magnitude of the sequence, and so is each single diff.
pub proof fn lemma_triple_sum_bound<T: Lattice>(s: Seq<Update<T>>, k: u64, v: u64, t: T)
    ensures
        total_abs(s) >= 0,
        triple_sum(s, k, v, t) <= total_abs(s),
        -triple_sum(s, k, v, t) <= total_abs(s),
    decreases s.len(),
{
    if s.len() > 0 {
        lemma_triple_sum_bound(s.drop_last(), k, v, t);
    }
}

/// Total magnitudes are never negative.
pub proof fn lemma_total_abs_nonneg<T: Lattice>(s: Seq<Update<T>>)
    ensures
        total_abs(s) >= 0,
    decreases s.len(),
{
    if s.len() > 0 {
        lemma_total_abs_nonneg(s.drop_last());
    }
}

/// A visible weight is bounded in magnitude by the total magnitude.
pub proof fn lemma_weight_bound<T: Lattice>(s: Seq<Update<T>>, k: u64, v: u64, q: T)
    ensures
        weight(s, k, v, q) <= total_abs(s),
        -weight(s, k, v, q) <= total_abs(s),
    decreases s.len(),
{
    if s.len() > 0 {
        lemma_weight_bound(s.drop_last(), k, v, q);
    }
}

/// A pair with a visible weight occurs in the sequence.
pub proof fn lemma_weight_has_val<T: Lattice>(s: Seq<Update<T>>, k: u64, v: u64, q: T)
    requires
        weight(s, k, v, q) != 0,
    ensures
        exists|i: int| 0 <= i < s.len() && (#[trigger] s[i]).key == k && s[i].val == v,
    decreases s.len(),
{
    if s.len() > 0 {
        if gain(s.last(), k, v, q) != 0 {
            assert(s[s.len() - 1].key == k && s[s.len() - 1].val == v);
        } else {
            lemma_weight_has_val(s.drop_last(), k, v, q);
            let i = choose|i: int|
                0 <= i < s.drop_last().len() && (#[trigger] s.drop_last()[i]).key == k
                    && s.drop_last()[i].val == v;
            assert(s[i].key == k && s[i].val == v);
        }
    }
}

/// Every single diff is bounded in magnitude by the total magnitude.
pub proof fn lemma_diff_bound<T: Lattice>(s: Seq<Update<T>>, i: int)
    requires
        0 <= i < s.len(),
    ensures
        s[i].diff <= total_abs(s),
        -(s[i].diff as int) <= total_abs(s),
    decreases s.len(),
{
    lemma_total_abs_nonneg(s.drop_last());
    if i == s.len() - 1 {
    } else {
        lemma_diff_bound(s.drop_last(), i);
        assert(s.drop_last()[i] == s[i]);
    }
}

/// A prefix of a sequence has no more total magnitude than the whole.
pub proof fn lemma_total_abs_prefix<T: Lattice>(s: Seq<Update<T>>, i: int)
    requires
        0 <= i <= s.len(),
    ensures
        total_abs(s.take(i)) <= total_abs(s),
        total_abs(s.take(i)) >= 0,
    decreases s.len() - i,
{
    lemma_total_abs_nonneg(s.take(i));
    if i == s.len() {
        assert(s.take(i) =~= s);
    } else {
        lemma_total_abs_prefix(s, i + 1);
        assert(s.take(i + 1).drop_last() =~= s.take(i));
        assert(total_abs(s.take(i)) <= total_abs(s.take(i + 1)));
    }
}

/// The record with its time advanced by a compaction frontier.
pub open spec fn advance_upd<T: Lattice>(u: Update<T>, fs: Seq<T>) -> Update<T> {
    Update { key: u.key, val: u.val, time: advance(u.time, fs), diff: u.diff }
}

/// The sequence with every time advanced by a compaction frontier.
pub open spec fn advance_upds<T: Lattice>(s: Seq<Update<T>>, fs: Seq<T>) -> Seq<Update<T>> {
    Seq::new(s.len(), |i: int| advance_upd(s[i], fs))
}

/// Advancing times changes no weight visible at a query time in the upward
/// closure of the frontier, and no total magnitude at all.
pub proof fn lemma_weight_advanced<T: Lattice>(s: Seq<Update<T>>, fs: Seq<T>, k: u64, v: u64, q: T)
    ensures
        in_closure(q, fs) ==> weight(advance_upds(s, fs), k, v, q) == weight(s, k, v, q),
        total_abs(advance_upds(s, fs)) == total_abs(s),
    decreases s.len(),
{
    if s.len() > 0 {
        lemma_weight_advanced(s.drop_last(), fs, k, v, q);
        assert(advance_upds(s, fs).drop_last() =~= advance_upds(s.drop_last(), fs));
        assert(advance_upds(s, fs).last() == advance_upd(s.last(), fs));
        if in_closure(q, fs) {
            lemma_advance_semantics(s.last().time, fs, q);
        }
    }
}

/// A triple whose accumulated diff is not zero occurs in the sequence.
pub proof fn lemma_nonzero_sum_has_triple<T: Lattice>(s: Seq<Update<T>>, k: u64, v: u64, t: T)
    requires
        triple_sum(s, k, v, t) != 0,
    ensures
        has_triple(s, k, v, t),
    decreases s.len(),
{
    if s.len() > 0 {
        if tgain(s.last(), k, v, t) != 0 {
            assert(s[s.len() - 1].key == k && s[s.len() - 1].val == v && s[s.len() - 1].time == t);
        } else {
            lemma_nonzero_sum_has_triple(s.drop_last(), k, v, t);
            let i = choose|i: int|
                0 <= i < s.drop_last().len() && (#[trigger] s.drop_last()[i]).key == k
                    && s.drop_last()[i].val == v && s.drop_last()[i].time == t;
            assert(s[i].key == k && s[i].val == v && s[i].time == t);
        }
    }
}

/// Whether every time of the sequence is already fully advanced by `fs`.
pub open spec fn times_advanced<T: Lattice>(s: Seq<Update<T>>, fs: Seq<T>) -> bool {
    forall|i: int| 0 <= i < s.len() ==> (#[trigger] s[i]).time == advance(s[i].time, fs)
}

/// The invariant of progressive compaction: the staged output `s` is
/// canonical, carries exactly the weights of everything processed so far
/// (`p`), accumulates each triple's diffs exactly, holds no triple that sums
/// to zero, and has no more total magnitude than its input.
pub open spec fn compact_inv<T: Lattice>(s: Seq<Update<T>>, p: Seq<Update<T>>) -> bool {
    &&& canonical(s)
    &&& forall|k: u64, v: u64, q: T| #[trigger] weight(s, k, v, q) == weight(p, k, v, q)
    &&& forall|i: int|
        0 <= i < s.len() ==> (#[trigger] s[i]).diff as int == triple_sum(
            p,
            s[i].key,
            s[i].val,
            s[i].time,
        )
    &&& forall|k: u64, v: u64, t: T|
        !has_triple(s, k, v, t) ==> #[trigger] triple_sum(p, k, v, t) == 0
    &&& total_abs(s) <= total_abs(p)
}

/// Absorbs one more record into a staged compaction, keeping the staged
/// sequence canonical: the record is inserted in sorted position, its diff is
/// folded into an existing record of the same triple, and a triple whose
/// accumulated diff cancels to zero is dropped.
pub fn compact_step<T: Lattice>(
    staged: Vec<Update<T>>,
    u: Update<T>,
    Ghost(p): Ghost<Seq<Update<T>>>,
) -> (out: Vec<Update<T>>)
    requires
        compact_inv(staged@, p),
        u.diff != 0,
        total_abs(p) + (if u.diff < 0 {
            -(u.diff as int)
        } else {
            u.diff as int
        }) <= 0x7fff_ffff_ffff_ffff,
    ensures
        compact_inv(out@, p.push(u)),
{
    let ghost s = staged@;
    let n = staged.len();
    // Find the insertion point: the count of records strictly before `u`.
    let mut i: usize = 0;
    loop
        invariant
            0 <= i <= n,
            n == s.len(),
            staged@ == s,
            forall|jj: int| 0 <= jj < i ==> kvt_lt(#[trigger] s[jj], u),
        ensures
            0 <= i <= n,
            forall|jj: int| 0 <= jj < i ==> kvt_lt(#[trigger] s[jj], u),
            i < n ==> !kvt_lt(s[i as int], u),
        decreases n - i,
    {
        if i >= n {
            break ;
        }
        let (lt, _eq) = kvt_cmp(&staged[i], &u);
        if !lt {
            break ;
        }
        i = i + 1;
    }
    // Copy the strict predecessors.
    let mut out: Vec<Update<T>> = Vec::new();
    let mut j: usize = 0;
    while j < i
        invariant
            0 <= j <= i <= n,
            n == s.len(),
            staged@ == s,
            out@ == s.take(j as int),
        decreases i - j,
    {
        out.push(staged[j]);
        proof {
            assert(s.take(j + 1) =~= s.take(j as int).push(s[j as int]));
        }
        j = j + 1;
    }
    // Fold `u` in: coalesce with an equal triple, or insert it.
    let ghost mid: Seq<Update<T>>;
    let rest_from: usize;
    let same = if i < n {
        let (_lt, eq) = kvt_cmp(&staged[i], &u);
        eq
    } else {
        false
    };
    if same {
        proof {
            // The diff of the matched record is the accumulated sum of its
            // triple, which the overflow bound covers.
            lemma_triple_sum_bound(p, u.key, u.val, u.time);
        }
        let d = staged[i].diff + u.diff;
        if d != 0 {
            out.push(
                Update { key: staged[i].key, val: staged[i].val, time: staged[i].time, diff: d },
            );
            proof {
                mid = seq![Update { key: s[i as int].key, val: s[i as int].val, time: s[i as int].time, diff: d as i64 }];
            }
        } else {
            proof {
                mid = Seq::empty();
            }
        }
        rest_from = i + 1;
    } else {
        out.push(u);
        proof {
            mid = seq![u];
        }
        rest_from = i;
    }
    let ghost out_mid = out@;
    proof {
        assert(out_mid =~= s.take(i as int) + mid);
    }
    // Copy the strict successors.
    let mut j2: usize = rest_from;
    while j2 < n
        invariant
            rest_from <= j2 <= n || (rest_from > n && j2 == rest_from),
            rest_from <= n + 1,
            j2 <= n,
            n == s.len(),
            staged@ == s,
            out@ == out_mid + s.subrange(rest_from as int, j2 as int),
        decreases n - j2,
    {
        out.push(staged[j2]);
        proof {
            assert(s.subrange(rest_from as int, j2 + 1) =~= s.subrange(
                rest_from as int,
                j2 as int,
            ).push(s[j2 as int]));
        }
        j2 = j2 + 1;
    }
    proof {
        let tail = s.subrange(rest_from as int, n as int);
        assert(out@ == s.take(i as int) + mid + tail);
        lemma_compact_step_correct(s, p, u, i as int, mid, rest_from as int);
    }
    out
}

/// The correctness argument of `compact_step`, carried out over the three
/// sequence segments that the executable code assembles.
proof fn lemma_compact_step_correct<T: Lattice>(
    s: Seq<Update<T>>,
    p: Seq<Update<T>>,
    u: Update<T>,
    i: int,
    mid: Seq<Update<T>>,
    rest_from: int,
)
    requires
        compact_inv(s, p),
        u.diff != 0,
        0 <= i <= s.len(),
        forall|jj: int| 0 <= jj < i ==> kvt_lt(#[trigger] s[jj], u),
        i < s.len() ==> !kvt_lt(s[i], u),
        // Either `u` coalesced with `s[i]` ...
        (i < s.len() && kvt_eq(s[i], u) && rest_from == i + 1 && (if s[i].diff + u.diff == 0 {
            mid =~= Seq::<Update<T>>::empty()
        } else {
            mid =~= seq![Update { key: s[i].key, val: s[i].val, time: s[i].time, diff: (s[i].diff + u.diff) as i64 }]
                && s[i].diff + u.diff == (s[i].diff + u.diff) as i64
        }))
        // ... or it was inserted before `s[i]`.
        || ((i >= s.len() || !kvt_eq(s[i], u)) && rest_from == i && mid =~= seq![u]),
    ensures
        compact_inv(s.take(i) + mid + s.subrange(rest_from, s.len() as int), p.push(u)),
{
    let pre = s.take(i);
    let tail = s.subrange(rest_from, s.len() as int);
    let out = pre + mid + tail;
    let p2 = p.push(u);
    // Relate every record of the three segments back to `s` and `u`.
    assert forall|a: int, b: int| 0 <= a < b < out.len() implies kvt_lt(
        #[trigger] out[a],
        #[trigger] out[b],
    ) by {
        lemma_out_order(s, u, i, mid, rest_from, a, b);
    }
    assert(nonzero(out)) by {
        assert forall|a: int| 0 <= a < out.len() implies (#[trigger] out[a]).diff != 0 by {
            if a < pre.len() {
                assert(out[a] == s[a]);
            } else if a < pre.len() + mid.len() {
                assert(out[a] == mid[a - pre.len()]);
            } else {
                assert(out[a] == tail[a - pre.len() - mid.len()]);
                assert(tail[a - pre.len() - mid.len()] == s[a - pre.len() - mid.len()
                    + rest_from]);
            }
        }
    }
    // Weights.
    assert forall|k: u64, v: u64, q: T| #[trigger] weight(out, k, v, q) == weight(p2, k, v, q) by {
        lemma_sums_concat(pre + mid, tail, k, v, q);
        lemma_sums_concat(pre, mid, k, v, q);
        lemma_sums_push(p, u, k, v, q);
        // Decompose s itself around position i.
        assert(s =~= pre + s.subrange(i, s.len() as int));
        lemma_sums_concat(pre, s.subrange(i, s.len() as int), k, v, q);
        if rest_from == i + 1 {
            assert(s.subrange(i, s.len() as int) =~= seq![s[i]] + tail);
            lemma_sums_concat(seq![s[i]], tail, k, v, q);
            lemma_sums_one(s[i], k, v, q);
            if s[i].diff + u.diff == 0 {
                assert(weight(mid, k, v, q) == 0);
                assert(gain(s[i], k, v, q) + gain(u, k, v, q) == 0);
            } else {
                let m = mid[0];
                assert(mid =~= seq![m]);
                lemma_sums_one(m, k, v, q);
                assert(gain(m, k, v, q) == gain(s[i], k, v, q) + gain(u, k, v, q));
            }
        } else {
            assert(s.subrange(i, s.len() as int) =~= tail);
            assert(mid =~= seq![u]);
            lemma_sums_one(u, k, v, q);
        }
    }
    // Per-record accumulated diffs, and absence of cancelled triples.
    assert forall|a: int| 0 <= a < out.len() implies (#[trigger] out[a]).diff as int == triple_sum(
        p2,
        out[a].key,
        out[a].val,
        out[a].time,
    ) by {
        lemma_triple_sum_p2(s, p, u, i, mid, rest_from, a);
    }
    assert forall|k: u64, v: u64, t: T| !has_triple(out, k, v, t) implies #[trigger] triple_sum(
        p2,
        k,
        v,
        t,
    ) == 0 by {
        lemma_absent_p2(s, p, u, i, mid, rest_from, k, v, t);
    }
    // Total magnitude.
    assert(total_abs(out) <= total_abs(p2)) by {
        lemma_sums_concat(pre + mid, tail, 0, 0, u.time);
        lemma_sums_concat(pre, mid, 0, 0, u.time);
        lemma_sums_push(p, u, 0, 0, u.time);
        assert(s =~= pre + s.subrange(i, s.len() as int));
        lemma_sums_concat(pre, s.subrange(i, s.len() as int), 0, 0, u.time);
        if rest_from == i + 1 {
            assert(s.subrange(i, s.len() as int) =~= seq![s[i]] + tail);
            lemma_sums_concat(seq![s[i]], tail, 0, 0, u.time);
            lemma_sums_one(s[i], 0, 0, u.time);
            if s[i].diff + u.diff != 0 {
                let m = mid[0];
                assert(mid =~= seq![m]);
                lemma_sums_one(m, 0, 0, u.time);
            }
        } else {
            assert(s.subrange(i, s.len() as int) =~= tail);
            assert(mid =~= seq![u]);
            lemma_sums_one(u, 0, 0, u.time);
        }
    }
}

/// Order of the assembled output of one compaction step.
proof fn lemma_out_order<T: Lattice>(
    s: Seq<Update<T>>,
    u: Update<T>,
    i: int,
    mid: Seq<Update<T>>,
    rest_from: int,
    a: int,
    b: int,
)
    requires
        sorted(s),
        0 <= i <= s.len(),
        i <= rest_from <= s.len(),
        rest_from <= i + 1,
        forall|jj: int| 0 <= jj < i ==> kvt_lt(#[trigger] s[jj], u),
        i < s.len() ==> !kvt_lt(s[i], u),
        mid.len() <= 1,
        mid.len() == 1 ==> mid[0].key == u.key && mid[0].val == u.val && mid[0].time == u.time,
        rest_from == i ==> i < s.len() ==> !kvt_eq(s[i], u),
        rest_from == i + 1 ==> i < s.len() && kvt_eq(s[i], u),
        0 <= a < b < (s.take(i) + mid + s.subrange(rest_from, s.len() as int)).len(),
    ensures
        kvt_lt(
            (s.take(i) + mid + s.subrange(rest_from, s.len() as int))[a],
            (s.take(i) + mid + s.subrange(rest_from, s.len() as int))[b],
        ),
{
    let pre = s.take(i);
    let tail = s.subrange(rest_from, s.len() as int);
    let out = pre + mid + tail;
    let la = out[a];
    let lb = out[b];
    // Identify each position with its source record.
    if a < i {
        assert(la == s[a]);
    } else if a < i + mid.len() {
        assert(la == mid[a - i]);
    } else {
        assert(la == s[a - i - mid.len() + rest_from]);
    }
    if b < i {
        assert(lb == s[b]);
    } else if b < i + mid.len() {
        assert(lb == mid[b - i]);
    } else {
        assert(lb == s[b - i - mid.len() + rest_from]);
    }
    // `u` (and so `mid[0]`) sits strictly between the segments.
    if i < s.len() && !kvt_lt(s[i], u) {
        lemma_kvt_order(s[i], u, u);
        if !kvt_eq(s[i], u) {
            assert(kvt_lt(u, s[i]));
        }
    }
    assert forall|jj: int| rest_from <= jj < s.len() implies kvt_lt(u, #[trigger] s[jj]) by {
        lemma_kvt_order(u, s[i], s[jj]);
        if rest_from == i {
            assert(kvt_lt(u, s[i]));
            if jj > i {
                assert(kvt_lt(s[i], s[jj]));
                lemma_kvt_order(u, s[i], s[jj]);
            }
        } else {
            // u coalesced with s[i]; jj > i so s[i] before s[jj], and u shares
            // the triple of s[i].
            assert(kvt_lt(s[i], s[jj]));
            lemma_kvt_order(s[i], u, u);
            assert(kvt_eq(s[i], u));
            assert(kvt_le(u, s[i]));
            lemma_kvt_order(u, s[i], s[jj]);
        }
    }
    // mid[0] has the same triple as u, so it compares like u.
    if mid.len() == 1 {
        let m = mid[0];
        assert(kvt_eq(m, u));
        lemma_kvt_order(m, u, u);
        assert forall|jj: int| 0 <= jj < i implies kvt_lt(#[trigger] s[jj], m) by {
            lemma_kvt_order(s[jj], u, m);
            lemma_kvt_order(u, m, m);
            lemma_kvt_order(m, u, s[jj]);
            assert(kvt_le(u, m) && kvt_le(m, u));
            if kvt_eq(s[jj], m) {
                lemma_kvt_order(s[jj], m, u);
                assert(kvt_le(m, u));
                lemma_kvt_order(s[jj], m, u);
                assert(kvt_le(s[jj], m));
                lemma_kvt_order(s[jj], m, u);
            }
            // s[jj] < u and u == m as triples, so s[jj] < m.
            assert(kvt_le(s[jj], u));
            lemma_kvt_order(s[jj], u, m);
            assert(kvt_le(s[jj], m));
            if kvt_eq(s[jj], m) {
                assert(kvt_le(m, s[jj])) by { lemma_kvt_order(m, s[jj], s[jj]); }
                lemma_kvt_order(u, m, s[jj]);
                assert(kvt_le(u, s[jj]));
                lemma_kvt_order(s[jj], u, s[jj]);
                assert(kvt_eq(s[jj], u));
                assert(false);
            }
        }
        assert forall|jj: int| rest_from <= jj < s.len() implies kvt_lt(m, #[trigger] s[jj]) by {
            assert(kvt_lt(u, s[jj]));
            assert(kvt_le(m, u)) by { lemma_kvt_order(m, u, u); }
            lemma_kvt_order(m, u, s[jj]);
            assert(kvt_le(m, s[jj]));
            if kvt_eq(m, s[jj]) {
                assert(kvt_le(s[jj], m)) by { lemma_kvt_order(s[jj], m, m); }
                lemma_kvt_order(u, s[jj], m);
                assert(kvt_le(u, m));
                lemma_kvt_order(u, m, u);
                assert(kvt_lt(u, s[jj]) && kvt_le(s[jj], m) && kvt_le(m, u));
                lemma_kvt_order(u, s[jj], u);
                lemma_kvt_order(s[jj], m, u);
                assert(kvt_le(s[jj], u));
                assert(kvt_eq(u, s[jj]));
                assert(false);
            }
        }
    }
}

/// Accumulated diffs of the output records after pushing `u`.
proof fn lemma_triple_sum_p2<T: Lattice>(
    s: Seq<Update<T>>,
    p: Seq<Update<T>>,
    u: Update<T>,
    i: int,
    mid: Seq<Update<T>>,
    rest_from: int,
    a: int,
)
    requires
        compact_inv(s, p),
        u.diff != 0,
        0 <= i <= s.len(),
        forall|jj: int| 0 <= jj < i ==> kvt_lt(#[trigger] s[jj], u),
        i < s.len() ==> !kvt_lt(s[i], u),
        (i < s.len() && kvt_eq(s[i], u) && rest_from == i + 1 && (if s[i].diff + u.diff == 0 {
            mid =~= Seq::<Update<T>>::empty()
        } else {
            mid =~= seq![Update { key: s[i].key, val: s[i].val, time: s[i].time, diff: (s[i].diff + u.diff) as i64 }]
                && s[i].diff + u.diff == (s[i].diff + u.diff) as i64
        })) || ((i >= s.len() || !kvt_eq(s[i], u)) && rest_from == i && mid =~= seq![u]),
        0 <= a < (s.take(i) + mid + s.subrange(rest_from, s.len() as int)).len(),
    ensures
        ({
            let out = s.take(i) + mid + s.subrange(rest_from, s.len() as int);
            out[a].diff as int == triple_sum(p.push(u), out[a].key, out[a].val, out[a].time)
        }),
{
    let out = s.take(i) + mid + s.subrange(rest_from, s.len() as int);
    let r = out[a];
    lemma_sums_push(p, u, r.key, r.val, r.time);
    if a < i {
        assert(r == s[a]);
        // Strictly earlier records differ from u's triple.
        assert(kvt_lt(s[a], u));
        assert(tgain(u, r.key, r.val, r.time) == 0);
    } else if a < i + mid.len() {
        let m = mid[0];
        assert(r == m);
        if rest_from == i + 1 {
            // Coalesced: new diff is s[i].diff + u.diff.
            assert(r.key == s[i].key && r.val == s[i].val && r.time == s[i].time);
            assert(s[i].diff as int == triple_sum(p, s[i].key, s[i].val, s[i].time));
            assert(tgain(u, r.key, r.val, r.time) == u.diff as int);
        } else {
            // Inserted: u's triple was absent from s.
            assert(r == u);
            assert(!has_triple(s, u.key, u.val, u.time)) by {
                if has_triple(s, u.key, u.val, u.time) {
                    let w = choose|w: int|
                        0 <= w < s.len() && (#[trigger] s[w]).key == u.key && s[w].val == u.val
                            && s[w].time == u.time;
                    assert(kvt_eq(s[w], u));
                    lemma_kvt_order(s[w], u, u);
                    if w < i {
                        assert(kvt_lt(s[w], u));
                        assert(false);
                    } else if w == i {
                        assert(false);
                    } else {
                        assert(kvt_lt(u, s[w])) by {
                            if i < s.len() {
                                lemma_kvt_order(s[i], u, u);
                                assert(kvt_lt(u, s[i]));
                                lemma_kvt_order(u, s[i], s[w]);
                            }
                        }
                        assert(false);
                    }
                }
            }
            assert(triple_sum(p, u.key, u.val, u.time) == 0);
            assert(tgain(u, r.key, r.val, r.time) == u.diff as int);
        }
    } else {
        let jj = a - i - mid.len() + rest_from;
        assert(r == s[jj]);
        assert(rest_from <= jj < s.len());
        // Strictly later records differ from u's triple.
        assert(tgain(u, r.key, r.val, r.time) == 0) by {
            if r.key == u.key && r.val == u.val && r.time == u.time {
                assert(kvt_eq(s[jj], u));
                if rest_from == i + 1 {
                    assert(kvt_lt(s[i], s[jj]));
                    lemma_kvt_order(s[i], u, s[jj]);
                    lemma_kvt_order(s[jj], u, s[i]);
                    lemma_kvt_order(s[i], s[jj], u);
                    assert(kvt_eq(s[i], u));
                    // Two distinct records of s with equal triples contradict
                    // sortedness.
                    lemma_kvt_order(s[i], u, u);
                    lemma_kvt_order(u, s[jj], s[i]);
                    assert(kvt_le(s[i], u) && kvt_le(u, s[jj]));
                    assert(kvt_lt(s[i], s[jj]) && kvt_le(s[jj], u));
                    lemma_kvt_order(s[jj], u, s[i]);
                    lemma_kvt_order(u, s[i], s[jj]);
                    assert(false);
                } else {
                    if i < s.len() {
                        lemma_kvt_order(s[i], u, u);
                        assert(kvt_lt(u, s[i]));
                        if jj > i {
                            lemma_kvt_order(u, s[i], s[jj]);
                            assert(kvt_lt(u, s[jj]));
                        } else {
                            assert(jj == i);
                            assert(kvt_lt(u, s[jj]));
                        }
                        lemma_kvt_order(s[jj], u, u);
                        lemma_kvt_order(u, s[jj], u);
                        assert(false);
                    }
                }
            }
        }
    }
}

/// Triples absent from the output accumulate to zero after pushing `u`.
proof fn lemma_absent_p2<T: Lattice>(
    s: Seq<Update<T>>,
    p: Seq<Update<T>>,
    u: Update<T>,
    i: int,
    mid: Seq<Update<T>>,
    rest_from: int,
    k: u64,
    v: u64,
    t: T,
)
    requires
        compact_inv(s, p),
        u.diff != 0,
        0 <= i <= s.len(),
        forall|jj: int| 0 <= jj < i ==> kvt_lt(#[trigger] s[jj], u),
        i < s.len() ==> !kvt_lt(s[i], u),
        (i < s.len() && kvt_eq(s[i], u) && rest_from == i + 1 && (if s[i].diff + u.diff == 0 {
            mid =~= Seq::<Update<T>>::empty()
        } else {
            mid =~= seq![Update { key: s[i].key, val: s[i].val, time: s[i].time, diff: (s[i].diff + u.diff) as i64 }]
                && s[i].diff + u.diff == (s[i].diff + u.diff) as i64
        })) || ((i >= s.len() || !kvt_eq(s[i], u)) && rest_from == i && mid =~= seq![u]),
        !has_triple(s.take(i) + mid + s.subrange(rest_from, s.len() as int), k, v, t),
    ensures
        triple_sum(p.push(u), k, v, t) == 0,
{
    let out = s.take(i) + mid + s.subrange(rest_from, s.len() as int);
    lemma_sums_push(p, u, k, v, t);
    if k == u.key && v == u.val && t == u.time {
        // u's triple must have cancelled: mid is empty and s[i] matched.
        if rest_from == i + 1 {
            if s[i].diff + u.diff == 0 {
                assert(triple_sum(p, k, v, t) == s[i].diff as int);
            } else {
                let m = Update::<T> {
                    key: s[i].key,
                    val: s[i].val,
                    time: s[i].time,
                    diff: (s[i].diff + u.diff) as i64,
                };
                assert(out[i] == m);
                assert(has_triple(out, k, v, t));
                assert(false);
            }
        } else {
            assert(out[i] == u);
            assert(has_triple(out, k, v, t));
            assert(false);
        }
    } else {
        // The triple is untouched; it must already be absent from s.
        assert(tgain(u, k, v, t) == 0);
        assert(!has_triple(s, k, v, t)) by {
            if has_triple(s, k, v, t) {
                let w = choose|w: int|
                    0 <= w < s.len() && (#[trigger] s[w]).key == k && s[w].val == v && s[w].time
                        == t;
                if w < i {
                    assert(out[w] == s[w]);
                    assert(has_triple(out, k, v, t));
                } else if w >= rest_from {
                    assert(out[w - rest_from + i + mid.len()] == s[w]);
                    assert(has_triple(out, k, v, t));
                } else {
                    // w == i and rest_from == i + 1: s[i] shares u's triple,
                    // contradicting the triple being different from u's.
                    assert(w == i && rest_from == i + 1);
                    assert(kvt_eq(s[i], u));
                    assert(false);
                }
                assert(false);
            }
        }
    }
}

/// A compacted sequence over advanced input consists of advanced times only:
/// compaction never invents a time, and advancing is idempotent.
pub proof fn lemma_compact_times_advanced<T: Lattice>(
    s: Seq<Update<T>>,
    orig: Seq<Update<T>>,
    fs: Seq<T>,
)
    requires
        compact_inv(s, advance_upds(orig, fs)),
    ensures
        times_advanced(s, fs),
{
    let p = advance_upds(orig, fs);
    assert forall|i: int| 0 <= i < s.len() implies (#[trigger] s[i]).time == advance(
        s[i].time,
        fs,
    ) by {
        assert(s[i].diff != 0);
        assert(s[i].diff as int == triple_sum(p, s[i].key, s[i].val, s[i].time));
        lemma_nonzero_sum_has_triple(p, s[i].key, s[i].val, s[i].time);
        let w = choose|w: int|
            0 <= w < p.len() && (#[trigger] p[w]).key == s[i].key && p[w].val == s[i].val
                && p[w].time == s[i].time;
        assert(p[w].time == advance(orig[w].time, fs));
        lemma_advance_idempotent(orig[w].time, fs);
    }
}

/// Compacts a sequence of updates against a frontier in one pass: every time
/// is advanced by `since`, records of an equal resulting triple are
/// coalesced, and triples whose diffs cancel are dropped. The result is
/// canonical and carries, at every query time in the upward closure of
/// `since`, exactly the weights of the input.
pub fn compact<T: Lattice>(input: &Vec<Update<T>>, since: &Vec<T>) -> (out: Vec<Update<T>>)
    requires
        total_abs(input@) <= 0x7fff_ffff_ffff_ffff,
    ensures
        compact_inv(out@, advance_upds(input@, since@)),
{
    let mut out: Vec<Update<T>> = Vec::new();
    let mut i: usize = 0;
    proof {
        assert(advance_upds(input@.take(0), since@) =~= Seq::<Update<T>>::empty());
    }
    while i < input.len()
        invariant
            0 <= i <= input@.len(),
            total_abs(input@) <= 0x7fff_ffff_ffff_ffff,
            compact_inv(out@, advance_upds(input@.take(i as int), since@)),
        decreases input@.len() - i,
    {
        let u = input[i];
        let t2 = advance_by(&u.time, since);
        let au = Update { key: u.key, val: u.val, time: t2, diff: u.diff };
        let ghost p = advance_upds(input@.take(i as int), since@);
        proof {
            assert(au == advance_upd(input@[i as int], since@));
            assert(advance_upds(input@.take(i + 1), since@) =~= p.push(au));
            // The next partial magnitude still fits.
            lemma_weight_advanced(input@.take(i as int), since@, 0, 0, u.time);
            assert(input@.take(i + 1).drop_last() =~= input@.take(i as int));
            lemma_total_abs_prefix(input@, i + 1);
            assert(total_abs(input@.take(i as int)) + (if u.diff < 0 {
                -(u.diff as int)
            } else {
                u.diff as int
            }) == total_abs(input@.take(i + 1)));
        }
        if u.diff != 0 {
            out = compact_step(out, au, Ghost(p));
        } else {
            proof {
                assert forall|k: u64, v: u64, q: T| #[trigger] weight(out@, k, v, q) == weight(
                    p.push(au),
                    k,
                    v,
                    q,
                ) by {
                    lemma_sums_push(p, au, k, v, q);
                }
                assert forall|a: int| 0 <= a < out@.len() implies (#[trigger] out@[a]).diff
                    as int == triple_sum(p.push(au), out@[a].key, out@[a].val, out@[a].time) by {
                    lemma_sums_push(p, au, out@[a].key, out@[a].val, out@[a].time);
                }
                assert forall|k: u64, v: u64, t: T| !has_triple(out@, k, v, t)
                    implies #[trigger] triple_sum(p.push(au), k, v, t) == 0 by {
                    lemma_sums_push(p, au, k, v, t);
                }
                lemma_sums_push(p, au, 0, 0, u.time);
            }
        }
        i = i + 1;
    }
    proof {
        assert(input@.take(input@.len() as int) =~= input@);
    }
    out
}

} // verus!
