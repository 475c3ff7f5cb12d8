//! The core of grouped reduction: reconciling a key's recorded output with
//! a freshly computed one.
//!
//! A grouping operator keeps, per key, the weighted values it has already
//! output. When new input arrives it recomputes the desired values and must
//! emit exactly the difference: the new values minus the recorded ones,
//! coalesced so that equal values combine and cancelled values disappear.

use vstd::prelude::*;
use crate::lattice::{advance, Lattice};
use crate::update::{
    compact, compact_inv, lemma_nonzero_sum_has_triple, total_abs, weight, Update,
};

verus! {

/// The summed weight of one value in a list of weighted values.
pub open spec fn vsum(s: Seq<(u64, i64)>, v: u64) -> int
    decreases s.len(),
{
    if s.len() == 0 {
        0
    } else {
        vsum(s.drop_last(), v) + if s.last().0 == v {
            s.last().1 as int
        } else {
            0
        }
    }
}

/// The summed magnitude of the weights, bounding every partial sum.
pub open spec fn pair_abs(s: Seq<(u64, i64)>) -> int
    decreases s.len(),
{
    if s.len() == 0 {
        0
    } else {
        pair_abs(s.drop_last()) + if s.last().1 < 0 {
            -(s.last().1 as int)
        } else {
            s.last().1 as int
        }
    }
}

/// A weighted value as an update record of the trivial lattice: the value as
/// key, at the smallest time.
pub open spec fn pair_upd(p: (u64, i64)) -> Update<u64> {
    Update { key: p.0, val: 0u64, time: 0u64, diff: p.1 }
}

/// A list of weighted values as update records.
pub open spec fn pair_upds(s: Seq<(u64, i64)>) -> Seq<Update<u64>> {
    Seq::new(s.len(), |i: int| pair_upd(s[i]))
}

/// Weighted-value sums agree with record weights under the embedding.
pub proof fn lemma_pair_weights(s: Seq<(u64, i64)>, v: u64)
    ensures
        weight(pair_upds(s), v, 0u64, 0u64) == vsum(s, v),
        total_abs(pair_upds(s)) == pair_abs(s),
    decreases s.len(),
{
    if s.len() > 0 {
        lemma_pair_weights(s.drop_last(), v);
        assert(pair_upds(s).drop_last() =~= pair_upds(s.drop_last()));
        assert(pair_upds(s).last() == pair_upd(s.last()));
    }
}

/// Every single weight is bounded in magnitude by the summed magnitude.
pub proof fn lemma_pair_bound(s: Seq<(u64, i64)>, i: int)
    requires
        0 <= i < s.len(),
    ensures
        s[i].1 <= pair_abs(s),
        -(s[i].1 as int) <= pair_abs(s),
    decreases s.len(),
{
    lemma_pair_abs_nonneg(s.drop_last());
    if i < s.len() - 1 {
        lemma_pair_bound(s.drop_last(), i);
        assert(s.drop_last()[i] == s[i]);
    }
}

/// Summed magnitudes are never negative.
pub proof fn lemma_pair_abs_nonneg(s: Seq<(u64, i64)>)
    ensures
        pair_abs(s) >= 0,
    decreases s.len(),
{
    if s.len() > 0 {
        lemma_pair_abs_nonneg(s.drop_last());
    }
}

/// Sums and magnitudes split over concatenation.
pub proof fn lemma_pair_concat(s1: Seq<(u64, i64)>, s2: Seq<(u64, i64)>, v: u64)
    ensures
        vsum(s1 + s2, v) == vsum(s1, v) + vsum(s2, v),
        pair_abs(s1 + s2) == pair_abs(s1) + pair_abs(s2),
    decreases s2.len(),
{
    if s2.len() == 0 {
        assert(s1 + s2 =~= s1);
    } else {
        assert((s1 + s2).drop_last() =~= s1 + s2.drop_last());
        assert((s1 + s2).last() == s2.last());
        lemma_pair_concat(s1, s2.drop_last(), v);
    }
}

/// The pointwise negation of a list of weighted values.
pub open spec fn pair_neg(s: Seq<(u64, i64)>) -> Seq<(u64, i64)> {
    Seq::new(s.len(), |i: int| (s[i].0, (-(s[i].1 as int)) as i64))
}

/// Negation flips sums and keeps magnitudes, for weights within range.
pub proof fn lemma_pair_neg(s: Seq<(u64, i64)>, v: u64)
    requires
        forall|i: int| 0 <= i < s.len() ==> -(0x7fff_ffff_ffff_ffff as int) <= (#[trigger] s[i]).1,
    ensures
        vsum(pair_neg(s), v) == -vsum(s, v),
        pair_abs(pair_neg(s)) == pair_abs(s),
    decreases s.len(),
{
    if s.len() > 0 {
        assert forall|i: int| 0 <= i < s.drop_last().len() implies -(0x7fff_ffff_ffff_ffff as int)
            <= (#[trigger] s.drop_last()[i]).1 by {
            assert(s.drop_last()[i] == s[i]);
        }
        lemma_pair_neg(s.drop_last(), v);
        assert(pair_neg(s).drop_last() =~= pair_neg(s.drop_last()));
        assert(pair_neg(s).last() == (s.last().0, (-(s.last().1 as int)) as i64));
    }
}

/// Embeds weighted values as update records.
fn to_updates(pairs: &Vec<(u64, i64)>) -> (r: Vec<Update<u64>>)
    ensures
        r@ == pair_upds(pairs@),
{
    let mut out: Vec<Update<u64>> = Vec::new();
    let mut i: usize = 0;
    while i < pairs.len()
        invariant
            i <= pairs@.len(),
            out@ == pair_upds(pairs@).take(i as int),
        decreases pairs@.len() - i,
    {
        let (v, w) = pairs[i];
        out.push(Update { key: v, val: 0u64, time: 0u64, diff: w });
        proof {
            assert(out@ =~= pair_upds(pairs@).take(i + 1));
        }
        i = i + 1;
    }
    proof {
        assert(pair_upds(pairs@).take(pairs@.len() as int) =~= pair_upds(pairs@));
    }
    out
}

/// Coalesces a list of weighted values: equal values combine, cancelled
/// values disappear, and the result is strictly sorted by value while
/// keeping every value's summed weight.
pub fn coalesce_weights(pairs: &Vec<(u64, i64)>) -> (out: Vec<(u64, i64)>)
    requires
        pair_abs(pairs@) <= 0x7fff_ffff_ffff_ffff,
    ensures
        forall|v: u64| #[trigger] vsum(out@, v) == vsum(pairs@, v),
        forall|a: int, b: int| 0 <= a < b < out@.len() ==> (#[trigger] out@[a]).0 < (#[trigger] out@[b]).0,
        forall|a: int| 0 <= a < out@.len() ==> (#[trigger] out@[a]).1 != 0,
{
    let ups = to_updates(pairs);
    let mut since: Vec<u64> = Vec::new();
    since.push(0u64);
    proof {
        lemma_pair_weights(pairs@, 0);
    }
    let cs = compact(&ups, &since);
    let ghost p = crate::update::advance_upds(ups@, since@);
    proof {
        // Advancing by the smallest time changes nothing.
        assert(p =~= ups@) by {
            assert forall|i: int| 0 <= i < ups@.len() implies p[i] == ups@[i] by {
                assert(advance(ups@[i].time, since@) == ups@[i].time.sjoin(since@[0]));
            }
        }
        // Every compacted record keeps the trivial value and time.
        assert forall|i: int| 0 <= i < cs@.len() implies (#[trigger] cs@[i]).val == 0u64 && cs@[
            i].time == 0u64 by {
            assert(cs@[i].diff != 0);
            assert(cs@[i].diff as int == crate::update::triple_sum(
                p,
                cs@[i].key,
                cs@[i].val,
                cs@[i].time,
            ));
            lemma_nonzero_sum_has_triple(p, cs@[i].key, cs@[i].val, cs@[i].time);
            let w = choose|w: int|
                0 <= w < p.len() && (#[trigger] p[w]).key == cs@[i].key && p[w].val == cs@[i].val
                    && p[w].time == cs@[i].time;
        }
    }
    let mut out: Vec<(u64, i64)> = Vec::new();
    let mut i: usize = 0;
    while i < cs.len()
        invariant
            i <= cs@.len(),
            out@.len() == i,
            forall|a: int| 0 <= a < i ==> (#[trigger] out@[a]) == (cs@[a].key, cs@[a].diff),
        decreases cs@.len() - i,
    {
        out.push((cs[i].key, cs[i].diff));
        i = i + 1;
    }
    proof {
        // The output embeds back to exactly the compacted records.
        assert(pair_upds(out@) =~= cs@);
        assert forall|v: u64| #[trigger] vsum(out@, v) == vsum(pairs@, v) by {
            lemma_pair_weights(out@, v);
            lemma_pair_weights(pairs@, v);
            assert(weight(cs@, v, 0u64, 0u64) == weight(p, v, 0u64, 0u64));
        }
        assert forall|a: int, b: int| 0 <= a < b < out@.len() implies (#[trigger] out@[a]).0 < (
        #[trigger] out@[b]).0 by {
            assert(crate::update::kvt_lt(cs@[a], cs@[b]));
        }
    }
    out
}

/// The difference a grouping operator must emit for one key: the freshly
/// computed values minus the recorded output, coalesced. Applying the result
/// on top of the recorded output yields exactly the computed values.
pub fn output_delta(current: &Vec<(u64, i64)>, target: &Vec<(u64, i64)>) -> (out: Vec<(u64, i64)>)
    requires
        pair_abs(current@) + pair_abs(target@) <= 0x7fff_ffff_ffff_ffff,
    ensures
        forall|v: u64| #[trigger] vsum(out@, v) == vsum(target@, v) - vsum(current@, v),
        forall|a: int, b: int| 0 <= a < b < out@.len() ==> (#[trigger] out@[a]).0 < (#[trigger] out@[b]).0,
        forall|a: int| 0 <= a < out@.len() ==> (#[trigger] out@[a]).1 != 0,
{
    proof {
        lemma_pair_abs_nonneg(current@);
        lemma_pair_abs_nonneg(target@);
    }
    let mut combined: Vec<(u64, i64)> = Vec::new();
    let mut i: usize = 0;
    while i < target.len()
        invariant
            i <= target@.len(),
            combined@ == target@.take(i as int),
        decreases target@.len() - i,
    {
        combined.push(target[i]);
        proof {
            assert(combined@ =~= target@.take(i + 1));
        }
        i = i + 1;
    }
    proof {
        assert(target@.take(target@.len() as int) =~= target@);
    }
    let mut j: usize = 0;
    while j < current.len()
        invariant
            j <= current@.len(),
            pair_abs(current@) + pair_abs(target@) <= 0x7fff_ffff_ffff_ffff,
            pair_abs(current@) >= 0,
            pair_abs(target@) >= 0,
            combined@ == target@ + pair_neg(current@).take(j as int),
        decreases current@.len() - j,
    {
        let (v, w) = current[j];
        proof {
            lemma_pair_bound(current@, j as int);
        }
        combined.push((v, -w));
        proof {
            assert(combined@ =~= target@ + pair_neg(current@).take(j + 1));
        }
        j = j + 1;
    }
    proof {
        assert(pair_neg(current@).take(current@.len() as int) =~= pair_neg(current@));
        assert forall|idx: int| 0 <= idx < current@.len() implies -(0x7fff_ffff_ffff_ffff as int)
            <= (#[trigger] current@[idx]).1 by {
            lemma_pair_bound(current@, idx);
        }
        lemma_pair_neg(current@, 0);
        lemma_pair_concat(target@, pair_neg(current@), 0);
    }
    let out = coalesce_weights(&combined);
    proof {
        assert forall|v: u64| #[trigger] vsum(out@, v) == vsum(target@, v) - vsum(current@, v) by {
            lemma_pair_concat(target@, pair_neg(current@), v);
            lemma_pair_neg(current@, v);
        }
    }
    out
}

} // verus!
