//! The delta-join operators over arranged traces.
//!
//! `propose` extends a stream of prefixes: for each incoming prefix it looks
//! its key up in an arrangement restricted to times at or below the
//! prefix's, and emits one extension per associated value, weighted by the
//! product of the prefix's diff and the value's count. `validate` keeps only
//! the extensions whose pair exists in an arrangement of pairs, scaling each
//! diff by the pair's count. Both read an arrangement as the list of batches
//! a reader gathers from its spine.

use vstd::prelude::*;
use crate::batch::Batch;
use crate::lattice::{in_closure, in_closure_exec, Lattice};
use crate::spine::flat;
use crate::update::{
    lemma_sums_push, lemma_total_abs_prefix, lemma_weight_bound, lemma_weight_has_val, total_abs,
    weight, Update,
};

verus! {

/// Collects the records of a list of batches into one sequence, in order.
pub fn gather<T: Lattice>(batches: &Vec<Batch<T>>) -> (r: Vec<Update<T>>)
    ensures
        r@ == flat(batches@),
{
    let mut out: Vec<Update<T>> = Vec::new();
    let mut b: usize = 0;
    proof {
        assert(flat(batches@.take(0)) =~= Seq::<Update<T>>::empty());
    }
    while b < batches.len()
        invariant
            b <= batches@.len(),
            out@ == flat(batches@.take(b as int)),
        decreases batches@.len() - b,
    {
        let mut r: usize = 0;
        while r < batches[b].recs.len()
            invariant
                b < batches@.len(),
                r <= batches@[b as int].recs@.len(),
                out@ == flat(batches@.take(b as int)) + batches@[b as int].recs@.take(r as int),
            decreases batches@[b as int].recs@.len() - r,
        {
            out.push(batches[b].recs[r]);
            proof {
                assert(batches@[b as int].recs@.take(r + 1) =~= batches@[b as int].recs@.take(
                    r as int,
                ).push(batches@[b as int].recs@[r as int]));
                assert(out@ =~= flat(batches@.take(b as int)) + batches@[b as int].recs@.take(
                    r + 1,
                ));
            }
            r = r + 1;
        }
        proof {
            assert(batches@[b as int].recs@.take(batches@[b as int].recs@.len() as int)
                =~= batches@[b as int].recs@);
            assert(batches@.take(b + 1).drop_last() =~= batches@.take(b as int));
            assert(batches@.take(b + 1).last() == batches@[b as int]);
            assert(flat(batches@.take(b + 1)) == flat(batches@.take(b as int)) + batches@[
                b as int].recs@);
        }
        b = b + 1;
    }
    proof {
        assert(batches@.take(batches@.len() as int) =~= batches@);
    }
    out
}

/// Accumulates the count of `(key, val)` visible at `time` over a sequence
/// of records.
pub fn count_in<T: Lattice>(recs: &Vec<Update<T>>, key: u64, val: u64, time: &T) -> (c: i64)
    requires
        total_abs(recs@) <= 0x7fff_ffff_ffff_ffff,
    ensures
        c as int == weight(recs@, key, val, *time),
{
    let mut acc: i64 = 0;
    let mut i: usize = 0;
    proof {
        assert(recs@.take(0) =~= Seq::<Update<T>>::empty());
    }
    while i < recs.len()
        invariant
            i <= recs@.len(),
            total_abs(recs@) <= 0x7fff_ffff_ffff_ffff,
            acc as int == weight(recs@.take(i as int), key, val, *time),
        decreases recs@.len() - i,
    {
        let u = recs[i];
        proof {
            assert(recs@.take(i + 1) =~= recs@.take(i as int).push(u));
            lemma_sums_push(recs@.take(i as int), u, key, val, *time);
            lemma_weight_bound(recs@.take(i + 1), key, val, *time);
            lemma_total_abs_prefix(recs@, i + 1);
        }
        if u.key == key && u.val == val && u.time.less_equal(time) {
            acc = acc + u.diff;
        }
        i = i + 1;
    }
    proof {
        assert(recs@.take(recs@.len() as int) =~= recs@);
    }
    acc
}

/// Whether a value occurs in a list.
fn contains_val(vals: &Vec<u64>, x: u64) -> (r: bool)
    ensures
        r == exists|a: int| 0 <= a < vals@.len() && vals@[a] == x,
{
    let mut i: usize = 0;
    let mut found = false;
    while i < vals.len()
        invariant
            i <= vals@.len(),
            found == exists|a: int| 0 <= a < i && vals@[a] == x,
        decreases vals@.len() - i,
    {
        if vals[i] == x {
            found = true;
        }
        i = i + 1;
    }
    found
}

/// Proposes the extensions of one prefix: for each value associated with the
/// prefix's key in the arrangement at times at or below the prefix's time,
/// one extension weighted by the prefix's diff times the value's count.
/// Extensions whose weight cancels to zero are dropped, and each value
/// appears at most once.
#[verifier::rlimit(100)]
pub fn propose_one<T: Lattice>(p: u64, time: &T, diff: i64, batches: &Vec<Batch<T>>) -> (out: Vec<
    ((u64, u64), T, i64),
>)
    requires
        total_abs(flat(batches@)) <= 0x7fff_ffff_ffff_ffff,
        forall|v: u64|
            -0x7fff_ffff_ffff_ffff <= diff * #[trigger] weight(flat(batches@), p, v, *time)
                <= 0x7fff_ffff_ffff_ffff,
    ensures
        out@ == propose_one_spec(p, *time, diff, flat(batches@)),
        forall|j: int|
            0 <= j < out@.len() ==> (#[trigger] out@[j]).0.0 == p && out@[j].1 == *time && out@[
                j].2 as int == diff * weight(flat(batches@), p, out@[j].0.1, *time) && out@[j].2
                != 0,
        forall|j1: int, j2: int|
            0 <= j1 < j2 < out@.len() ==> (#[trigger] out@[j1]).0.1 != (#[trigger] out@[j2]).0.1,
        forall|v: u64|
            diff * #[trigger] weight(flat(batches@), p, v, *time) != 0 ==> exists|j: int|
                0 <= j < out@.len() && (#[trigger] out@[j]).0.1 == v,
{
    let recs = gather(batches);
    // The distinct values associated with the key.
    let mut vals: Vec<u64> = Vec::new();
    let mut i: usize = 0;
    proof {
        assert(recs@.take(0) =~= Seq::<Update<T>>::empty());
    }
    while i < recs.len()
        invariant
            i <= recs@.len(),
            vals@ == distinct_vals(recs@.take(i as int), p),
            forall|a1: int, a2: int| 0 <= a1 < a2 < vals@.len() ==> vals@[a1] != vals@[a2],
            forall|idx: int|
                0 <= idx < i ==> (#[trigger] recs@[idx]).key != p || exists|a: int|
                    0 <= a < vals@.len() && vals@[a] == recs@[idx].val,
        decreases recs@.len() - i,
    {
        let ghost pre_vals = vals@;
        proof {
            assert(recs@.take(i + 1).drop_last() =~= recs@.take(i as int));
            assert(recs@.take(i + 1).last() == recs@[i as int]);
        }
        let pushed_val = if recs[i].key == p && !contains_val(&vals, recs[i].val) {
            vals.push(recs[i].val);
            true
        } else {
            false
        };
        proof {
            // The executable membership test decides the spec's.
            if recs@[i as int].key == p {
                if pre_vals.contains(recs@[i as int].val) {
                    let a = choose|a: int|
                        0 <= a < pre_vals.len() && pre_vals[a] == recs@[i as int].val;
                    assert(exists|a: int|
                        0 <= a < pre_vals.len() && pre_vals[a] == recs@[i as int].val);
                }
                if exists|a: int| 0 <= a < pre_vals.len() && pre_vals[a] == recs@[i as int].val {
                    let a = choose|a: int|
                        0 <= a < pre_vals.len() && pre_vals[a] == recs@[i as int].val;
                    assert(pre_vals.contains(recs@[i as int].val));
                }
            }
            assert(vals@ == distinct_vals(recs@.take(i + 1), p));
        }
        proof {
            assert forall|idx: int|
                0 <= idx < i + 1 implies (#[trigger] recs@[idx]).key != p || exists|a: int|
                0 <= a < vals@.len() && vals@[a] == recs@[idx].val by {
                if recs@[idx].key == p {
                    if idx < i {
                        let a = choose|a: int|
                            0 <= a < pre_vals.len() && pre_vals[a] == recs@[idx].val;
                        assert(vals@[a] == recs@[idx].val);
                    } else {
                        if pushed_val {
                            assert(vals@[vals@.len() - 1] == recs@[idx].val);
                        } else {
                            let a = choose|a: int|
                                0 <= a < pre_vals.len() && pre_vals[a] == recs@[idx].val;
                            assert(vals@[a] == recs@[idx].val);
                        }
                    }
                }
            }
        }
        i = i + 1;
    }
    proof {
        assert(recs@.take(recs@.len() as int) =~= recs@);
    }
    // One extension per value with a surviving weight.
    let mut out: Vec<((u64, u64), T, i64)> = Vec::new();
    let mut j: usize = 0;
    proof {
        assert(vals@.take(0) =~= Seq::<u64>::empty());
    }
    while j < vals.len()
        invariant
            j <= vals@.len(),
            out@ == vals_extended(vals@.take(j as int), p, *time, diff, flat(batches@)),
            vals@ == distinct_vals(flat(batches@), p),
            total_abs(flat(batches@)) <= 0x7fff_ffff_ffff_ffff,
            recs@ == flat(batches@),
            forall|v: u64|
                -0x7fff_ffff_ffff_ffff <= diff * #[trigger] weight(flat(batches@), p, v, *time)
                    <= 0x7fff_ffff_ffff_ffff,
        decreases vals@.len() - j,
    {
        let v = vals[j];
        proof {
            assert(vals@.take(j + 1).drop_last() =~= vals@.take(j as int));
            assert(vals@.take(j + 1).last() == vals@[j as int]);
        }
        let ghost prod = (diff as int) * weight(flat(batches@), p, v, *time);
        let c = count_in(&recs, p, v, time);
        if diff != 0 && c != 0 {
            let d = diff * c;
            proof {
                assert(c as int == weight(flat(batches@), p, v, *time));
                assert(d as int == (diff as int) * (c as int));
                assert(d as int == prod);
            }
            if d != 0 {
                out.push(((p, v), *time, d));
                proof {
                    assert(d == prod as i64);
                }
            } else {
                proof {
                    assert(prod == 0);
                }
            }
        } else {
            proof {
                let ghost w = weight(flat(batches@), p, v, *time);
                if diff == 0 {
                    assert(prod == 0) by (nonlinear_arith)
                        requires
                            prod == (diff as int) * w,
                            diff == 0,
                    ;
                } else {
                    assert(c == 0);
                    assert(w == 0);
                    assert(prod == 0) by (nonlinear_arith)
                        requires
                            prod == (diff as int) * w,
                            w == 0,
                    ;
                }
            }
        }
        proof {
            assert(out@ == vals_extended(vals@.take(j + 1), p, *time, diff, flat(batches@)));
        }
        j = j + 1;
    }
    proof {
        assert(vals@.take(vals@.len() as int) =~= vals@);
        lemma_vals_extended_props(vals@, p, *time, diff, flat(batches@));
        assert forall|v: u64| diff * #[trigger] weight(flat(batches@), p, v, *time) != 0
            implies exists|j2: int| 0 <= j2 < out@.len() && (#[trigger] out@[j2]).0.1 == v by {
            lemma_weight_has_val(flat(batches@), p, v, *time);
            let idx = choose|idx: int|
                0 <= idx < flat(batches@).len() && (#[trigger] flat(batches@)[idx]).key == p
                    && flat(batches@)[idx].val == v;
            assert(recs@[idx].key == p && recs@[idx].val == v);
            let a = choose|a: int| 0 <= a < vals@.len() && vals@[a] == recs@[idx].val;
            assert(diff * weight(flat(batches@), p, vals@[a], *time) != 0);
        }
    }
    out
}

/// The shape of one value list's extensions: each entry carries the prefix
/// and a surviving product, entries name distinct values from the list, and
/// every listed value with a surviving product is named.
proof fn lemma_vals_extended_props<T: Lattice>(
    vals: Seq<u64>,
    p: u64,
    t: T,
    r: i64,
    recs: Seq<Update<T>>,
)
    requires
        forall|a1: int, a2: int| 0 <= a1 < a2 < vals.len() ==> vals[a1] != vals[a2],
        forall|v: u64|
            -0x7fff_ffff_ffff_ffff <= r * #[trigger] weight(recs, p, v, t)
                <= 0x7fff_ffff_ffff_ffff,
    ensures
        ({
            let out = vals_extended(vals, p, t, r, recs);
            &&& forall|j: int|
                0 <= j < out.len() ==> (#[trigger] out[j]).0.0 == p && out[j].1 == t && out[j].2
                    as int == r * weight(recs, p, out[j].0.1, t) && out[j].2 != 0 && vals.contains(
                    out[j].0.1,
                )
            &&& forall|j1: int, j2: int|
                0 <= j1 < j2 < out.len() ==> (#[trigger] out[j1]).0.1 != (#[trigger] out[j2]).0.1
            &&& forall|a: int|
                0 <= a < vals.len() && r * weight(recs, p, #[trigger] vals[a], t) != 0
                    ==> exists|j: int| 0 <= j < out.len() && (#[trigger] out[j]).0.1 == vals[a]
        }),
    decreases vals.len(),
{
    if vals.len() > 0 {
        let pre_vals = vals.drop_last();
        assert forall|a1: int, a2: int| 0 <= a1 < a2 < pre_vals.len() implies pre_vals[a1]
            != pre_vals[a2] by {
            assert(pre_vals[a1] == vals[a1] && pre_vals[a2] == vals[a2]);
        }
        lemma_vals_extended_props(pre_vals, p, t, r, recs);
        let pre = vals_extended(pre_vals, p, t, r, recs);
        let out = vals_extended(vals, p, t, r, recs);
        let prod = r * weight(recs, p, vals.last(), t);
        assert forall|a: int| 0 <= a < pre_vals.len() implies #[trigger] vals[a] == pre_vals[a] by {}
        if prod != 0 {
            assert(out == pre.push(((p, vals.last()), t, prod as i64)));
            // The last value is new: it differs from every earlier one.
            assert forall|j: int| 0 <= j < pre.len() implies (#[trigger] pre[j]).0.1
                != vals.last() by {
                let w = choose|w: int| 0 <= w < pre_vals.len() && pre_vals[w] == pre[j].0.1;
                assert(vals[w] == pre[j].0.1);
                assert(vals[w] != vals[vals.len() - 1]);
            }
            assert forall|j: int| 0 <= j < out.len() implies (#[trigger] out[j]).0.0 == p && out[
            j].1 == t && out[j].2 as int == r * weight(recs, p, out[j].0.1, t) && out[j].2 != 0
                && vals.contains(out[j].0.1) by {
                if j < pre.len() {
                    assert(out[j] == pre[j]);
                    let w = choose|w: int| 0 <= w < pre_vals.len() && pre_vals[w] == pre[j].0.1;
                    assert(vals[w] == out[j].0.1);
                } else {
                    assert(out[j].0.1 == vals.last());
                    assert(vals[vals.len() - 1] == vals.last());
                    // The product survives, so the entry's diff is the
                    // product itself, within the machine range by the
                    // caller's bound.
                    assert(out[j].2 == prod as i64);
                }
            }
            assert forall|a: int|
                0 <= a < vals.len() && r * weight(recs, p, #[trigger] vals[a], t) != 0
                implies exists|j: int| 0 <= j < out.len() && (#[trigger] out[j]).0.1 == vals[
                a] by {
                if a < vals.len() - 1 {
                    let j = choose|j: int|
                        0 <= j < pre.len() && (#[trigger] pre[j]).0.1 == pre_vals[a];
                    assert(out[j].0.1 == vals[a]);
                } else {
                    assert(out[out.len() - 1].0.1 == vals.last());
                }
            }
        } else {
            assert(out == pre);
            assert forall|j: int| 0 <= j < out.len() implies (#[trigger] out[j]).0.0 == p && out[
            j].1 == t && out[j].2 as int == r * weight(recs, p, out[j].0.1, t) && out[j].2 != 0
                && vals.contains(out[j].0.1) by {
                let w = choose|w: int| 0 <= w < pre_vals.len() && pre_vals[w] == pre[j].0.1;
                assert(vals[w] == out[j].0.1);
            }
            assert forall|a: int|
                0 <= a < vals.len() && r * weight(recs, p, #[trigger] vals[a], t) != 0
                implies exists|j: int| 0 <= j < out.len() && (#[trigger] out[j]).0.1 == vals[
                a] by {
                assert(a != vals.len() - 1);
                let j = choose|j: int| 0 <= j < pre.len() && (#[trigger] pre[j]).0.1 == pre_vals[a];
                assert(out[j].0.1 == vals[a]);
            }
        }
    }
}

/// The distinct values associated with key `p`, in order of first
/// occurrence in the records./// The distinct values associated with key `p`, in order of first
/// occurrence in the records.
pub open spec fn distinct_vals<T: Lattice>(recs: Seq<Update<T>>, p: u64) -> Seq<u64>
    decreases recs.len(),
{
    if recs.len() == 0 {
        Seq::empty()
    } else {
        let pre = distinct_vals(recs.drop_last(), p);
        if recs.last().key == p && !pre.contains(recs.last().val) {
            pre.push(recs.last().val)
        } else {
            pre
        }
    }
}

/// The extensions of one value list for one prefix: each value whose
/// weighted count survives, paired with the prefix and the product.
pub open spec fn vals_extended<T: Lattice>(
    vals: Seq<u64>,
    p: u64,
    t: T,
    r: i64,
    recs: Seq<Update<T>>,
) -> Seq<((u64, u64), T, i64)>
    decreases vals.len(),
{
    if vals.len() == 0 {
        Seq::empty()
    } else {
        let pre = vals_extended(vals.drop_last(), p, t, r, recs);
        let prod = r * weight(recs, p, vals.last(), t);
        if prod != 0 {
            pre.push(((p, vals.last()), t, prod as i64))
        } else {
            pre
        }
    }
}

/// What `propose` emits for one prefix: one extension per distinct value of
/// the prefix's key whose weighted count survives, in first-occurrence
/// order.
pub open spec fn propose_one_spec<T: Lattice>(
    p: u64,
    t: T,
    r: i64,
    recs: Seq<Update<T>>,
) -> Seq<((u64, u64), T, i64)> {
    vals_extended(distinct_vals(recs, p), p, t, r, recs)
}

/// What `propose` emits: the concatenation of each prefix's extensions, in
/// prefix order.
pub open spec fn propose_spec<T: Lattice>(
    prefixes: Seq<(u64, T, i64)>,
    recs: Seq<Update<T>>,
) -> Seq<((u64, u64), T, i64)>
    decreases prefixes.len(),
{
    if prefixes.len() == 0 {
        Seq::empty()
    } else {
        propose_spec(prefixes.drop_last(), recs) + propose_one_spec(
            prefixes.last().0,
            prefixes.last().1,
            prefixes.last().2,
            recs,
        )
    }
}

/// Whether `e` is a faithful extension of some prefix: it shares the
/// prefix's key and time, and its diff is the prefix's diff times the count
/// of the proposed pair in the arrangement's records.
pub open spec fn proposed_entry<T: Lattice>(
    prefixes: Seq<(u64, T, i64)>,
    recs: Seq<Update<T>>,
    e: ((u64, u64), T, i64),
) -> bool {
    exists|i: int|
        0 <= i < prefixes.len() && (#[trigger] prefixes[i]).0 == e.0.0 && e.1 == prefixes[i].1
            && e.2 as int == prefixes[i].2 * weight(recs, prefixes[i].0, e.0.1, prefixes[i].1)
}

/// Whether the output contains the extension `((p, v), t, d)`.
pub open spec fn proposes<T: Lattice>(
    out: Seq<((u64, u64), T, i64)>,
    p: u64,
    v: u64,
    t: T,
    d: int,
) -> bool {
    exists|j: int|
        0 <= j < out.len() && (#[trigger] out[j]).0.0 == p && out[j].0.1 == v && out[j].1 == t
            && out[j].2 as int == d
}

/// Proposes extensions for a stream of prefixes `(key, time, diff)`: the
/// concatenation of each prefix's extensions against the arrangement. Every
/// emitted extension is a faithful extension of some prefix with a non-zero
/// diff, and every prefix-value pair whose product of diff and count
/// survives is emitted.
pub fn propose<T: Lattice>(prefixes: &Vec<(u64, T, i64)>, batches: &Vec<Batch<T>>) -> (out: Vec<
    ((u64, u64), T, i64),
>)
    requires
        total_abs(flat(batches@)) <= 0x7fff_ffff_ffff_ffff,
        forall|i: int, v: u64|
            0 <= i < prefixes@.len() ==> -0x7fff_ffff_ffff_ffff <= prefixes@[i].2
                * #[trigger] weight(flat(batches@), prefixes@[i].0, v, prefixes@[i].1)
                <= 0x7fff_ffff_ffff_ffff,
    ensures
        // Exactly the concatenation of each prefix's extension list.
        out@ == propose_spec(prefixes@, flat(batches@)),
        forall|j: int|
            0 <= j < out@.len() ==> proposed_entry(prefixes@, flat(batches@), #[trigger] out@[j])
                && out@[j].2 != 0,
        forall|i: int, v: u64|
            0 <= i < prefixes@.len() && prefixes@[i].2 * #[trigger] weight(
                flat(batches@),
                prefixes@[i].0,
                v,
                prefixes@[i].1,
            ) != 0 ==> proposes(
                out@,
                prefixes@[i].0,
                v,
                prefixes@[i].1,
                prefixes@[i].2 * weight(flat(batches@), prefixes@[i].0, v, prefixes@[i].1),
            ),
{
    let mut out: Vec<((u64, u64), T, i64)> = Vec::new();
    let mut i: usize = 0;
    proof {
        assert(prefixes@.take(0) =~= Seq::<(u64, T, i64)>::empty());
    }
    while i < prefixes.len()
        invariant
            i <= prefixes@.len(),
            out@ == propose_spec(prefixes@.take(i as int), flat(batches@)),
            total_abs(flat(batches@)) <= 0x7fff_ffff_ffff_ffff,
            forall|a: int, v: u64|
                0 <= a < prefixes@.len() ==> -0x7fff_ffff_ffff_ffff <= prefixes@[a].2
                    * #[trigger] weight(flat(batches@), prefixes@[a].0, v, prefixes@[a].1)
                    <= 0x7fff_ffff_ffff_ffff,
            forall|j: int|
                0 <= j < out@.len() ==> proposed_entry(
                    prefixes@,
                    flat(batches@),
                    #[trigger] out@[j],
                ) && out@[j].2 != 0,
            forall|a: int, v: u64|
                0 <= a < i && prefixes@[a].2 * #[trigger] weight(
                    flat(batches@),
                    prefixes@[a].0,
                    v,
                    prefixes@[a].1,
                ) != 0 ==> proposes(
                    out@,
                    prefixes@[a].0,
                    v,
                    prefixes@[a].1,
                    prefixes@[a].2 * weight(flat(batches@), prefixes@[a].0, v, prefixes@[a].1),
                ),
        decreases prefixes@.len() - i,
    {
        let (p, t, r) = prefixes[i];
        let mut sub = propose_one(p, &t, r, batches);
        let ghost pre = out@;
        let ghost subg = sub@;
        out.append(&mut sub);
        proof {
            assert(prefixes@.take(i + 1).drop_last() =~= prefixes@.take(i as int));
            assert(prefixes@.take(i + 1).last() == prefixes@[i as int]);
            assert(out@ == propose_spec(prefixes@.take(i + 1), flat(batches@)));
            assert forall|j: int| 0 <= j < out@.len() implies proposed_entry(
                prefixes@,
                flat(batches@),
                #[trigger] out@[j],
            ) && out@[j].2 != 0 by {
                if j < pre.len() {
                    assert(out@[j] == pre[j]);
                } else {
                    let e = out@[j];
                    assert(e == subg[j - pre.len()]);
                    assert(e.0.0 == p && e.1 == t && e.2 as int == r * weight(
                        flat(batches@),
                        p,
                        e.0.1,
                        t,
                    ) && e.2 != 0);
                    assert((#[trigger] prefixes@[i as int]).0 == e.0.0 && e.1 == prefixes@[
                        i as int].1 && e.2 as int == prefixes@[i as int].2 * weight(
                        flat(batches@),
                        prefixes@[i as int].0,
                        e.0.1,
                        prefixes@[i as int].1,
                    ));
                }
            }
            assert forall|a: int, v: u64|
                0 <= a < i + 1 && prefixes@[a].2 * #[trigger] weight(
                    flat(batches@),
                    prefixes@[a].0,
                    v,
                    prefixes@[a].1,
                ) != 0 implies proposes(
                out@,
                prefixes@[a].0,
                v,
                prefixes@[a].1,
                prefixes@[a].2 * weight(flat(batches@), prefixes@[a].0, v, prefixes@[a].1),
            ) by {
                if a < i {
                    let j = choose|j: int|
                        0 <= j < pre.len() && (#[trigger] pre[j]).0.0 == prefixes@[a].0 && pre[
                        j].0.1 == v && pre[j].1 == prefixes@[a].1 && pre[j].2 as int == prefixes@[
                        a].2 * weight(flat(batches@), prefixes@[a].0, v, prefixes@[a].1);
                    assert(out@[j] == pre[j]);
                    assert((#[trigger] out@[j]).0.0 == prefixes@[a].0 && out@[j].0.1 == v && out@[
                        j].1 == prefixes@[a].1);
                } else {
                    let j = choose|j: int| 0 <= j < subg.len() && (#[trigger] subg[j]).0.1 == v;
                    assert(out@[pre.len() + j] == subg[j]);
                    assert((#[trigger] out@[pre.len() + j]).0.0 == prefixes@[a].0 && out@[pre.len()
                        + j].0.1 == v && out@[pre.len() + j].1 == prefixes@[a].1);
                }
            }
        }
        i = i + 1;
    }
    proof {
        assert(prefixes@.take(prefixes@.len() as int) =~= prefixes@);
    }
    out
}

/// What `validate` emits: each extension whose pair has a non-zero count at
/// its time survives, its diff multiplied by the count; the rest vanish.
pub open spec fn validate_spec<T: Lattice>(
    exts: Seq<((u64, u64), T, i64)>,
    recs: Seq<Update<T>>,
) -> Seq<((u64, u64), T, i64)>
    decreases exts.len(),
{
    if exts.len() == 0 {
        Seq::empty()
    } else {
        let pre = validate_spec(exts.drop_last(), recs);
        let e = exts.last();
        let prod = e.2 * weight(recs, e.0.0, e.0.1, e.1);
        if prod != 0 {
            pre.push((e.0, e.1, prod as i64))
        } else {
            pre
        }
    }
}

/// Validates extended prefixes against an arrangement of pairs: an extension
/// `((k, v), t, r)` survives exactly when the pair `(k, v)` has a non-zero
/// count at or before `t`, and its diff becomes `r` times that count.
pub fn validate<T: Lattice>(
    extensions: &Vec<((u64, u64), T, i64)>,
    batches: &Vec<Batch<T>>,
) -> (out: Vec<((u64, u64), T, i64)>)
    requires
        total_abs(flat(batches@)) <= 0x7fff_ffff_ffff_ffff,
        forall|i: int|
            0 <= i < extensions@.len() ==> -0x7fff_ffff_ffff_ffff <= (#[trigger] extensions@[
            i]).2 * weight(
                flat(batches@),
                extensions@[i].0.0,
                extensions@[i].0.1,
                extensions@[i].1,
            ) <= 0x7fff_ffff_ffff_ffff,
    ensures
        out@ == validate_spec(extensions@, flat(batches@)),
{
    let recs = gather(batches);
    let mut out: Vec<((u64, u64), T, i64)> = Vec::new();
    let mut i: usize = 0;
    proof {
        assert(extensions@.take(0) =~= Seq::<((u64, u64), T, i64)>::empty());
    }
    while i < extensions.len()
        invariant
            i <= extensions@.len(),
            recs@ == flat(batches@),
            total_abs(flat(batches@)) <= 0x7fff_ffff_ffff_ffff,
            forall|a: int|
                0 <= a < extensions@.len() ==> -0x7fff_ffff_ffff_ffff <= (#[trigger] extensions@[
                a]).2 * weight(
                    flat(batches@),
                    extensions@[a].0.0,
                    extensions@[a].0.1,
                    extensions@[a].1,
                ) <= 0x7fff_ffff_ffff_ffff,
            out@ == validate_spec(extensions@.take(i as int), flat(batches@)),
        decreases extensions@.len() - i,
    {
        let ((k, v), t, r) = extensions[i];
        let c = count_in(&recs, k, v, &t);
        proof {
            assert(extensions@.take(i + 1).drop_last() =~= extensions@.take(i as int));
            assert(extensions@.take(i + 1).last() == extensions@[i as int]);
        }
        let ghost prod = (r as int) * weight(flat(batches@), k, v, t);
        if r != 0 && c != 0 {
            let d = r * c;
            if d != 0 {
                out.push(((k, v), t, d));
                proof {
                    assert(d as int == prod);
                    assert(d == prod as i64);
                }
            } else {
                proof {
                    assert(prod == 0);
                }
            }
        } else {
            proof {
                if r == 0 {
                    assert(prod == 0);
                } else {
                    assert(c == 0);
                    assert(weight(flat(batches@), k, v, t) == 0);
                    assert(prod == 0);
                }
            }
        }
        i = i + 1;
    }
    proof {
        assert(extensions@.take(extensions@.len() as int) =~= extensions@);
    }
    out
}

/// The stashed extensions whose time is complete: the input frontier no
/// longer lies at or below it, so no further change can arrive there.
pub open spec fn ready_spec<T: Lattice>(
    exts: Seq<(u64, T, i64)>,
    frontier: Seq<T>,
) -> Seq<(u64, T, i64)>
    decreases exts.len(),
{
    if exts.len() == 0 {
        Seq::empty()
    } else {
        let pre = ready_spec(exts.drop_last(), frontier);
        if !in_closure(exts.last().1, frontier) {
            pre.push(exts.last())
        } else {
            pre
        }
    }
}

/// The stashed extensions still awaiting their time.
pub open spec fn deferred_spec<T: Lattice>(
    exts: Seq<(u64, T, i64)>,
    frontier: Seq<T>,
) -> Seq<(u64, T, i64)>
    decreases exts.len(),
{
    if exts.len() == 0 {
        Seq::empty()
    } else {
        let pre = deferred_spec(exts.drop_last(), frontier);
        if in_closure(exts.last().1, frontier) {
            pre.push(exts.last())
        } else {
            pre
        }
    }
}

/// Splits stashed extensions by the input frontier: those at complete times
/// may be processed against the trace, the rest are retained for a later
/// turn.
pub fn split_ready<T: Lattice>(exts: &Vec<(u64, T, i64)>, frontier: &Vec<T>) -> (r: (
    Vec<(u64, T, i64)>,
    Vec<(u64, T, i64)>,
))
    ensures
        r.0@ == ready_spec(exts@, frontier@),
        r.1@ == deferred_spec(exts@, frontier@),
{
    let mut ready: Vec<(u64, T, i64)> = Vec::new();
    let mut deferred: Vec<(u64, T, i64)> = Vec::new();
    let mut i: usize = 0;
    proof {
        assert(exts@.take(0) =~= Seq::<(u64, T, i64)>::empty());
    }
    while i < exts.len()
        invariant
            i <= exts@.len(),
            ready@ == ready_spec(exts@.take(i as int), frontier@),
            deferred@ == deferred_spec(exts@.take(i as int), frontier@),
        decreases exts@.len() - i,
    {
        let (p, t, d) = exts[i];
        proof {
            assert(exts@.take(i + 1).drop_last() =~= exts@.take(i as int));
            assert(exts@.take(i + 1).last() == exts@[i as int]);
        }
        if !in_closure_exec(&t, frontier) {
            ready.push((p, t, d));
        } else {
            deferred.push((p, t, d));
        }
        i = i + 1;
    }
    proof {
        assert(exts@.take(exts@.len() as int) =~= exts@);
    }
    (ready, deferred)
}

} // verus!
