//! Partially ordered logical times with least upper bounds.
//!
//! All reasoning about compaction is done in terms of `Lattice` methods: the
//! partial order `less_equal`, the least upper bound `join`, the greatest
//! lower bound `meet`, and the derived compaction operator `advance_by`.

use vstd::prelude::*;

verus! {

/// A bounded lattice of logical times.
///
/// Beside the lattice structure (partial order `lle`, join and meet), the
/// trait carries a total order `tle` used only to sort update records; the
/// two orders need not be related. Implementors must prove the order and
/// bound laws stated by the proof obligations below.
pub trait Lattice: Sized + Copy {
    /// The partial order on times, as seen by specifications.
    spec fn lle(self, other: Self) -> bool;

    /// A total order used to sort update records, as seen by specifications.
    spec fn tle(self, other: Self) -> bool;

    /// The least upper bound, as seen by specifications.
    spec fn sjoin(self, other: Self) -> Self;

    /// The greatest lower bound, as seen by specifications.
    spec fn smeet(self, other: Self) -> Self;

    /// The smallest element, as seen by specifications.
    spec fn smin() -> Self;

    /// The largest element, as seen by specifications.
    spec fn smax() -> Self;

    /// Decides the partial order.
    fn less_equal(&self, other: &Self) -> (r: bool)
        ensures
            r == self.lle(*other),
    ;

    /// Decides the sorting order.
    fn total_le(&self, other: &Self) -> (r: bool)
        ensures
            r == self.tle(*other),
    ;

    /// The smallest element greater than or equal to both arguments.
    fn join(&self, other: &Self) -> (r: Self)
        ensures
            r == self.sjoin(*other),
    ;

    /// The largest element less than or equal to both arguments.
    fn meet(&self, other: &Self) -> (r: Self)
        ensures
            r == self.smeet(*other),
    ;

    /// The smallest element of the type.
    fn minimum() -> (r: Self)
        ensures
            r == Self::smin(),
    ;

    /// The largest element of the type.
    fn maximum() -> (r: Self)
        ensures
            r == Self::smax(),
    ;

    /// Both orders are reflexive.
    proof fn lemma_refl(a: Self)
        ensures
            a.lle(a),
            a.tle(a),
    ;

    /// Both orders are transitive.
    proof fn lemma_trans(a: Self, b: Self, c: Self)
        ensures
            a.lle(b) && b.lle(c) ==> a.lle(c),
            a.tle(b) && b.tle(c) ==> a.tle(c),
    ;

    /// Both orders are antisymmetric.
    proof fn lemma_antisym(a: Self, b: Self)
        ensures
            a.lle(b) && b.lle(a) ==> a == b,
            a.tle(b) && b.tle(a) ==> a == b,
    ;

    /// The sorting order is total.
    proof fn lemma_total(a: Self, b: Self)
        ensures
            a.tle(b) || b.tle(a),
    ;

    /// `sjoin` is the least upper bound: it dominates both arguments and is
    /// below every common upper bound `u`.
    proof fn lemma_join_lub(a: Self, b: Self, u: Self)
        ensures
            a.lle(a.sjoin(b)),
            b.lle(a.sjoin(b)),
            a.lle(u) && b.lle(u) ==> a.sjoin(b).lle(u),
    ;

    /// `smeet` is the greatest lower bound: it is below both arguments and
    /// above every common lower bound `u`.
    proof fn lemma_meet_glb(a: Self, b: Self, u: Self)
        ensures
            a.smeet(b).lle(a),
            a.smeet(b).lle(b),
            u.lle(a) && u.lle(b) ==> u.lle(a.smeet(b)),
    ;

    /// `smin` and `smax` bound every element.
    proof fn lemma_bounds(a: Self)
        ensures
            Self::smin().lle(a),
            a.lle(Self::smax()),
    ;

}

/// Advances `t` to the largest time indistinguishable under `frontier`:
/// for every `q` greater or equal to some element of `frontier`, the
/// result and `t` compare identically to `q`. With an empty frontier
/// the result is `maximum`.
pub fn advance_by<T: Lattice>(t: &T, frontier: &Vec<T>) -> (r: T)
    ensures
        r == advance(*t, frontier@),
{
    if frontier.len() > 0 {
        let mut result = t.join(&frontier[0]);
        let mut i: usize = 1;
        while i < frontier.len()
            invariant
                1 <= i <= frontier@.len(),
                result == adv_fold(*t, frontier@.subrange(0, i as int)),
            decreases frontier@.len() - i,
        {
            result = result.meet(&t.join(&frontier[i]));
            proof {
                assert(frontier@.subrange(0, i + 1).drop_last() =~= frontier@.subrange(
                    0,
                    i as int,
                ));
            }
            i = i + 1;
        }
        proof {
            assert(frontier@.subrange(0, frontier@.len() as int) =~= frontier@);
        }
        result
    } else {
        T::maximum()
    }
}

/// Decides equality of two times through the sorting order: the total order
/// is antisymmetric, so mutual dominance is exactly equality.
pub fn lat_eq<T: Lattice>(a: &T, b: &T) -> (r: bool)
    ensures
        r == (*a == *b),
{
    let r = a.total_le(b) && b.total_le(a);
    proof {
        T::lemma_antisym(*a, *b);
        T::lemma_refl(*a);
    }
    r
}

/// The fold that `advance_by` computes over a non-empty frontier:
/// the iterated meet of `t.sjoin(f)` over the elements `f` of the frontier.
pub open spec fn adv_fold<T: Lattice>(t: T, fs: Seq<T>) -> T
    recommends
        fs.len() > 0,
    decreases fs.len(),
{
    if fs.len() <= 1 {
        t.sjoin(fs[0])
    } else {
        adv_fold(t, fs.drop_last()).smeet(t.sjoin(fs.last()))
    }
}

/// What `advance_by` returns: the fold above, or `smax` on an empty frontier.
pub open spec fn advance<T: Lattice>(t: T, fs: Seq<T>) -> T {
    if fs.len() == 0 {
        T::smax()
    } else {
        adv_fold(t, fs)
    }
}

/// Whether `q` lies in the upward closure of the frontier `fs`: above at
/// least one of its elements.
pub open spec fn in_closure<T: Lattice>(q: T, fs: Seq<T>) -> bool {
    exists|j: int| 0 <= j < fs.len() && (#[trigger] fs[j]).lle(q)
}

/// The order on frontiers: `a` is less or equal to `b` when every element of
/// `b` dominates some element of `a`, so the upward closure of `b` is
/// contained in that of `a`.
pub open spec fn frontier_le<T: Lattice>(a: Seq<T>, b: Seq<T>) -> bool {
    forall|j: int| 0 <= j < b.len() ==> in_closure(#[trigger] b[j], a)
}

/// A time in the closure of `b` is in the closure of any frontier below `b`.
pub proof fn lemma_in_closure_mono<T: Lattice>(q: T, a: Seq<T>, b: Seq<T>)
    requires
        frontier_le(a, b),
        in_closure(q, b),
    ensures
        in_closure(q, a),
{
    let j = choose|j: int| 0 <= j < b.len() && (#[trigger] b[j]).lle(q);
    let i = choose|i: int| 0 <= i < a.len() && (#[trigger] a[i]).lle(b[j]);
    T::lemma_trans(a[i], b[j], q);
}

/// The frontier order is reflexive.
pub proof fn lemma_frontier_le_refl<T: Lattice>(a: Seq<T>)
    ensures
        frontier_le(a, a),
{
    assert forall|j: int| 0 <= j < a.len() implies in_closure(#[trigger] a[j], a) by {
        T::lemma_refl(a[j]);
        assert(a[j].lle(a[j]));
    }
}

/// The frontier order is transitive.
pub proof fn lemma_frontier_le_trans<T: Lattice>(a: Seq<T>, b: Seq<T>, c: Seq<T>)
    requires
        frontier_le(a, b),
        frontier_le(b, c),
    ensures
        frontier_le(a, c),
{
    assert forall|j: int| 0 <= j < c.len() implies in_closure(#[trigger] c[j], a) by {
        lemma_in_closure_mono::<T>(c[j], a, b);
    }
}

/// Decides membership of `q` in the upward closure of `fs`.
pub fn in_closure_exec<T: Lattice>(q: &T, fs: &Vec<T>) -> (r: bool)
    ensures
        r == in_closure(*q, fs@),
{
    let mut i: usize = 0;
    let mut found = false;
    while i < fs.len()
        invariant
            0 <= i <= fs@.len(),
            found ==> in_closure(*q, fs@),
            !found ==> forall|ii: int| 0 <= ii < i ==> !(#[trigger] fs@[ii]).lle(*q),
        decreases fs@.len() - i,
    {
        if !found && fs[i].less_equal(q) {
            found = true;
        }
        i = i + 1;
    }
    found
}

/// Decides the frontier order.
pub fn frontier_le_exec<T: Lattice>(a: &Vec<T>, b: &Vec<T>) -> (r: bool)
    ensures
        r == frontier_le(a@, b@),
{
    let mut j: usize = 0;
    let mut ok = true;
    while j < b.len()
        invariant
            0 <= j <= b@.len(),
            ok ==> forall|jj: int| 0 <= jj < j ==> in_closure(#[trigger] b@[jj], a@),
            !ok ==> !frontier_le(a@, b@),
        decreases b@.len() - j,
    {
        if ok && !in_closure_exec(&b[j], a) {
            ok = false;
        }
        j = j + 1;
    }
    ok
}

/// `advance(t, fs)` lies above `t` and below every `t.sjoin(fs[i])`.
pub proof fn lemma_advance_upper<T: Lattice>(t: T, fs: Seq<T>)
    ensures
        t.lle(advance(t, fs)),
        forall|i: int| 0 <= i < fs.len() ==> advance(t, fs).lle(t.sjoin(#[trigger] fs[i])),
    decreases fs.len(),
{
    if fs.len() == 0 {
        T::lemma_bounds(t);
    } else if fs.len() == 1 {
        T::lemma_join_lub(t, fs[0], t);
        T::lemma_refl(t.sjoin(fs[0]));
    } else {
        let pre = fs.drop_last();
        lemma_advance_upper::<T>(t, pre);
        let a = adv_fold(t, pre);
        let b = t.sjoin(fs.last());
        T::lemma_meet_glb(a, b, t);
        T::lemma_join_lub(t, fs.last(), t);
        assert forall|i: int| 0 <= i < fs.len() implies advance(t, fs).lle(
            t.sjoin(#[trigger] fs[i]),
        ) by {
            T::lemma_meet_glb(a, b, t);
            if i < fs.len() - 1 {
                assert(pre[i] == fs[i]);
                assert(a.lle(t.sjoin(fs[i])));
                T::lemma_trans(a.smeet(b), a, t.sjoin(fs[i]));
            }
        }
    }
}

/// Any common lower bound of the `t.sjoin(fs[i])` lies below `advance(t, fs)`.
pub proof fn lemma_advance_lower<T: Lattice>(t: T, fs: Seq<T>, x: T)
    requires
        fs.len() > 0,
        forall|i: int| 0 <= i < fs.len() ==> x.lle(t.sjoin(#[trigger] fs[i])),
    ensures
        x.lle(advance(t, fs)),
    decreases fs.len(),
{
    if fs.len() == 1 {
        assert(x.lle(t.sjoin(fs[0])));
    } else {
        let pre = fs.drop_last();
        assert forall|i: int| 0 <= i < pre.len() implies x.lle(t.sjoin(#[trigger] pre[i])) by {
            assert(pre[i] == fs[i]);
        }
        lemma_advance_lower::<T>(t, pre, x);
        let a = adv_fold(t, pre);
        let b = t.sjoin(fs.last());
        assert(x.lle(b));
        T::lemma_meet_glb(a, b, x);
    }
}

/// The lattice laws: join is commutative, the bounds are units of join and
/// meet, and join distributes over meet at least inequationally.
pub proof fn lemma_lattice_laws<T: Lattice>(a: T, b: T, c: T)
    ensures
        a.sjoin(b) == b.sjoin(a),
        a.sjoin(T::smin()) == a,
        a.smeet(T::smax()) == a,
        a.sjoin(b.smeet(c)).lle(a.sjoin(b).smeet(a.sjoin(c))),
{
    // Commutativity: each of the two joins is a least upper bound of {a, b}.
    T::lemma_join_lub(a, b, b.sjoin(a));
    T::lemma_join_lub(b, a, a.sjoin(b));
    T::lemma_antisym(a.sjoin(b), b.sjoin(a));
    // Identity of the least element.
    T::lemma_bounds(a);
    T::lemma_refl(a);
    T::lemma_join_lub(a, T::smin(), a);
    T::lemma_antisym(a.sjoin(T::smin()), a);
    // Identity of the greatest element.
    T::lemma_meet_glb(a, T::smax(), a);
    T::lemma_antisym(a.smeet(T::smax()), a);
    // Sub-distributivity.
    T::lemma_meet_glb(b, c, b.smeet(c));
    T::lemma_join_lub(a, b.smeet(c), a.sjoin(b));
    T::lemma_join_lub(a, b.smeet(c), a.sjoin(c));
    T::lemma_join_lub(a, b, a.sjoin(b));
    T::lemma_join_lub(a, c, a.sjoin(c));
    T::lemma_trans(b.smeet(c), b, a.sjoin(b));
    T::lemma_trans(b.smeet(c), c, a.sjoin(c));
    T::lemma_meet_glb(a.sjoin(b), a.sjoin(c), a.sjoin(b.smeet(c)));
}

/// Advancing is idempotent: advancing an already advanced time by the same
/// frontier leaves it unchanged.
pub proof fn lemma_advance_idempotent<T: Lattice>(t: T, fs: Seq<T>)
    ensures
        advance(advance(t, fs), fs) == advance(t, fs),
{
    let r = advance(t, fs);
    if fs.len() == 0 {
        let m = T::smax();
        lemma_advance_upper::<T>(m, fs);
        T::lemma_bounds(advance(m, fs));
        T::lemma_antisym(advance(m, fs), m);
    } else {
        let r2 = advance(r, fs);
        lemma_advance_upper::<T>(t, fs);
        lemma_advance_upper::<T>(r, fs);
        // r2 lies below each r.sjoin(fs[i]), which lies below t.sjoin(fs[i]).
        assert forall|i: int| 0 <= i < fs.len() implies r2.lle(t.sjoin(#[trigger] fs[i])) by {
            T::lemma_join_lub(t, fs[i], t.sjoin(fs[i]));
            T::lemma_refl(t.sjoin(fs[i]));
            // r lle t.sjoin(fs[i]) and fs[i] lle t.sjoin(fs[i]).
            T::lemma_join_lub(r, fs[i], t.sjoin(fs[i]));
            T::lemma_trans(r2, r.sjoin(fs[i]), t.sjoin(fs[i]));
        }
        lemma_advance_lower::<T>(t, fs, r2);
        T::lemma_antisym(r2, r);
    }
}

/// Advancing preserves how a time compares to every query time in the upward
/// closure of the frontier: if `q` dominates some frontier element, then
/// `t` is visible at `q` exactly when `advance(t, fs)` is.
pub proof fn lemma_advance_semantics<T: Lattice>(t: T, fs: Seq<T>, q: T)
    requires
        in_closure(q, fs),
    ensures
        t.lle(q) == advance(t, fs).lle(q),
{
    let j = choose|j: int| 0 <= j < fs.len() && (#[trigger] fs[j]).lle(q);
    let r = advance(t, fs);
    lemma_advance_upper::<T>(t, fs);
    if t.lle(q) {
        // t.sjoin(fs[j]) lle q, and r lies below it.
        T::lemma_join_lub(t, fs[j], q);
        T::lemma_trans(r, t.sjoin(fs[j]), q);
    }
    if r.lle(q) {
        T::lemma_trans(t, r, q);
    }
}

/// Among all times that compare like `t` against every query time above the
/// frontier, `advance(t, fs)` is the largest.
pub proof fn lemma_advance_maximal<T: Lattice>(t: T, fs: Seq<T>, t2: T)
    requires
        fs.len() > 0,
        forall|q: T| in_closure(q, fs) ==> (t.lle(q) == #[trigger] t2.lle(q)),
    ensures
        t2.lle(advance(t, fs)),
{
    assert forall|i: int| 0 <= i < fs.len() implies t2.lle(t.sjoin(#[trigger] fs[i])) by {
        let q = t.sjoin(fs[i]);
        T::lemma_join_lub(t, fs[i], q);
        T::lemma_refl(q);
        assert(fs[i].lle(q));
        assert(t.lle(q));
        assert(t2.lle(q));
    }
    lemma_advance_lower::<T>(t, fs, t2);
}

impl Lattice for u64 {
    open spec fn lle(self, other: Self) -> bool {
        self <= other
    }

    open spec fn tle(self, other: Self) -> bool {
        self <= other
    }

    open spec fn sjoin(self, other: Self) -> Self {
        if self >= other {
            self
        } else {
            other
        }
    }

    open spec fn smeet(self, other: Self) -> Self {
        if self <= other {
            self
        } else {
            other
        }
    }

    open spec fn smin() -> Self {
        0u64
    }

    open spec fn smax() -> Self {
        0xffff_ffff_ffff_ffffu64
    }

    fn less_equal(&self, other: &Self) -> (r: bool) {
        *self <= *other
    }

    fn total_le(&self, other: &Self) -> (r: bool) {
        *self <= *other
    }

    fn join(&self, other: &Self) -> (r: Self) {
        if *self >= *other {
            *self
        } else {
            *other
        }
    }

    fn meet(&self, other: &Self) -> (r: Self) {
        if *self <= *other {
            *self
        } else {
            *other
        }
    }

    fn minimum() -> (r: Self) {
        0u64
    }

    fn maximum() -> (r: Self) {
        0xffff_ffff_ffff_ffffu64
    }

    proof fn lemma_refl(a: Self) {
    }

    proof fn lemma_trans(a: Self, b: Self, c: Self) {
    }

    proof fn lemma_antisym(a: Self, b: Self) {
    }

    proof fn lemma_total(a: Self, b: Self) {
    }

    proof fn lemma_join_lub(a: Self, b: Self, u: Self) {
    }

    proof fn lemma_meet_glb(a: Self, b: Self, u: Self) {
    }

    proof fn lemma_bounds(a: Self) {
    }
}

} // verus!
