//! A two-point refinement of a timestamp, used to linearise the relations of
//! a delta query at equal outer times.
//!
//! `AltNeu<T>` pairs a time with a flag: `alt` (the flag unset) sits strictly
//! before `neu` (the flag set) at the same time. In a delta query each
//! joined relation is entered either "before" (`alt`) or "after" (`neu`) the
//! relation whose change drives the query, so that summing the per-relation
//! delta streams counts every match exactly once.

use vstd::prelude::*;
use crate::batch::Batch;
use crate::lattice::{lat_eq, Lattice};
use crate::update::{kvt_lt, lemma_kvt_order, Update};

verus! {

/// A timestamp refined with an `alt`/`neu` flag; `alt` comes first.
#[derive(Clone, Copy, Debug)]
pub struct AltNeu<T> {
    /// The underlying timestamp.
    pub time: T,
    /// False for `alt` (before the driving change), true for `neu` (after).
    pub neu: bool,
}

impl<T> AltNeu<T> {
    /// Lifts a time to the `alt` refinement, strictly before `neu` at the
    /// same time.
    pub fn alt(time: T) -> (r: Self)
        ensures
            r.time == time,
            r.neu == false,
    {
        AltNeu { time, neu: false }
    }

    /// Lifts a time to the `neu` refinement, strictly after `alt` at the
    /// same time.
    pub fn neu(time: T) -> (r: Self)
        ensures
            r.time == time,
            r.neu == true,
    {
        AltNeu { time, neu: true }
    }
}

impl<T: Lattice> Lattice for AltNeu<T> {
    open spec fn lle(self, other: Self) -> bool {
        self.time.lle(other.time) && (self.time == other.time ==> (!self.neu || other.neu))
    }

    open spec fn tle(self, other: Self) -> bool {
        if self.time == other.time {
            !self.neu || other.neu
        } else {
            self.time.tle(other.time)
        }
    }

    open spec fn sjoin(self, other: Self) -> Self {
        let time = self.time.sjoin(other.time);
        AltNeu { time, neu: (time == self.time && self.neu) || (time == other.time && other.neu) }
    }

    open spec fn smeet(self, other: Self) -> Self {
        let time = self.time.smeet(other.time);
        AltNeu {
            time,
            neu: (time == self.time ==> self.neu) && (time == other.time ==> other.neu),
        }
    }

    open spec fn smin() -> Self {
        AltNeu { time: T::smin(), neu: false }
    }

    open spec fn smax() -> Self {
        AltNeu { time: T::smax(), neu: true }
    }

    fn less_equal(&self, other: &Self) -> (r: bool) {
        self.time.less_equal(&other.time) && (!lat_eq(&self.time, &other.time) || !self.neu
            || other.neu)
    }

    fn total_le(&self, other: &Self) -> (r: bool) {
        if lat_eq(&self.time, &other.time) {
            !self.neu || other.neu
        } else {
            self.time.total_le(&other.time)
        }
    }

    fn join(&self, other: &Self) -> (r: Self) {
        let time = self.time.join(&other.time);
        let neu = (lat_eq(&time, &self.time) && self.neu) || (lat_eq(&time, &other.time)
            && other.neu);
        AltNeu { time, neu }
    }

    fn meet(&self, other: &Self) -> (r: Self) {
        let time = self.time.meet(&other.time);
        let neu = (!lat_eq(&time, &self.time) || self.neu) && (!lat_eq(&time, &other.time)
            || other.neu);
        AltNeu { time, neu }
    }

    fn minimum() -> (r: Self) {
        AltNeu { time: T::minimum(), neu: false }
    }

    fn maximum() -> (r: Self) {
        AltNeu { time: T::maximum(), neu: true }
    }

    proof fn lemma_refl(a: Self) {
        T::lemma_refl(a.time);
    }

    proof fn lemma_trans(a: Self, b: Self, c: Self) {
        T::lemma_trans(a.time, b.time, c.time);
        T::lemma_antisym(a.time, b.time);
        T::lemma_antisym(b.time, c.time);
        T::lemma_antisym(a.time, c.time);
    }

    proof fn lemma_antisym(a: Self, b: Self) {
        T::lemma_antisym(a.time, b.time);
        T::lemma_refl(a.time);
    }

    proof fn lemma_total(a: Self, b: Self) {
        T::lemma_total(a.time, b.time);
    }

    proof fn lemma_join_lub(a: Self, b: Self, u: Self) {
        T::lemma_join_lub(a.time, b.time, u.time);
        T::lemma_refl(a.time);
        T::lemma_refl(b.time);
        T::lemma_antisym(a.time, b.time);
        T::lemma_antisym(a.time.sjoin(b.time), u.time);
    }

    proof fn lemma_meet_glb(a: Self, b: Self, u: Self) {
        T::lemma_meet_glb(a.time, b.time, u.time);
        T::lemma_refl(a.time);
        T::lemma_refl(b.time);
        T::lemma_antisym(a.time, b.time);
        T::lemma_antisym(u.time, a.time.smeet(b.time));
    }

    proof fn lemma_bounds(a: Self) {
        T::lemma_bounds(a.time);
        T::lemma_antisym(T::smin(), a.time);
        T::lemma_antisym(a.time, T::smax());
    }
}

/// Lifts a batch into a delta-query scope: every time and bound is refined
/// with the given role, `alt` placing the relation before the driving change
/// at equal times and `neu` after, as entering an arranged stream does.
pub fn enter_at<T: Lattice>(b: &Batch<T>, neu_role: bool) -> (r: Batch<AltNeu<T>>)
    requires
        b.wf(),
    ensures
        r.wf(),
        r.recs@.len() == b.recs@.len(),
        forall|i: int|
            0 <= i < b.recs@.len() ==> (#[trigger] r.recs@[i]) == (Update {
                key: b.recs@[i].key,
                val: b.recs@[i].val,
                time: AltNeu { time: b.recs@[i].time, neu: neu_role },
                diff: b.recs@[i].diff,
            }),
        r.lower@.len() == b.lower@.len(),
        forall|i: int|
            0 <= i < b.lower@.len() ==> (#[trigger] r.lower@[i]) == (AltNeu {
                time: b.lower@[i],
                neu: neu_role,
            }),
        r.upper@.len() == b.upper@.len(),
        forall|i: int|
            0 <= i < b.upper@.len() ==> (#[trigger] r.upper@[i]) == (AltNeu {
                time: b.upper@[i],
                neu: neu_role,
            }),
{
    let mut recs: Vec<Update<AltNeu<T>>> = Vec::new();
    let mut i: usize = 0;
    while i < b.recs.len()
        invariant
            i <= b.recs@.len(),
            recs@.len() == i,
            forall|j: int|
                0 <= j < i ==> (#[trigger] recs@[j]) == (Update {
                    key: b.recs@[j].key,
                    val: b.recs@[j].val,
                    time: AltNeu { time: b.recs@[j].time, neu: neu_role },
                    diff: b.recs@[j].diff,
                }),
        decreases b.recs@.len() - i,
    {
        let u = b.recs[i];
        recs.push(Update { key: u.key, val: u.val, time: AltNeu { time: u.time, neu: neu_role }, diff: u.diff });
        i = i + 1;
    }
    let mut lower: Vec<AltNeu<T>> = Vec::new();
    let mut j: usize = 0;
    while j < b.lower.len()
        invariant
            j <= b.lower@.len(),
            lower@.len() == j,
            forall|e: int|
                0 <= e < j ==> (#[trigger] lower@[e]) == (AltNeu {
                    time: b.lower@[e],
                    neu: neu_role,
                }),
        decreases b.lower@.len() - j,
    {
        lower.push(AltNeu { time: b.lower[j], neu: neu_role });
        j = j + 1;
    }
    let mut upper: Vec<AltNeu<T>> = Vec::new();
    let mut j2: usize = 0;
    while j2 < b.upper.len()
        invariant
            j2 <= b.upper@.len(),
            upper@.len() == j2,
            forall|e: int|
                0 <= e < j2 ==> (#[trigger] upper@[e]) == (AltNeu {
                    time: b.upper@[e],
                    neu: neu_role,
                }),
        decreases b.upper@.len() - j2,
    {
        upper.push(AltNeu { time: b.upper[j2], neu: neu_role });
        j2 = j2 + 1;
    }
    proof {
        // Refining every time with one role preserves the record order.
        assert forall|a: int, c: int| 0 <= a < c < recs@.len() implies kvt_lt(
            #[trigger] recs@[a],
            #[trigger] recs@[c],
        ) by {
            assert(kvt_lt(b.recs@[a], b.recs@[c]));
            lemma_kvt_order(b.recs@[a], b.recs@[c], b.recs@[c]);
            T::lemma_refl(b.recs@[a].time);
            T::lemma_antisym(b.recs@[a].time, b.recs@[c].time);
            if b.recs@[a].key == b.recs@[c].key && b.recs@[a].val == b.recs@[c].val {
                assert(b.recs@[a].time.tle(b.recs@[c].time));
                assert(b.recs@[a].time != b.recs@[c].time);
            }
        }
    }
    Batch { recs, lower, upper }
}

} // verus!
