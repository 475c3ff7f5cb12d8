//! A restartable, in-order reader over a batch.
//!
//! A cursor is positioned at a key and, within it, at a value; it exposes
//! the `(time, diff)` pairs of the current pair, and navigates by stepping
//! or seeking keys and values, only ever forward, until rewound.

use vstd::prelude::*;
use crate::batch::Batch;
use crate::lattice::Lattice;
use crate::update::{kvt_lt, lemma_kvt_order, Update};

verus! {

/// A reader positioned in a batch: `kpos` indexes the first record of the
/// current key, `vpos` the first record of the current value.
pub struct Cursor<T: Lattice> {
    /// The batch being read.
    pub batch: Batch<T>,
    /// The index of the first record of the current key.
    pub kpos: usize,
    /// The index of the first record of the current value, at or after
    /// `kpos`.
    pub vpos: usize,
}

impl<T: Lattice> Cursor<T> {
    /// Well-formedness: the batch is well formed and the positions are in
    /// range, the value position within the current key.
    pub open spec fn wf(self) -> bool {
        &&& self.batch.wf()
        &&& self.kpos <= self.vpos <= self.batch.recs@.len()
        &&& (self.vpos < self.batch.recs@.len() && self.kpos < self.batch.recs@.len()
            ==> self.batch.recs@[self.vpos as int].key >= self.batch.recs@[self.kpos as int].key)
    }

    /// Opens a cursor at the start of a batch.
    pub fn new(batch: &Batch<T>) -> (c: Self)
        requires
            batch.wf(),
        ensures
            c.wf(),
            c.batch.recs@ == batch.recs@,
            c.kpos == 0,
            c.vpos == 0,
    {
        Cursor { batch: batch.duplicate(), kpos: 0, vpos: 0 }
    }

    /// Whether the cursor rests on a key.
    pub fn key_valid(&self) -> (r: bool)
        ensures
            r == (self.kpos < self.batch.recs@.len()),
    {
        self.kpos < self.batch.recs.len()
    }

    /// Whether the cursor rests on a value of the current key.
    pub fn val_valid(&self) -> (r: bool)
        ensures
            r == (self.vpos < self.batch.recs@.len() && self.kpos < self.batch.recs@.len()
                && self.batch.recs@[self.vpos as int].key == self.batch.recs@[
                self.kpos as int].key),
    {
        self.vpos < self.batch.recs.len() && self.kpos < self.batch.recs.len()
            && self.batch.recs[self.vpos].key == self.batch.recs[self.kpos].key
    }

    /// The current key.
    pub fn key(&self) -> (k: u64)
        requires
            self.kpos < self.batch.recs@.len(),
        ensures
            k == self.batch.recs@[self.kpos as int].key,
    {
        self.batch.recs[self.kpos].key
    }

    /// The current value.
    pub fn val(&self) -> (v: u64)
        requires
            self.vpos < self.batch.recs@.len(),
        ensures
            v == self.batch.recs@[self.vpos as int].val,
    {
        self.batch.recs[self.vpos].val
    }

    /// The `(time, diff)` pairs of the current `(key, val)`: the contiguous
    /// run of records starting at the value position.
    pub fn map_times(&self) -> (r: Vec<(T, i64)>)
        requires
            self.wf(),
            self.vpos < self.batch.recs@.len(),
        ensures
            forall|i: int|
                0 <= i < r@.len() ==> (#[trigger] r@[i]).0 == self.batch.recs@[self.vpos + i].time
                    && r@[i].1 == self.batch.recs@[self.vpos + i].diff,
            forall|i: int|
                0 <= i < r@.len() ==> (#[trigger] self.batch.recs@[self.vpos + i]).key
                    == self.batch.recs@[self.vpos as int].key && self.batch.recs@[self.vpos
                    + i].val == self.batch.recs@[self.vpos as int].val,
            r@.len() >= 1,
            self.vpos + r@.len() == self.batch.recs@.len() || !(self.batch.recs@[self.vpos
                + r@.len()].key == self.batch.recs@[self.vpos as int].key && self.batch.recs@[
            self.vpos + r@.len()].val == self.batch.recs@[self.vpos as int].val),
    {
        let recs = &self.batch.recs;
        let k = recs[self.vpos].key;
        let v = recs[self.vpos].val;
        let mut r: Vec<(T, i64)> = Vec::new();
        let mut i: usize = self.vpos;
        while i < recs.len() && recs[i].key == k && recs[i].val == v
            invariant
                self.vpos <= i <= recs@.len(),
                k == recs@[self.vpos as int].key,
                v == recs@[self.vpos as int].val,
                recs@ == self.batch.recs@,
                r@.len() == i - self.vpos,
                forall|j: int|
                    0 <= j < r@.len() ==> (#[trigger] r@[j]).0 == recs@[self.vpos + j].time && r@[
                    j].1 == recs@[self.vpos + j].diff,
                forall|j: int|
                    0 <= j < r@.len() ==> (#[trigger] recs@[self.vpos + j]).key == k && recs@[
                    self.vpos + j].val == v,
            decreases recs@.len() - i,
        {
            r.push((recs[i].time, recs[i].diff));
            i = i + 1;
        }
        r
    }

    /// Steps to the next value of the current key.
    pub fn step_val(&mut self)
        requires
            old(self).wf(),
            old(self).vpos < old(self).batch.recs@.len(),
        ensures
            final(self).wf(),
            final(self).batch.recs@ == old(self).batch.recs@,
            final(self).kpos == old(self).kpos,
            final(self).vpos > old(self).vpos,
            forall|i: int|
                old(self).vpos <= i < final(self).vpos ==> (#[trigger] final(self).batch.recs@[
                i]).key == old(self).batch.recs@[old(self).vpos as int].key && final(self).batch.recs@[i].val == old(self).batch.recs@[old(self).vpos as int].val,
            final(self).vpos == final(self).batch.recs@.len() || !(final(self).batch.recs@[final(self).vpos as int].key == old(self).batch.recs@[old(self).vpos as int].key && final(self).batch.recs@[final(self).vpos as int].val == old(self).batch.recs@[old(self).vpos as int].val),
    {
        let recs = &self.batch.recs;
        let k = recs[self.vpos].key;
        let v = recs[self.vpos].val;
        let mut i: usize = self.vpos;
        while i < recs.len() && recs[i].key == k && recs[i].val == v
            invariant
                old(self).vpos <= i <= recs@.len(),
                recs@ == old(self).batch.recs@,
                k == recs@[old(self).vpos as int].key,
                v == recs@[old(self).vpos as int].val,
                forall|j: int|
                    old(self).vpos <= j < i ==> (#[trigger] recs@[j]).key == k && recs@[j].val
                        == v,
            decreases recs@.len() - i,
        {
            i = i + 1;
        }
        proof {
            lemma_keys_sorted(self.batch.recs@, self.kpos as int, i as int);
        }
        self.vpos = i;
    }

    /// Steps to the next key.
    pub fn step_key(&mut self)
        requires
            old(self).wf(),
            old(self).kpos < old(self).batch.recs@.len(),
        ensures
            final(self).wf(),
            final(self).batch.recs@ == old(self).batch.recs@,
            final(self).kpos > old(self).kpos,
            final(self).vpos == final(self).kpos,
            forall|i: int|
                old(self).kpos <= i < final(self).kpos ==> (#[trigger] final(self).batch.recs@[
                i]).key == old(self).batch.recs@[old(self).kpos as int].key,
            final(self).kpos == final(self).batch.recs@.len() || final(self).batch.recs@[final(self).kpos as int].key != old(self).batch.recs@[old(self).kpos as int].key,
    {
        let recs = &self.batch.recs;
        let k = recs[self.kpos].key;
        let mut i: usize = self.kpos;
        while i < recs.len() && recs[i].key == k
            invariant
                old(self).kpos <= i <= recs@.len(),
                recs@ == old(self).batch.recs@,
                k == recs@[old(self).kpos as int].key,
                forall|j: int| old(self).kpos <= j < i ==> (#[trigger] recs@[j]).key == k,
            decreases recs@.len() - i,
        {
            i = i + 1;
        }
        self.kpos = i;
        self.vpos = i;
    }

    /// Seeks forward to the first key at or beyond `x`; a position already
    /// past stays put.
    pub fn seek_key(&mut self, x: u64)
        requires
            old(self).wf(),
        ensures
            final(self).wf(),
            final(self).batch.recs@ == old(self).batch.recs@,
            final(self).kpos >= old(self).kpos,
            final(self).vpos == final(self).kpos,
            forall|i: int|
                old(self).kpos <= i < final(self).kpos ==> (#[trigger] final(self).batch.recs@[
                i]).key < x,
            final(self).kpos == final(self).batch.recs@.len() || final(self).batch.recs@[final(self).kpos as int].key >= x || final(self).kpos == old(self).kpos,
    {
        let recs = &self.batch.recs;
        let mut i: usize = self.kpos;
        while i < recs.len() && recs[i].key < x
            invariant
                old(self).kpos <= i <= recs@.len(),
                recs@ == old(self).batch.recs@,
                forall|j: int| old(self).kpos <= j < i ==> (#[trigger] recs@[j]).key < x,
            decreases recs@.len() - i,
        {
            i = i + 1;
        }
        self.kpos = i;
        self.vpos = i;
    }

    /// Seeks forward, within the current key, to the first value at or
    /// beyond `x`.
    pub fn seek_val(&mut self, x: u64)
        requires
            old(self).wf(),
            old(self).kpos < old(self).batch.recs@.len(),
        ensures
            final(self).wf(),
            final(self).batch.recs@ == old(self).batch.recs@,
            final(self).kpos == old(self).kpos,
            final(self).vpos >= old(self).vpos,
            forall|i: int|
                old(self).vpos <= i < final(self).vpos ==> (#[trigger] final(self).batch.recs@[
                i]).key == old(self).batch.recs@[old(self).kpos as int].key && final(self).batch.recs@[i].val < x,
    {
        let recs = &self.batch.recs;
        let k = recs[self.kpos].key;
        let mut i: usize = self.vpos;
        while i < recs.len() && recs[i].key == k && recs[i].val < x
            invariant
                old(self).vpos <= i <= recs@.len(),
                recs@ == old(self).batch.recs@,
                k == recs@[old(self).kpos as int].key,
                forall|j: int|
                    old(self).vpos <= j < i ==> (#[trigger] recs@[j]).key == k && recs@[j].val
                        < x,
            decreases recs@.len() - i,
        {
            i = i + 1;
        }
        proof {
            lemma_keys_sorted(self.batch.recs@, self.kpos as int, i as int);
        }
        self.vpos = i;
    }

    /// Rewinds to the first key.
    pub fn rewind_keys(&mut self)
        requires
            old(self).wf(),
        ensures
            final(self).wf(),
            final(self).batch.recs@ == old(self).batch.recs@,
            final(self).kpos == 0,
            final(self).vpos == 0,
    {
        self.kpos = 0;
        self.vpos = 0;
    }

    /// Rewinds to the first value of the current key.
    pub fn rewind_vals(&mut self)
        requires
            old(self).wf(),
        ensures
            final(self).wf(),
            final(self).batch.recs@ == old(self).batch.recs@,
            final(self).kpos == old(self).kpos,
            final(self).vpos == final(self).kpos,
    {
        self.vpos = self.kpos;
        proof {
            if self.kpos < self.batch.recs@.len() {
                lemma_keys_sorted(self.batch.recs@, self.kpos as int, self.kpos as int);
            }
        }
    }
}

/// In a sorted batch, keys never decrease.
proof fn lemma_keys_sorted<T: Lattice>(s: Seq<Update<T>>, i: int, j: int)
    requires
        crate::update::sorted(s),
        0 <= i <= j,
        i < s.len(),
    ensures
        j < s.len() ==> s[j].key >= s[i].key,
{
    if j < s.len() && i < j {
        assert(kvt_lt(s[i], s[j]));
        lemma_kvt_order(s[i], s[j], s[j]);
    }
}

} // verus!
