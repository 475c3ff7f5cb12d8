//! A shared handle to a spine, read by several operators at once.
//!
//! Each reader of an arrangement holds its own compaction frontier. The
//! trace itself may only compact against a frontier that every reader still
//! dominates, so the arrangement keeps the trace's frontier at the meet of
//! the readers': whenever a reader advances, the trace advances to the union
//! of all reader frontiers, whose upward closure is exactly the union of the
//! readers' closures. Dropping the last reader drops every batch.

use vstd::prelude::*;
use crate::batch::copy_vec;
use crate::lattice::{
    frontier_le, in_closure, lemma_frontier_le_refl, lemma_frontier_le_trans, Lattice,
};
use crate::spine::Spine;

verus! {

/// Whether `x` is an element of some reader's frontier.
pub open spec fn from_readers<T: Lattice>(readers: Seq<Vec<T>>, x: T) -> bool {
    exists|i: int, j: int|
        0 <= i < readers.len() && 0 <= j < readers[i]@.len() && (#[trigger] readers[i]@[j]) == x
}

/// Whether `x` is an element of the frontier `u`.
pub open spec fn in_frontier<T: Lattice>(u: Seq<T>, x: T) -> bool {
    exists|e: int| 0 <= e < u.len() && (#[trigger] u[e]) == x
}

/// A spine shared by several readers, each with its own frontier.
pub struct Arrangement<T: Lattice> {
    /// The shared trace.
    pub trace: Spine<T>,
    /// The compaction frontier each live reader holds.
    pub readers: Vec<Vec<T>>,
}

impl<T: Lattice> Arrangement<T> {
    /// Well-formedness: the trace is well formed, and its compaction
    /// frontier lies at or below every reader's.
    pub open spec fn wf(self) -> bool {
        &&& self.trace.wf()
        &&& forall|i: int|
            0 <= i < self.readers@.len() ==> frontier_le(
                self.trace.advance_frontier@,
                (#[trigger] self.readers@[i])@,
            )
    }

    /// Wraps a trace as an arrangement with no readers yet.
    pub fn arrange(trace: Spine<T>) -> (a: Self)
        requires
            trace.wf(),
        ensures
            a.wf(),
            a.readers@.len() == 0,
            a.trace == trace,
    {
        Arrangement { trace, readers: Vec::new() }
    }

    /// Registers a new reader, holding the trace's current frontier; returns
    /// its handle.
    pub fn new_reader(&mut self) -> (r: usize)
        requires
            old(self).wf(),
        ensures
            final(self).wf(),
            r == old(self).readers@.len(),
            final(self).readers@.len() == r + 1,
            final(self).readers@[r as int]@ == old(self).trace.advance_frontier@,
            final(self).trace == old(self).trace,
            forall|i: int|
                0 <= i < old(self).readers@.len() ==> final(self).readers@[i] == old(
                    self,
                ).readers@[i],
    {
        let r = self.readers.len();
        let f = copy_vec(&self.trace.advance_frontier);
        self.readers.push(f);
        proof {
            lemma_frontier_le_refl(self.trace.advance_frontier@);
        }
        r
    }

    /// The union of every reader's frontier: a frontier whose upward closure
    /// covers every reader's queries.
    fn union_frontier(&self) -> (u: Vec<T>)
        ensures
            forall|e: int| 0 <= e < u@.len() ==> from_readers(self.readers@, #[trigger] u@[e]),
            forall|i: int, j: int|
                0 <= i < self.readers@.len() && 0 <= j < self.readers@[i]@.len() ==> in_frontier(
                    u@,
                    #[trigger] self.readers@[i]@[j],
                ),
    {
        let mut u: Vec<T> = Vec::new();
        let mut i: usize = 0;
        while i < self.readers.len()
            invariant
                i <= self.readers@.len(),
                forall|e: int| 0 <= e < u@.len() ==> from_readers(self.readers@, #[trigger] u@[e]),
                forall|a: int, j: int|
                    0 <= a < i && 0 <= j < self.readers@[a]@.len() ==> in_frontier(
                        u@,
                        #[trigger] self.readers@[a]@[j],
                    ),
            decreases self.readers@.len() - i,
        {
            let mut j: usize = 0;
            while j < self.readers[i].len()
                invariant
                    i < self.readers@.len(),
                    j <= self.readers@[i as int]@.len(),
                    forall|e: int|
                        0 <= e < u@.len() ==> from_readers(self.readers@, #[trigger] u@[e]),
                    forall|a: int, jj: int|
                        0 <= a < i && 0 <= jj < self.readers@[a]@.len() ==> in_frontier(
                            u@,
                            #[trigger] self.readers@[a]@[jj],
                        ),
                    forall|jj: int|
                        0 <= jj < j ==> in_frontier(u@, #[trigger] self.readers@[i as int]@[jj]),
                decreases self.readers@[i as int]@.len() - j,
            {
                let ghost pre = u@;
                u.push(self.readers[i][j]);
                proof {
                    assert(u@[u@.len() - 1] == self.readers@[i as int]@[j as int]);
                    assert forall|e: int| 0 <= e < u@.len() implies from_readers(
                        self.readers@,
                        #[trigger] u@[e],
                    ) by {
                        if e < pre.len() {
                            assert(u@[e] == pre[e]);
                        }
                    }
                    assert forall|a: int, jj: int|
                        0 <= a < i && 0 <= jj < self.readers@[a]@.len() implies in_frontier(
                        u@,
                        #[trigger] self.readers@[a]@[jj],
                    ) by {
                        let e = choose|e: int|
                            0 <= e < pre.len() && (#[trigger] pre[e]) == self.readers@[a]@[jj];
                        assert(u@[e] == self.readers@[a]@[jj]);
                    }
                    assert forall|jj: int| 0 <= jj < j + 1 implies in_frontier(
                        u@,
                        #[trigger] self.readers@[i as int]@[jj],
                    ) by {
                        if jj < j {
                            let e = choose|e: int|
                                0 <= e < pre.len() && (#[trigger] pre[e]) == self.readers@[
                                i as int]@[jj];
                            assert(u@[e] == self.readers@[i as int]@[jj]);
                        } else {
                            assert(u@[u@.len() - 1] == self.readers@[i as int]@[jj]);
                        }
                    }
                }
                j = j + 1;
            }
            i = i + 1;
        }
        u
    }

    /// Compacts the trace as far as every reader allows: its frontier
    /// becomes the union of the readers'.
    fn compact_trace(&mut self)
        requires
            old(self).wf(),
        ensures
            final(self).wf(),
            final(self).readers@ == old(self).readers@,
            final(self).trace.history@ == old(self).trace.history@,
            old(self).readers@.len() == 0 ==> final(self).trace.live().len() == 0,
            // The trace's frontier carries exactly the readers' elements.
            forall|e: int|
                0 <= e < final(self).trace.advance_frontier@.len() ==> from_readers(
                    final(self).readers@,
                    #[trigger] final(self).trace.advance_frontier@[e],
                ),
            forall|i: int, j: int|
                0 <= i < final(self).readers@.len() && 0 <= j < final(self).readers@[i]@.len()
                    ==> in_frontier(
                    final(self).trace.advance_frontier@,
                    #[trigger] final(self).readers@[i]@[j],
                ),
    {
        let u = self.union_frontier();
        proof {
            // The trace's frontier lies below the union: every union element
            // is some reader's element, which dominates it.
            assert forall|e: int| 0 <= e < u@.len() implies in_closure(
                #[trigger] u@[e],
                self.trace.advance_frontier@,
            ) by {
                assert(from_readers(self.readers@, u@[e]));
                let (i, j) = choose|i: int, j: int|
                    0 <= i < self.readers@.len() && 0 <= j < self.readers@[i]@.len() && (
                    #[trigger] self.readers@[i]@[j]) == u@[e];
                assert(frontier_le(self.trace.advance_frontier@, self.readers@[i]@));
                assert(in_closure(self.readers@[i]@[j], self.trace.advance_frontier@));
            }
            if self.readers@.len() == 0 {
                assert(u@.len() == 0) by {
                    if u@.len() > 0 {
                        assert(from_readers(self.readers@, u@[0]));
                        let (i, j) = choose|i: int, j: int|
                            0 <= i < self.readers@.len() && 0 <= j < self.readers@[i]@.len() && (
                            #[trigger] self.readers@[i]@[j]) == u@[0];
                        assert(false);
                    }
                }
            }
        }
        self.trace.advance_by(&u);
        proof {
            // Every reader still dominates the union.
            assert forall|i: int| 0 <= i < self.readers@.len() implies frontier_le(
                self.trace.advance_frontier@,
                (#[trigger] self.readers@[i])@,
            ) by {
                assert forall|j: int| 0 <= j < self.readers@[i]@.len() implies in_closure(
                    #[trigger] self.readers@[i]@[j],
                    u@,
                ) by {
                    assert(in_frontier(u@, self.readers@[i]@[j]));
                    let e = choose|e: int|
                        0 <= e < u@.len() && (#[trigger] u@[e]) == self.readers@[i]@[j];
                    T::lemma_refl(u@[e]);
                }
            }
        }
    }

    /// Advances one reader's frontier, which only ever moves forward, and
    /// compacts the trace as far as every reader now allows.
    pub fn advance_reader(&mut self, r: usize, frontier: &Vec<T>)
        requires
            old(self).wf(),
            r < old(self).readers@.len(),
            frontier_le(old(self).readers@[r as int]@, frontier@),
        ensures
            final(self).wf(),
            final(self).readers@.len() == old(self).readers@.len(),
            final(self).readers@[r as int]@ == frontier@,
            forall|i: int|
                0 <= i < old(self).readers@.len() && i != r ==> final(self).readers@[i] == old(
                    self,
                ).readers@[i],
            final(self).trace.history@ == old(self).trace.history@,
            // The trace compacted as far as every reader now allows: its
            // frontier carries exactly the readers' elements.
            forall|e: int|
                0 <= e < final(self).trace.advance_frontier@.len() ==> from_readers(
                    final(self).readers@,
                    #[trigger] final(self).trace.advance_frontier@[e],
                ),
            forall|i: int, j: int|
                0 <= i < final(self).readers@.len() && 0 <= j < final(self).readers@[i]@.len()
                    ==> in_frontier(
                    final(self).trace.advance_frontier@,
                    #[trigger] final(self).readers@[i]@[j],
                ),
    {
        let f = copy_vec(frontier);
        self.readers.set(r, f);
        proof {
            lemma_reader_frontiers(*old(self), *self, r as int, frontier@);
        }
        self.compact_trace();
    }

    /// Releases one reader. The trace compacts as far as the remaining
    /// readers allow; releasing the last reader drops every batch.
    pub fn drop_reader(&mut self, r: usize)
        requires
            old(self).wf(),
            r < old(self).readers@.len(),
        ensures
            final(self).wf(),
            final(self).readers@.len() == old(self).readers@.len() - 1,
            final(self).trace.history@ == old(self).trace.history@,
            final(self).readers@.len() == 0 ==> final(self).trace.live().len() == 0,
            // The trace compacted as far as the remaining readers allow.
            forall|e: int|
                0 <= e < final(self).trace.advance_frontier@.len() ==> from_readers(
                    final(self).readers@,
                    #[trigger] final(self).trace.advance_frontier@[e],
                ),
            forall|i: int, j: int|
                0 <= i < final(self).readers@.len() && 0 <= j < final(self).readers@[i]@.len()
                    ==> in_frontier(
                    final(self).trace.advance_frontier@,
                    #[trigger] final(self).readers@[i]@[j],
                ),
    {
        self.readers.remove(r);
        proof {
            assert forall|i: int| 0 <= i < self.readers@.len() implies frontier_le(
                self.trace.advance_frontier@,
                (#[trigger] self.readers@[i])@,
            ) by {
                if i < r {
                    assert(self.readers@[i] == old(self).readers@[i]);
                } else {
                    assert(self.readers@[i] == old(self).readers@[i + 1]);
                }
            }
        }
        self.compact_trace();
    }
}

/// After replacing one reader's frontier by a dominating one, the trace's
/// frontier still lies below every reader's.
proof fn lemma_reader_frontiers<T: Lattice>(
    a0: Arrangement<T>,
    a1: Arrangement<T>,
    r: int,
    frontier: Seq<T>,
)
    requires
        a0.wf(),
        0 <= r < a0.readers@.len(),
        frontier_le(a0.readers@[r]@, frontier),
        a1.trace == a0.trace,
        a1.readers@.len() == a0.readers@.len(),
        a1.readers@[r]@ == frontier,
        forall|i: int| 0 <= i < a0.readers@.len() && i != r ==> a1.readers@[i] == a0.readers@[i],
    ensures
        forall|i: int|
            0 <= i < a1.readers@.len() ==> frontier_le(
                a1.trace.advance_frontier@,
                (#[trigger] a1.readers@[i])@,
            ),
{
    assert forall|i: int| 0 <= i < a1.readers@.len() implies frontier_le(
        a1.trace.advance_frontier@,
        (#[trigger] a1.readers@[i])@,
    ) by {
        if i == r {
            lemma_frontier_le_trans(a0.trace.advance_frontier@, a0.readers@[r]@, frontier);
        } else {
            assert(a1.readers@[i] == a0.readers@[i]);
        }
    }
}

} // verus!
