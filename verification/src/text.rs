//! Byte-string predicates used by relational selection filters.

use vstd::prelude::*;

verus! {

/// Whether `source` begins with `query`.
pub fn starts_with(source: &Vec<u8>, query: &Vec<u8>) -> (r: bool)
    ensures
        r == (source@.len() >= query@.len() && source@.take(query@.len() as int) == query@),
{
    if source.len() < query.len() {
        proof {
            assert(source@.len() < query@.len());
        }
        return false;
    }
    let mut i: usize = 0;
    let mut ok = true;
    while i < query.len()
        invariant
            i <= query@.len() <= source@.len(),
            ok == (forall|j: int| 0 <= j < i ==> source@[j] == query@[j]),
        decreases query@.len() - i,
    {
        if source[i] != query[i] {
            ok = false;
        }
        i = i + 1;
    }
    proof {
        if ok {
            assert(source@.take(query@.len() as int) =~= query@);
        } else {
            let j = choose|j: int| 0 <= j < query@.len() && source@[j] != query@[j];
            assert(source@.take(query@.len() as int)[j] != query@[j]);
        }
    }
    ok
}

/// Whether `query` occurs in `source` at offset `off`.
pub open spec fn match_at(source: Seq<u8>, query: Seq<u8>, off: int) -> bool {
    forall|i: int| 0 <= i < query.len() ==> source[#[trigger] (off + i)] == query[i]
}

/// Whether `query` occurs in `source` at an offset strictly before the last
/// possible one: the final alignment is never inspected.
pub fn substring(source: &Vec<u8>, query: &Vec<u8>) -> (r: bool)
    requires
        query@.len() <= source@.len(),
    ensures
        r == exists|off: int|
            0 <= off < source@.len() - query@.len() && #[trigger] match_at(source@, query@, off),
{
    let bound = source.len() - query.len();
    let mut off: usize = 0;
    let mut found = false;
    while off < bound
        invariant
            off <= bound,
            bound == source@.len() - query@.len(),
            query@.len() <= source@.len(),
            found == exists|o: int| 0 <= o < off && #[trigger] match_at(source@, query@, o),
        decreases bound - off,
    {
        if !found {
            let mut i: usize = 0;
            let mut all = true;
            let slen = source.len();
            while i < query.len()
                invariant
                    i <= query@.len(),
                    slen == source@.len(),
                    off + query@.len() <= slen,
                    all == (forall|k: int| 0 <= k < i ==> source@[#[trigger] (off + k)] == query@[k]),
                decreases query@.len() - i,
            {
                if source[off + i] != query[i] {
                    all = false;
                }
                i = i + 1;
            }
            if all {
                found = true;
                proof {
                    assert(match_at(source@, query@, off as int));
                }
            } else {
                proof {
                    if match_at(source@, query@, off as int) {
                        let k = choose|k: int|
                            0 <= k < query@.len() && source@[#[trigger] (off + k)] != query@[k];
                        assert(source@[off + k] == query@[k]);
                        assert(false);
                    }
                }
            }
        }
        off = off + 1;
    }
    found
}

} // verus!
