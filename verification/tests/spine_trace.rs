//! The spine: insertion geometry, trace consistency, closing and dropping.

use differential::batch::Batch;
use differential::product::Product;
use differential::spine::Spine;
use differential::update::Update;

type Prod = Product<u64, u64>;

fn prod(o: u64, i: u64) -> Prod {
    Product::new(o, i)
}

fn upd(key: u64, val: u64, time: Prod, diff: i64) -> Update<Prod> {
    Update { key, val, time, diff }
}

/// One single-record batch covering `[lower, upper)`.
fn unit_batch(n: u64) -> Batch<Prod> {
    Batch {
        recs: vec![upd(n, 0, prod(n, 0), 1)],
        lower: vec![prod(n, 0)],
        upper: vec![prod(n + 1, 0)],
    }
}

#[test]
fn spine_insertion_geometry() {
    let mut spine: Spine<Prod> = Spine::new();
    // The first batch must continue from the spine's initial upper bound.
    for n in 0..8u64 {
        spine.insert(unit_batch(n));
    }
    // Admit everything and drain the merges.
    spine.distinguish_since(&vec![prod(100, 0)]);
    let mut rounds = 0;
    while !spine.reduced() {
        let mut effort: i64 = 64;
        spine.exert(&mut effort);
        rounds += 1;
        assert!(rounds < 1000);
    }
    // All eight updates survive in a single batch; no merge is in progress.
    let description = spine.describe();
    let mut singles = 0;
    let mut records = 0;
    for (kind, len) in description.iter() {
        assert!(*kind != 2 || *len == 0);
        if *len > 0 {
            singles += 1;
            records += *len;
        }
    }
    assert_eq!(singles, 1);
    assert_eq!(records, 8);
}

#[test]
fn trace_consistency_after_merges() {
    let mut spine: Spine<Prod> = Spine::new();
    for n in 0..5u64 {
        spine.insert(unit_batch(n));
    }
    spine.distinguish_since(&vec![prod(100, 0)]);
    // Read through an upper bound dominating everything inserted.
    let batches = spine.cursor_through(&vec![prod(100, 0)]).unwrap();
    let mut total: i64 = 0;
    let mut count = 0;
    for b in batches.iter() {
        for r in b.recs.iter() {
            total += r.diff;
            count += 1;
        }
    }
    assert_eq!(total, 5);
    assert_eq!(count, 5);
}

#[test]
fn cursor_through_rejects_straddling_upper() {
    let mut spine: Spine<Prod> = Spine::new();
    let wide = Batch {
        recs: vec![upd(0, 0, prod(0, 0), 1), upd(0, 0, prod(3, 0), 1)],
        lower: vec![prod(0, 0)],
        upper: vec![prod(4, 0)],
    };
    spine.insert(wide);
    // An upper bound cutting the pending batch in half is refused.
    assert!(spine.cursor_through(&vec![prod(2, 0)]).is_none());
    // A dominating bound is accepted.
    assert!(spine.cursor_through(&vec![prod(4, 0)]).is_some());
}

#[test]
fn advance_by_empty_frontier_drops_everything() {
    let mut spine: Spine<Prod> = Spine::new();
    for n in 0..4u64 {
        spine.insert(unit_batch(n));
    }
    spine.distinguish_since(&vec![prod(100, 0)]);
    spine.advance_by(&Vec::new());
    // Nothing remains: every subsequent read enumerates nothing.
    let batches = spine.map_batches();
    assert_eq!(batches.len(), 0);
    let read = spine.cursor_through(&vec![prod(100, 0)]).unwrap();
    assert_eq!(read.len(), 0);
}

#[test]
fn exert_on_reduced_spine_is_a_noop() {
    let mut spine: Spine<Prod> = Spine::new();
    spine.insert(unit_batch(0));
    spine.distinguish_since(&vec![prod(100, 0)]);
    let mut rounds = 0;
    while !spine.reduced() {
        let mut effort: i64 = 64;
        spine.exert(&mut effort);
        rounds += 1;
        assert!(rounds < 1000);
    }
    let before = spine.describe();
    let mut effort: i64 = 64;
    spine.exert(&mut effort);
    // A reduced trace needs no maintenance: the effort is returned unspent
    // and the layers are untouched.
    assert_eq!(effort, 64);
    assert_eq!(spine.describe(), before);
}

#[test]
fn admission_respects_the_frontier() {
    let mut spine: Spine<Prod> = Spine::new();
    for n in 0..4u64 {
        spine.insert(unit_batch(n));
    }
    // Nothing is admitted past the initial admission frontier.
    assert_eq!(spine.pending.len(), 4);
    // Admitting through (2,0) lets exactly the first two batches in; the
    // head of what remains is not covered.
    spine.distinguish_since(&vec![prod(2, 0)]);
    assert_eq!(spine.pending.len(), 2);
    assert_eq!((spine.pending[0].lower[0].outer, spine.pending[0].lower[0].inner), (2, 0));
    spine.distinguish_since(&vec![prod(100, 0)]);
    assert_eq!(spine.pending.len(), 0);
}

#[test]
fn close_is_idempotent() {
    let mut spine: Spine<Prod> = Spine::new();
    spine.insert(unit_batch(0));
    spine.close();
    assert_eq!(spine.upper.len(), 0);
    let pending_after_first = spine.pending.len();
    let merging_after_first = spine.merging.len();
    spine.close();
    // The second close changes nothing.
    assert_eq!(spine.upper.len(), 0);
    assert_eq!(spine.pending.len(), pending_after_first);
    assert_eq!(spine.merging.len(), merging_after_first);
}

#[test]
fn compaction_collapses_counts_not_sums() {
    // Two updates of one pair at distinct times that cancel; after advancing
    // the compaction frontier past both, a merge drops them.
    let mut spine: Spine<Prod> = Spine::new();
    let b1 = Batch {
        recs: vec![upd(7, 7, prod(0, 0), 1)],
        lower: vec![prod(0, 0)],
        upper: vec![prod(1, 0)],
    };
    let b2 = Batch {
        recs: vec![upd(7, 7, prod(1, 0), -1)],
        lower: vec![prod(1, 0)],
        upper: vec![prod(2, 0)],
    };
    spine.insert(b1);
    spine.insert(b2);
    spine.advance_by(&vec![prod(5, 0)]);
    spine.distinguish_since(&vec![prod(100, 0)]);
    let mut rounds = 0;
    while !spine.reduced() {
        let mut effort: i64 = 64;
        spine.exert(&mut effort);
        rounds += 1;
        assert!(rounds < 1000);
    }
    // The batches merged and the cancelled pair disappeared.
    let batches = spine.map_batches();
    let records: usize = batches.iter().map(|b| b.recs.len()).sum();
    assert_eq!(records, 0);
}
