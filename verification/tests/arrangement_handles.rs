//! Shared arrangements: per-reader frontiers and their meet on the trace.

use differential::arrange::Arrangement;
use differential::batch::Batch;
use differential::spine::Spine;
use differential::update::Update;

fn upd(key: u64, val: u64, time: u64, diff: i64) -> Update<u64> {
    Update { key, val, time, diff }
}

fn unit_batch(n: u64) -> Batch<u64> {
    Batch { recs: vec![upd(n, 0, n, 1)], lower: vec![n], upper: vec![n + 1] }
}

#[test]
fn readers_hold_back_compaction() {
    let mut spine: Spine<u64> = Spine::new();
    for n in 0..4u64 {
        spine.insert(unit_batch(n));
    }
    let mut arr = Arrangement::arrange(spine);
    let r0 = arr.new_reader();
    let r1 = arr.new_reader();
    // One reader advances far; the other still pins the trace at the start.
    arr.advance_reader(r0, &vec![10u64]);
    assert!(arr.trace.advance_frontier.contains(&0));
    // Once both readers advance, the trace may compact past the start.
    arr.advance_reader(r1, &vec![10u64]);
    assert!(!arr.trace.advance_frontier.contains(&0));
    assert!(arr.trace.advance_frontier.contains(&10));
}

#[test]
fn dropping_the_last_reader_drops_the_trace() {
    let mut spine: Spine<u64> = Spine::new();
    for n in 0..3u64 {
        spine.insert(unit_batch(n));
    }
    let mut arr = Arrangement::arrange(spine);
    let r0 = arr.new_reader();
    let r1 = arr.new_reader();
    arr.drop_reader(r1);
    assert!(arr.trace.map_batches().len() > 0);
    arr.drop_reader(r0);
    // No reader remains: every batch is gone.
    assert_eq!(arr.trace.map_batches().len(), 0);
}
