//! Batches, builders and merging: round trips and compaction.

use differential::batch::{Batch, Builder};
use differential::merge::{merge_batches, Merger};
use differential::product::Product;
use differential::update::Update;

type Prod = Product<u64, u64>;

fn prod(o: u64, i: u64) -> Prod {
    Product::new(o, i)
}

fn upd(key: u64, val: u64, time: Prod, diff: i64) -> Update<Prod> {
    Update { key, val, time, diff }
}

#[test]
fn builder_coalesces_and_sorts() {
    // Pushed out of order, with an equal triple twice and a cancelling pair.
    let mut b: Builder<Prod> = Builder::new();
    b.push(upd(2, 0, prod(1, 0), 5));
    b.push(upd(1, 0, prod(1, 0), 3));
    b.push(upd(1, 0, prod(1, 0), 4));
    b.push(upd(3, 1, prod(2, 0), 7));
    b.push(upd(3, 1, prod(2, 0), -7));
    let lower = vec![prod(0, 0)];
    let upper = vec![prod(9, 0)];
    let since = vec![prod(0, 0)];
    let batch = b.done(&lower, &upper, &since);
    // key 1 coalesced to 7, key 2 kept, key 3 cancelled.
    assert_eq!(batch.len(), 2);
    assert_eq!(batch.recs[0].key, 1);
    assert_eq!(batch.recs[0].diff, 7);
    assert_eq!(batch.recs[1].key, 2);
    assert_eq!(batch.recs[1].diff, 5);
}

#[test]
fn builder_advances_times_by_since() {
    let mut b: Builder<Prod> = Builder::new();
    b.push(upd(0, 0, prod(1, 3), 1));
    let batch = b.done(&vec![prod(0, 0)], &vec![prod(9, 9)], &vec![prod(2, 2)]);
    assert_eq!(batch.len(), 1);
    let t = batch.recs[0].time;
    // advance_by([(2,2)]) is the componentwise join with the one element.
    assert_eq!((t.outer, t.inner), (2, 3));
}

#[test]
fn merge_with_compaction_cancels() {
    // Two adjacent batches whose records cancel once compaction collapses
    // their times.
    let b1 = Batch {
        recs: vec![upd(0, 0, prod(1, 0), 1)],
        lower: vec![prod(0, 0)],
        upper: vec![prod(2, 0)],
    };
    let b2 = Batch {
        recs: vec![upd(0, 0, prod(3, 0), -1)],
        lower: vec![prod(2, 0)],
        upper: vec![prod(4, 0)],
    };
    let since = vec![prod(5, 0)];
    let merged = merge_batches(&b1, &b2, &since);
    assert_eq!(merged.len(), 0);
    assert_eq!(merged.lower.len(), 1);
    assert_eq!((merged.lower[0].outer, merged.lower[0].inner), (0, 0));
    assert_eq!((merged.upper[0].outer, merged.upper[0].inner), (4, 0));
}

#[test]
fn merge_keeps_distinguishable_updates() {
    let b1 = Batch {
        recs: vec![upd(1, 1, prod(1, 0), 2)],
        lower: vec![prod(0, 0)],
        upper: vec![prod(2, 0)],
    };
    let b2 = Batch {
        recs: vec![upd(1, 1, prod(2, 0), 3), upd(2, 2, prod(3, 0), 4)],
        lower: vec![prod(2, 0)],
        upper: vec![prod(4, 0)],
    };
    // No compaction: since is the minimum.
    let merged = merge_batches(&b1, &b2, &vec![prod(0, 0)]);
    assert_eq!(merged.len(), 3);
    assert_eq!(merged.recs[0].diff, 2);
    assert_eq!(merged.recs[1].diff, 3);
    assert_eq!(merged.recs[2].key, 2);
}

#[test]
fn merger_fuel_accounting() {
    let b1 = Batch {
        recs: vec![upd(1, 0, prod(1, 0), 1), upd(2, 0, prod(1, 0), 1)],
        lower: vec![prod(0, 0)],
        upper: vec![prod(2, 0)],
    };
    let b2 = Batch {
        recs: vec![upd(3, 0, prod(2, 0), 1)],
        lower: vec![prod(2, 0)],
        upper: vec![prod(4, 0)],
    };
    let mut m = Merger::begin_merge(&b1, &b2, &vec![prod(0, 0)]);
    // One unit of fuel consumes one record.
    let mut fuel: i64 = 1;
    m.work(&mut fuel);
    assert_eq!(fuel, 0);
    assert_eq!(m.pos, 1);
    // The rest completes with fuel left over, signalling exhaustion.
    let mut fuel: i64 = 10;
    m.work(&mut fuel);
    assert_eq!(fuel, 8);
    assert_eq!(m.pos, 3);
    let out = m.done();
    assert_eq!(out.len(), 3);
}
