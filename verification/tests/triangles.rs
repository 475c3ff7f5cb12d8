//! A delta query counting triangles, driven through `propose` and
//! `validate` with the alt/neu ordering discipline.
//!
//! The query is Q(a,b,c) = E1(a,b) and E2(b,c) and E3(a,c), with all three
//! relations equal to one edge set E. Each relation gets a delta stream: the
//! changes of Ei joined against the other relations, entered before (`alt`)
//! the driver for j < i and after (`neu`) for j > i. Summed over the three
//! streams, every new triangle is counted exactly once.

use differential::altneu::{enter_at, AltNeu};
use differential::batch::Batch;
use differential::operators::{propose, validate};
use differential::update::Update;

type Time = AltNeu<u64>;

fn alt(t: u64) -> Time {
    AltNeu::alt(t)
}

/// Arranges edges `(x, y)` stamped with their insertion times as one batch
/// keyed by `x`, entered at `alt` or `neu` of each edge's time.
fn arrange(edges: &[(u64, u64, u64)], neu_role: bool) -> Vec<Batch<Time>> {
    let mut sorted: Vec<(u64, u64, u64)> = edges.to_vec();
    sorted.sort();
    let recs: Vec<Update<u64>> = sorted
        .iter()
        .map(|&(x, y, t)| Update { key: x, val: y, time: t, diff: 1 })
        .collect();
    let base = Batch { recs, lower: vec![0u64], upper: Vec::new() };
    vec![enter_at(&base, neu_role)]
}

/// Arranges edges keyed by their second component.
fn arrange_by_second(edges: &[(u64, u64, u64)], neu_role: bool) -> Vec<Batch<Time>> {
    let flipped: Vec<(u64, u64, u64)> = edges.iter().map(|&(x, y, t)| (y, x, t)).collect();
    arrange(&flipped, neu_role)
}

/// The sum of the three delta streams for a set of driving edge insertions
/// at time `t_new`, against the full edge set (old and new).
fn triangle_deltas(all_edges: &[(u64, u64, u64)], drivers: &[(u64, u64)], t_new: u64) -> i64 {
    let e_alt = arrange(all_edges, false);
    let e_alt_by_second = arrange_by_second(all_edges, false);
    let e_neu = arrange(all_edges, true);
    let mut total: i64 = 0;
    for &(x, y) in drivers.iter() {
        // dQ/dE1: the driver is (a, b); propose c from E2 (after), then
        // validate (a, c) in E3 (after).
        let ext1 = propose(&vec![(y, alt(t_new), 1i64)], &e_neu);
        let pairs1: Vec<((u64, u64), Time, i64)> =
            ext1.iter().map(|&((_b, c), tt, d)| ((x, c), tt, d)).collect();
        for (_, _, d) in validate(&pairs1, &e_neu) {
            total += d;
        }
        // dQ/dE2: the driver is (b, c); propose a from E1 (before), then
        // validate (a, c) in E3 (after).
        let ext2 = propose(&vec![(x, alt(t_new), 1i64)], &e_alt_by_second);
        let pairs2: Vec<((u64, u64), Time, i64)> =
            ext2.iter().map(|&((_b, a), tt, d)| ((a, y), tt, d)).collect();
        for (_, _, d) in validate(&pairs2, &e_neu) {
            total += d;
        }
        // dQ/dE3: the driver is (a, c); propose b from E1 (before), then
        // validate (b, c) in E2 (before).
        let ext3 = propose(&vec![(x, alt(t_new), 1i64)], &e_alt);
        let pairs3: Vec<((u64, u64), Time, i64)> =
            ext3.iter().map(|&((_a, b), tt, d)| ((b, y), tt, d)).collect();
        for (_, _, d) in validate(&pairs3, &e_alt) {
            total += d;
        }
    }
    total
}

#[test]
fn initial_triangle_counted_once() {
    // The base graph {(1,2), (2,3), (1,3)} arrives all at once: one
    // triangle, counted exactly once across the three delta streams.
    let edges = [(1, 2, 0), (2, 3, 0), (1, 3, 0)];
    let drivers = [(1, 2), (2, 3), (1, 3)];
    assert_eq!(triangle_deltas(&edges, &drivers, 0), 1);
}

#[test]
fn unrelated_edge_adds_nothing() {
    // Adding (4,5) at time 1 closes no triangle.
    let edges = [(1, 2, 0), (2, 3, 0), (1, 3, 0), (4, 5, 1)];
    let drivers = [(4, 5)];
    assert_eq!(triangle_deltas(&edges, &drivers, 1), 0);
}

#[test]
fn batch_of_edges_counts_new_triangles_once_each() {
    // Adding (2,4), (1,4) and (3,4) together at time 2 closes the triangles
    // (1,2,4), (1,3,4) and (2,3,4): three new triangles, each counted once.
    let edges = [
        (1, 2, 0),
        (2, 3, 0),
        (1, 3, 0),
        (4, 5, 1),
        (2, 4, 2),
        (1, 4, 2),
        (3, 4, 2),
    ];
    let drivers = [(2, 4), (1, 4), (3, 4)];
    assert_eq!(triangle_deltas(&edges, &drivers, 2), 3);
}
