//! The delta-join stages, grouped reduction differences, text filters and
//! recursive variables.

use differential::batch::Batch;
use differential::cogroup::{coalesce_weights, output_delta};
use differential::operators::{propose, split_ready, validate};
use differential::text::{starts_with, substring};
use differential::update::Update;
use differential::variable::Variable;

fn upd(key: u64, val: u64, time: u64, diff: i64) -> Update<u64> {
    Update { key, val, time, diff }
}

fn one_batch(recs: Vec<Update<u64>>, lower: u64, upper: u64) -> Batch<u64> {
    Batch { recs, lower: vec![lower], upper: vec![upper] }
}

#[test]
fn propose_extends_each_value() {
    // Arrangement: key 7 carries values 1 and 2 at time 0.
    let arrangement = vec![one_batch(
        vec![upd(7, 1, 0, 1), upd(7, 2, 0, 1)],
        0,
        1,
    )];
    let prefixes = vec![(7u64, 0u64, 1i64)];
    let mut out = propose(&prefixes, &arrangement);
    out.sort();
    assert_eq!(out, vec![((7, 1), 0, 1), ((7, 2), 0, 1)]);
}

#[test]
fn propose_respects_times() {
    // A value only becomes visible once the prefix time reaches it.
    let arrangement = vec![one_batch(vec![upd(7, 1, 5, 1)], 0, 9)];
    let early = propose(&vec![(7u64, 3u64, 1i64)], &arrangement);
    assert_eq!(early.len(), 0);
    let late = propose(&vec![(7u64, 6u64, 1i64)], &arrangement);
    assert_eq!(late, vec![((7, 1), 6, 1)]);
}

#[test]
fn validate_suppresses_absent_pairs() {
    // Arrangement of pairs: only (1, 5) exists.
    let arrangement = vec![one_batch(vec![upd(1, 5, 0, 1)], 0, 1)];
    let extensions = vec![((1u64, 5u64), 0u64, 2i64), ((1u64, 6u64), 0u64, 3i64)];
    let out = validate(&extensions, &arrangement);
    assert_eq!(out, vec![((1, 5), 0, 2)]);
}

#[test]
fn validate_scales_by_count() {
    let arrangement = vec![one_batch(vec![upd(1, 5, 0, 3)], 0, 1)];
    let out = validate(&vec![((1u64, 5u64), 0u64, 2i64)], &arrangement);
    assert_eq!(out, vec![((1, 5), 0, 6)]);
}

#[test]
fn coalesce_weights_combines_and_cancels() {
    let pairs = vec![(3u64, 2i64), (1, 5), (3, -2), (2, 1), (1, 1)];
    let out = coalesce_weights(&pairs);
    assert_eq!(out, vec![(1, 6), (2, 1)]);
}

#[test]
fn output_delta_emits_differences() {
    // The key currently outputs {5: 2, 6: 1}; the new computation wants
    // {5: 2, 7: 4}: emit the retraction of 6 and the addition of 7.
    let current = vec![(5u64, 2i64), (6, 1)];
    let target = vec![(5u64, 2i64), (7, 4)];
    let out = output_delta(&current, &target);
    assert_eq!(out, vec![(6, -1), (7, 4)]);
}

#[test]
fn starts_with_cases() {
    assert!(starts_with(&b"ASIA PACIFIC".to_vec(), &b"ASIA".to_vec()));
    assert!(!starts_with(&b"EUROPE".to_vec(), &b"ASIA".to_vec()));
    assert!(!starts_with(&b"AS".to_vec(), &b"ASIA".to_vec()));
    assert!(starts_with(&b"anything".to_vec(), &b"".to_vec()));
}

#[test]
fn substring_cases() {
    assert!(substring(&b"special requests pending".to_vec(), &b"requests".to_vec()));
    assert!(!substring(&b"special requests pending".to_vec(), &b"complaint".to_vec()));
    // The final alignment is never inspected, as in the selection filter
    // this mirrors.
    assert!(!substring(&b"abcd".to_vec(), &b"bcd".to_vec()));
    assert!(substring(&b"abcde".to_vec(), &b"bcd".to_vec()));
}

#[test]
fn split_ready_defers_incomplete_times() {
    // The input frontier sits at 5: extensions before it are complete,
    // extensions at or beyond it must wait.
    let exts = vec![(1u64, 3u64, 1i64), (2, 5, 1), (3, 4, 1), (4, 9, 1)];
    let (ready, deferred) = split_ready(&exts, &vec![5u64]);
    assert_eq!(ready, vec![(1, 3, 1), (3, 4, 1)]);
    assert_eq!(deferred, vec![(2, 5, 1), (4, 9, 1)]);
}

#[test]
fn variable_feedback_is_result_minus_source() {
    let source = vec![upd(1, 1, 0, 1), upd(2, 2, 0, 1)];
    let result = vec![upd(1, 1, 0, 1), upd(2, 2, 0, 2), upd(3, 3, 0, 1)];
    let mut var = Variable::from(source);
    let feedback = var.set(&result);
    assert!(var.closed);
    // (1,1) unchanged, (2,2) gains one, (3,3) appears.
    assert_eq!(feedback.len(), 2);
    let mut pairs: Vec<(u64, i64)> = feedback.iter().map(|u| (u.key, u.diff)).collect();
    pairs.sort();
    assert_eq!(pairs, vec![(2, 1), (3, 1)]);
}
