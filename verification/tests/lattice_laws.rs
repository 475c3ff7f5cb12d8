//! Concrete checks of the lattice operations and of `advance_by`.

use differential::altneu::AltNeu;
use differential::lattice::{advance_by, Lattice};
use differential::product::Product;

fn prod(o: u64, i: u64) -> Product<u64, u64> {
    Product::new(o, i)
}

#[test]
fn join_meet_product() {
    let t1 = prod(3, 7);
    let t2 = prod(4, 6);
    let j = t1.join(&t2);
    assert_eq!((j.outer, j.inner), (4, 7));
    let m = t1.meet(&t2);
    assert_eq!((m.outer, m.inner), (3, 6));
}

#[test]
fn join_commutative_scalar() {
    for a in 0u64..5 {
        for b in 0u64..5 {
            assert_eq!(a.join(&b), b.join(&a));
            assert_eq!(a.meet(&b), b.meet(&a));
        }
    }
}

#[test]
fn join_with_minimum_is_identity() {
    let a = prod(3, 9);
    let j = a.join(&<Product<u64, u64> as Lattice>::minimum());
    assert_eq!((j.outer, j.inner), (3, 9));
    let m = a.meet(&<Product<u64, u64> as Lattice>::maximum());
    assert_eq!((m.outer, m.inner), (3, 9));
}

#[test]
fn join_distributes_over_meet_inequationally() {
    // join(a, meet(b, c)) lies below meet(join(a, b), join(a, c)).
    for ao in 0u64..3 {
        for bo in 0u64..3 {
            for co in 0u64..3 {
                let a = prod(ao, 2);
                let b = prod(bo, 1);
                let c = prod(co, 0);
                let lhs = a.join(&b.meet(&c));
                let rhs = a.join(&b).meet(&a.join(&c));
                assert!(lhs.less_equal(&rhs));
            }
        }
    }
}

#[test]
fn advance_by_doc_example() {
    let time = prod(3, 7);
    let frontier = vec![prod(4, 8), prod(5, 3)];
    let advanced = advance_by(&time, &frontier);
    // time and advanced are indistinguishable to elements at or above the
    // frontier.
    for i in 0..10u64 {
        for j in 0..10u64 {
            let test = prod(i, j);
            if frontier.iter().any(|t| t.less_equal(&test)) {
                assert_eq!(time.less_equal(&test), advanced.less_equal(&test));
            }
        }
    }
    assert_eq!((advanced.outer, advanced.inner), (4, 7));
}

#[test]
fn advance_by_idempotent() {
    let frontier = vec![prod(4, 8), prod(5, 3)];
    for i in 0..8u64 {
        for j in 0..8u64 {
            let t = prod(i, j);
            let once = advance_by(&t, &frontier);
            let twice = advance_by(&once, &frontier);
            assert!(once.less_equal(&twice) && twice.less_equal(&once));
        }
    }
}

#[test]
fn advance_by_empty_frontier_is_maximum() {
    let t = prod(3, 7);
    let adv = advance_by(&t, &Vec::new());
    assert_eq!((adv.outer, adv.inner), (u64::MAX, u64::MAX));
}

#[test]
fn altneu_orders_alt_before_neu() {
    let alt = AltNeu::alt(5u64);
    let neu = AltNeu::neu(5u64);
    assert!(alt.less_equal(&neu));
    assert!(!neu.less_equal(&alt));
    // Distinct times order by the underlying time.
    assert!(AltNeu::neu(4u64).less_equal(&AltNeu::alt(5u64)));
}

#[test]
fn altneu_join_meet() {
    let a = AltNeu::alt(5u64);
    let n = AltNeu::neu(5u64);
    let j = a.join(&n);
    assert_eq!((j.time, j.neu), (5, true));
    let m = a.meet(&n);
    assert_eq!((m.time, m.neu), (5, false));
}
