use std::cmp::Ordering;
use vector_search::heap::{Candidate, Frontier};
use vector_search::metrics::{compute_distance, is_nan, is_nearer};

#[test]
fn nearer_candidate_is_greater() {
    let near = Candidate { distance: 1, index: 7 };
    let far = Candidate { distance: 9, index: 3 };
    assert_eq!(near.partial_cmp(&far), Some(Ordering::Greater));
    assert_eq!(far.partial_cmp(&near), Some(Ordering::Less));
    assert!(near > far);
    assert!(far < near);
}

#[test]
fn candidates_of_equal_distance_are_equal() {
    let a = Candidate { distance: 4, index: 0 };
    let b = Candidate { distance: 4, index: 9 };
    assert_eq!(a.partial_cmp(&b), Some(Ordering::Equal));
    assert!(a == b);
    assert!(a != Candidate { distance: 5, index: 0 });
}

#[test]
fn frontier_hands_out_nearest_first() {
    let mut f = Frontier::new();
    for (d, i) in [(5u32, 0usize), (2, 1), (9, 2), (1, 3), (7, 4)] {
        f.push(Candidate { distance: d, index: i });
    }
    assert_eq!(f.len(), 5);
    let mut order = Vec::new();
    while let Some(c) = f.pop() {
        order.push((c.distance, c.index));
    }
    assert_eq!(order, vec![(1, 3), (2, 1), (5, 0), (7, 4), (9, 2)]);
    assert_eq!(f.len(), 0);
}

#[test]
fn frontier_breaks_ties_by_arrival() {
    let mut f = Frontier::new();
    for (d, i) in [(3u32, 10usize), (3, 11), (1, 12), (1, 13), (3, 14)] {
        f.push(Candidate { distance: d, index: i });
    }
    let mut order = Vec::new();
    while let Some(c) = f.pop() {
        order.push(c.index);
    }
    assert_eq!(order, vec![12, 13, 10, 11, 14]);
}

#[test]
fn empty_frontier_pops_nothing() {
    let mut f = Frontier::new();
    assert!(f.pop().is_none());
    f.push(Candidate { distance: 0, index: 0 });
    assert!(f.pop().is_some());
    assert!(f.pop().is_none());
}

#[test]
fn compute_distance_runs_the_kernel() {
    let l1 = |a: &Vec<u32>, b: &Vec<u32>| -> u32 {
        a.iter().zip(b.iter()).map(|(x, y)| x.abs_diff(*y)).sum()
    };
    assert_eq!(compute_distance(&l1, &vec![1, 5, 9], &vec![4, 5, 2]), 10);
    assert_eq!(compute_distance(&l1, &vec![], &vec![]), 0);
}

const NAN_WORD: u32 = 0x7FC0_0000;

#[test]
fn nan_word_is_the_word_of_nan() {
    assert_eq!(f32::NAN.to_bits(), NAN_WORD);
}

#[test]
fn candidate_with_nan_distance_compares_equal_both_ways() {
    let a = Candidate { distance: f32::NAN.to_bits(), index: 0 };
    let b = Candidate { distance: 1.0f32.to_bits(), index: 1 };
    assert_eq!(a.partial_cmp(&b), Some(Ordering::Equal));
    assert_eq!(b.partial_cmp(&a), Some(Ordering::Equal));
    assert_eq!(a.partial_cmp(&a), Some(Ordering::Equal));
    assert!(!(a > b) && !(a < b) && !(b > a) && !(b < a));
}

#[test]
fn candidate_with_nan_distance_equals_nothing() {
    let a = Candidate { distance: f32::NAN.to_bits(), index: 0 };
    let b = Candidate { distance: 1.0f32.to_bits(), index: 1 };
    assert!(a != b);
    assert!(a != a);
    assert!(b == b);
}

#[test]
fn candidate_order_follows_the_numbers() {
    let values = [0.0f32, 1.0e-30, 0.5, 1.0, 2.0, 1.0e30, f32::MAX, f32::INFINITY, f32::NAN];
    for (i, x) in values.iter().enumerate() {
        for (j, y) in values.iter().enumerate() {
            let a = Candidate { distance: x.to_bits(), index: i };
            let b = Candidate { distance: y.to_bits(), index: j };
            let expected = y.partial_cmp(x).unwrap_or(Ordering::Equal);
            assert_eq!(a.partial_cmp(&b), Some(expected));
            assert_eq!(a == b, x == y);
        }
    }
}

#[test]
fn is_nan_agrees_with_the_numbers() {
    for w in [
        0u32,
        1,
        0x7F7F_FFFF,
        0x7F80_0000,
        0x7F80_0001,
        0x7FC0_0000,
        0x7FFF_FFFF,
        0x8000_0000,
        0x8000_0001,
        0xFF7F_FFFF,
        0xFF80_0000,
        0xFF80_0001,
        0xFFC0_0000,
        0xFFFF_FFFF,
    ] {
        assert_eq!(is_nan(w), f32::from_bits(w).is_nan());
    }
    let mut w: u32 = 0;
    loop {
        assert_eq!(is_nan(w), f32::from_bits(w).is_nan());
        match w.checked_add(65_521) {
            Some(next) => w = next,
            None => break,
        }
    }
}

#[test]
fn is_nearer_agrees_with_the_numbers_from_zero_upward() {
    let values = [0.0f32, 1.0e-40, 1.0e-30, 0.5, 1.0, 2.0, f32::MAX, f32::INFINITY, f32::NAN];
    for x in values {
        for y in values {
            assert_eq!(is_nearer(x.to_bits(), y.to_bits()), x < y);
        }
    }
    assert!(!is_nearer(0xFFC0_0000, 1.0f32.to_bits()));
    assert!(!is_nearer(1.0f32.to_bits(), 0xFFC0_0000));
}

#[test]
fn frontier_neither_prefers_nor_shuns_nan() {
    // Nothing outranks a distance that is not a number, so when it came first it
    // leaves first; when a number came first, the nearest number leaves first.
    let mut f = Frontier::new();
    for (d, i) in [(NAN_WORD, 0usize), (5, 1), (3, 2)] {
        f.push(Candidate { distance: d, index: i });
    }
    assert_eq!(f.pop().map(|c| c.index), Some(0));
    assert_eq!(f.pop().map(|c| c.index), Some(2));
    assert_eq!(f.pop().map(|c| c.index), Some(1));

    let mut f = Frontier::new();
    for (d, i) in [(5u32, 0usize), (NAN_WORD, 1), (3, 2)] {
        f.push(Candidate { distance: d, index: i });
    }
    assert_eq!(f.pop().map(|c| c.index), Some(2));
    assert_eq!(f.pop().map(|c| c.index), Some(0));
    assert_eq!(f.pop().map(|c| c.index), Some(1));
    assert!(f.pop().is_none());
}
