//! The stable sort.
use std::cell::Cell;
use std::cmp::Ordering;

use jsntrs::try_sort::try_sort_by;

#[test]
fn sorts_like_std_for_consistent_comparators() {
    for n in [0usize, 1, 2, 3, 7, 50, 257] {
        let items: Vec<u64> = (0..n as u64).map(|i| (i * 48271) % 101).collect();
        let mut expected = items.clone();
        expected.sort_unstable();
        let got = try_sort_by(items, |a, b| Ok::<_, ()>(a.cmp(b))).unwrap();
        assert_eq!(got, expected, "n={n}");
    }
}

#[test]
fn stable_for_equal_keys() {
    let items: Vec<(u8, usize)> = (0..100).map(|i| ((i % 3) as u8, i)).collect();
    let got = try_sort_by(items, |a, b| Ok::<_, ()>(a.0.cmp(&b.0))).unwrap();
    for w in got.windows(2) {
        assert!(w[0].0 < w[1].0 || (w[0].0 == w[1].0 && w[0].1 < w[1].1));
    }
}

#[test]
fn propagates_first_error() {
    let items: Vec<i32> = (0..64).rev().collect();
    let calls = Cell::new(0);
    let err = try_sort_by(items, |a, b| {
        calls.set(calls.get() + 1);
        if calls.get() == 10 {
            Err("boom")
        } else {
            Ok(a.cmp(b))
        }
    })
    .unwrap_err();
    assert_eq!(err, "boom");
}

#[test]
fn never_greater_comparator_is_panic_free() {
    let items: Vec<i32> = (0..200).map(|i| (i * 7) % 13).collect();
    let got = try_sort_by(items, |_, _| Ok::<_, ()>(Ordering::Less)).unwrap();
    assert_eq!(got.len(), 200);
}
