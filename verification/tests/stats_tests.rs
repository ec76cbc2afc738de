use station_stats::stats::{Stats, NO_MAX, NO_MIN, VALUE_MAX, VALUE_MIN};

fn seen(values: &[i64]) -> Stats {
    let mut s = Stats::default();
    for v in values {
        s.update(*v);
    }
    s
}

#[test]
fn default_has_seen_nothing() {
    let s = Stats::default();
    assert_eq!(s.count(), 0);
    assert_eq!(s.sum(), 0);
    assert_eq!(s.min(), NO_MIN);
    assert_eq!(s.max(), NO_MAX);
    assert_eq!(NO_MIN, i64::MAX);
    assert_eq!(NO_MAX, i64::MIN);
}

#[test]
fn of_value_is_one_update() {
    let s = Stats::of_value(-37);
    assert_eq!(s, seen(&[-37]));
    assert_eq!(s.min(), -37);
    assert_eq!(s.max(), -37);
    assert_eq!(s.count(), 1);
    assert_eq!(s.sum(), -37);
    assert_eq!(s.mean(), -37);
}

#[test]
fn update_keeps_min_max_count_sum() {
    let s = seen(&[50, 100, 150]);
    assert_eq!(s.min(), 50);
    assert_eq!(s.max(), 150);
    assert_eq!(s.count(), 3);
    assert_eq!(s.sum(), 300);
    assert_eq!(s.mean(), 100);
}

#[test]
fn update_with_falling_values() {
    let s = seen(&[7, -3, -20, 4]);
    assert_eq!(s.min(), -20);
    assert_eq!(s.max(), 7);
    assert_eq!(s.count(), 4);
    assert_eq!(s.sum(), -12);
    assert_eq!(s.mean(), -3);
}

#[test]
fn merge_adds_counts_and_sums() {
    let mut a = seen(&[120]);
    let b = seen(&[253]);
    a.merge(&b);
    assert_eq!(a.min(), 120);
    assert_eq!(a.max(), 253);
    assert_eq!(a.count(), 2);
    assert_eq!(a.sum(), 373);
    assert_eq!(a.mean(), 187);
}

#[test]
fn merge_with_nothing_changes_nothing() {
    let mut a = seen(&[5, 9]);
    a.merge(&Stats::default());
    assert_eq!(a, seen(&[5, 9]));
    let mut e = Stats::default();
    e.merge(&seen(&[5, 9]));
    assert_eq!(e, seen(&[5, 9]));
}

#[test]
fn merge_is_commutative() {
    let a = seen(&[10, -40, 33]);
    let b = seen(&[99, 2]);
    let mut ab = a;
    ab.merge(&b);
    let mut ba = b;
    ba.merge(&a);
    assert_eq!(ab, ba);
    assert_eq!(ab, seen(&[10, -40, 33, 99, 2]));
}

#[test]
fn merge_is_associative() {
    let a = seen(&[10, -40]);
    let b = seen(&[99]);
    let c = seen(&[-100, 7, 7]);
    let mut left = a;
    left.merge(&b);
    left.merge(&c);
    let mut bc = b;
    bc.merge(&c);
    let mut right = a;
    right.merge(&bc);
    assert_eq!(left, right);
    assert_eq!(left, seen(&[10, -40, 99, -100, 7, 7]));
}

#[test]
fn mean_rounds_halves_upwards() {
    assert_eq!(seen(&[1, 2]).mean(), 2);
    assert_eq!(seen(&[-1, -2]).mean(), -1);
    assert_eq!(seen(&[1, 1, 2]).mean(), 1);
    assert_eq!(seen(&[1, 2, 2]).mean(), 2);
    assert_eq!(seen(&[-1, -1, -2]).mean(), -1);
    assert_eq!(seen(&[-1, -2, -2]).mean(), -2);
    assert_eq!(seen(&[0, 0, 0]).mean(), 0);
}

#[test]
fn mean_lies_between_min_and_max() {
    let s = seen(&[VALUE_MIN, VALUE_MAX, VALUE_MAX]);
    assert_eq!(s.min(), VALUE_MIN);
    assert_eq!(s.max(), VALUE_MAX);
    assert!(s.min() <= s.mean() && s.mean() <= s.max());
    assert_eq!(s.sum(), 21474836478);
    assert_eq!(s.mean(), 7158278826);
}

#[test]
fn extreme_values_are_kept() {
    let s = seen(&[VALUE_MIN, VALUE_MIN]);
    assert_eq!(s.sum(), -42949672960);
    assert_eq!(s.mean(), VALUE_MIN);
    assert_eq!(VALUE_MIN, -21474836480);
    assert_eq!(VALUE_MAX, 21474836479);
}
