use raytracer::intervals::{cover, get_larger, intersection, Interval};
use std::cmp::Ordering;

/// Fixed-point coordinates in units of 1/1024.
fn fx(v: f64) -> i64 {
    (v * 1024.0) as i64
}

#[test]
fn test_interval() {
    assert_eq!(Interval::new(fx(1.0), fx(2.0)).size(), fx(1.0) as i128);
}

#[test]
fn test_intersection() {
    let in1 = Interval::new(fx(0.0), fx(1.0));
    let in2 = Interval::new(fx(1.0), fx(2.0));

    assert!(intersection(&in1, &in2).is_none());

    let in3 = Interval::new(fx(1.0), fx(0.0));

    assert!(intersection(&in1, &in3).is_none());

    assert!(intersection(&in2, &in3).is_none());
}

#[test]
fn test_cover() {
    let in1 = Interval::new(fx(-1.0), fx(1.0));
    let in2 = Interval::new(fx(2.0), fx(3.0));

    assert_eq!(cover(&in1, &in2).start, in1.start);
    assert_eq!(cover(&in1, &in2).end, in2.end);
}

#[test]
fn test_larger() {
    let in1 = Interval::new(fx(-1.0), fx(1.0));
    let in2 = Interval::new(fx(2.0), fx(3.0));

    assert_eq!(get_larger(&in1, &in2).start, fx(-1.0));
    assert_eq!(get_larger(&in1, &in2).end, fx(1.0));
}

#[test]
fn test_macro() {
    let literal_built = Interval { start: fx(0.0), end: fx(1.0) };
    let funct_generated = Interval::new(fx(0.0), fx(1.0));

    assert_eq!(literal_built, funct_generated);
}

#[test]
fn intersection_keeps_overlap() {
    let a = Interval::new(0, 10);
    let b = Interval::new(4, 20);
    assert_eq!(intersection(&a, &b), Some(Interval::new(4, 10)));
    assert_eq!(intersection(&b, &a), Some(Interval::new(4, 10)));
}

#[test]
fn intersection_of_nested_is_inner() {
    let a = Interval::new(-5, 5);
    let b = Interval::new(-1, 2);
    assert_eq!(intersection(&a, &b), Some(b));
}

#[test]
fn interval_laws_on_values() {
    let a = Interval::new(-3, 7);
    let b = Interval::new(2, 11);
    assert_eq!(intersection(&a, &b), intersection(&b, &a));
    let c = cover(&a, &b);
    assert!(c.start <= a.start && c.start <= b.start);
    assert!(c.end >= a.end && c.end >= b.end);
    assert_eq!(c, Interval::new(-3, 11));
    assert_eq!(cover(&a, &a).size(), a.size());
}

#[test]
fn size_of_extreme_interval_is_exact() {
    let a = Interval::new(i64::MIN, i64::MAX);
    assert_eq!(a.size(), (i64::MAX as i128) - (i64::MIN as i128));
}

#[test]
fn midpoint_rounds_down() {
    assert_eq!(Interval::new(0, 3).midpoint(), 1);
    assert_eq!(Interval::new(-3, 0).midpoint(), -2);
    assert_eq!(Interval::new(-4, 2).midpoint(), -1);
    assert_eq!(Interval::new(i64::MAX, i64::MAX).midpoint(), i64::MAX);
}

#[test]
fn larger_prefers_first_on_tie() {
    let a = Interval::new(0, 2);
    let b = Interval::new(5, 7);
    assert_eq!(*get_larger(&a, &b), a);
    let c = Interval::new(0, 9);
    assert_eq!(*get_larger(&a, &c), c);
}

#[test]
fn size_comparison() {
    let a = Interval::new(0, 2);
    let b = Interval::new(5, 9);
    assert_eq!(a.size_partial_cmp(&b), Some(Ordering::Less));
    assert_eq!(b.size_partial_cmp(&a), Some(Ordering::Greater));
    assert_eq!(a.size_partial_cmp(&Interval::new(7, 9)), Some(Ordering::Equal));
}
