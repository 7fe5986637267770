use vstd::prelude::*;
use std::cmp::Ordering;

verus! {

/// A closed range `[start, end]` of fixed-point coordinates.
///
/// An interval is valid when `start <= end`; a reversed one holds no point.
#[derive(Clone, Copy, Debug, PartialEq, Eq, Structural)]
pub struct Interval {
    pub start: i64,
    pub end: i64,
}

impl Interval {
    pub open spec fn valid(self) -> bool {
        self.start <= self.end
    }

    /// The length of the interval, negative for a reversed one.
    pub open spec fn length(self) -> int {
        self.end - self.start
    }

    /// `other` starts no earlier and ends no later than `self`.
    pub open spec fn includes(self, other: Interval) -> bool {
        self.start <= other.start && other.end <= self.end
    }

    /// The exact length, `end - start`.
    pub fn size(&self) -> (r: i128)
        ensures
            r == self.length(),
    {
        self.end as i128 - self.start as i128
    }

    /// The midpoint, rounded down to a whole unit.
    pub fn midpoint(&self) -> (r: i64)
        ensures
            r == (self.start + self.end) / 2,
    {
        let twice: i128 = self.start as i128 + self.end as i128;
        if twice >= 0 {
            (twice / 2) as i64
        } else {
            ((twice - 1) / 2) as i64
        }
    }

    pub fn new(start: i64, end: i64) -> (r: Interval)
        ensures
            r.start == start,
            r.end == end,
    {
        Interval { start, end }
    }

    /// Compares the lengths of two intervals; lengths are exact, so the
    /// comparison is always defined.
    pub fn size_partial_cmp(&self, other: &Interval) -> (r: Option<Ordering>)
        ensures
            r == Some(cmp_lengths(*self, *other)),
    {
        let a = self.size();
        let b = other.size();
        if a < b {
            Some(Ordering::Less)
        } else if a > b {
            Some(Ordering::Greater)
        } else {
            Some(Ordering::Equal)
        }
    }
}

pub open spec fn cmp_lengths(a: Interval, b: Interval) -> Ordering {
    if a.length() < b.length() {
        Ordering::Less
    } else if a.length() > b.length() {
        Ordering::Greater
    } else {
        Ordering::Equal
    }
}

/// The common part of two intervals: from the later start to the earlier
/// end. It is `None` unless it has positive length, so intervals that only
/// touch do not intersect.
pub open spec fn intersection_of(a: Interval, b: Interval) -> Option<Interval> {
    let start = if a.start < b.start { b.start } else { a.start };
    let end = if a.end < b.end { a.end } else { b.end };
    if start >= end {
        None
    } else {
        Some(Interval { start, end })
    }
}

/// The smallest interval holding both: from the earlier start to the later end.
pub open spec fn cover_of(a: Interval, b: Interval) -> Interval {
    Interval {
        start: if a.start < b.start { a.start } else { b.start },
        end: if a.end < b.end { b.end } else { a.end },
    }
}

pub fn intersection(in1: &Interval, in2: &Interval) -> (r: Option<Interval>)
    ensures
        r == intersection_of(*in1, *in2),
{
    let start = if in1.start < in2.start {
        in2.start
    } else {
        in1.start
    };
    let end = if in1.end < in2.end {
        in1.end
    } else {
        in2.end
    };
    if start >= end {
        return None;
    }
    Some(Interval::new(start, end))
}

pub fn cover(in1: &Interval, in2: &Interval) -> (r: Interval)
    ensures
        r == cover_of(*in1, *in2),
{
    let start = if in1.start < in2.start {
        in1.start
    } else {
        in2.start
    };
    let end = if in1.end < in2.end {
        in2.end
    } else {
        in1.end
    };
    Interval::new(start, end)
}

/// The longer of two intervals; the first one when they are equally long.
pub fn get_larger<'input>(in1: &'input Interval, in2: &'input Interval) -> (r: &'input Interval)
    ensures
        *r == (if in1.length() < in2.length() { *in2 } else { *in1 }),
{
    if in1.size() < in2.size() {
        return in2;
    }
    in1
}

/// Intersection does not depend on the order of its arguments; the cover of
/// two intervals holds both of them; covering an interval with itself keeps
/// its length.
pub proof fn lemma_interval_laws(a: Interval, b: Interval)
    ensures
        intersection_of(a, b) == intersection_of(b, a),
        cover_of(a, b).start <= a.start && cover_of(a, b).start <= b.start,
        cover_of(a, b).end >= a.end && cover_of(a, b).end >= b.end,
        a.valid() ==> cover_of(a, b).includes(a),
        b.valid() ==> cover_of(a, b).includes(b),
        cover_of(a, a).length() == a.length(),
{
}

} // verus!
