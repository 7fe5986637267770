//! Parameter windows: the set of line parameters `t` for which a point of a
//! ray lies within a slab, kept as exact fractions.
use vstd::prelude::*;

use crate::intervals::Interval;

verus! {

/// The largest magnitude of a difference of two `i64` values.
pub const NUM_BOUND: i128 = 0xffff_ffff_ffff_ffff;

/// The largest magnitude of an `i64` value.
pub const DEN_BOUND: i128 = 0x8000_0000_0000_0000;

/// `an / ad <= bn / bd`, for positive denominators.
pub open spec fn frac_le(an: int, ad: int, bn: int, bd: int) -> bool {
    an * bd <= bn * ad
}

/// `an / ad < bn / bd`, for positive denominators.
pub open spec fn frac_lt(an: int, ad: int, bn: int, bd: int) -> bool {
    an * bd < bn * ad
}

/// The point `o + (n / m) * d` lies within `iv`, scaled by `m > 0`.
pub open spec fn on_slab(iv: Interval, o: int, d: int, n: int, m: int) -> bool {
    iv.start * m <= o * m + n * d <= iv.end * m
}

/// A line parameter `num / den`.
#[derive(Clone, Copy)]
pub struct Frac {
    pub num: i128,
    pub den: i128,
}

impl Frac {
    pub open spec fn wf(self) -> bool {
        -NUM_BOUND <= self.num <= NUM_BOUND && 0 < self.den <= DEN_BOUND
    }
}

/// A set of line parameters: none, all of them, or those from `lo` to `hi`.
#[derive(Clone, Copy)]
pub enum Window {
    Empty,
    Whole,
    Span { lo: Frac, hi: Frac },
}

impl Window {
    pub open spec fn wf(self) -> bool {
        match self {
            Window::Span { lo, hi } => lo.wf() && hi.wf(),
            _ => true,
        }
    }

    /// The parameter `n / m` belongs to the window.
    pub open spec fn holds(self, n: int, m: int) -> bool {
        match self {
            Window::Empty => false,
            Window::Whole => true,
            Window::Span { lo, hi } => frac_le(lo.num as int, lo.den as int, n, m) && frac_le(
                n,
                m,
                hi.num as int,
                hi.den as int,
            ),
        }
    }

    /// The window holds two different parameters.
    pub open spec fn spans(self) -> bool {
        exists|n1: int, m1: int, n2: int, m2: int|
            m1 > 0 && m2 > 0 && frac_lt(n1, m1, n2, m2) && #[trigger] self.holds(n1, m1)
                && #[trigger] self.holds(n2, m2)
    }
}

proof fn lemma_mul_bounded(a: int, b: int)
    requires
        -NUM_BOUND <= a <= NUM_BOUND,
        0 < b <= DEN_BOUND,
    ensures
        i128::MIN <= a * b <= i128::MAX,
{
    let nb = NUM_BOUND as int;
    let db = DEN_BOUND as int;
    assert(nb == 0xffff_ffff_ffff_ffff && db == 0x8000_0000_0000_0000);
    assert(nb * db == 0x7fff_ffff_ffff_ffff_8000_0000_0000_0000);
    assert(-(nb * db) <= a * b <= nb * db) by (nonlinear_arith)
        requires
            -nb <= a <= nb,
            0 < b <= db,
            nb > 0,
    ;
}

/// Fractions with positive denominators are ordered transitively.
proof fn lemma_frac_trans(a: int, ad: int, b: int, bd: int, c: int, cd: int)
    requires
        ad > 0,
        bd > 0,
        cd > 0,
        frac_le(a, ad, b, bd),
        frac_le(b, bd, c, cd),
    ensures
        frac_le(a, ad, c, cd),
        frac_lt(a, ad, b, bd) || frac_lt(b, bd, c, cd) ==> frac_lt(a, ad, c, cd),
{
    assert(a * bd * cd <= b * ad * cd) by (nonlinear_arith)
        requires
            a * bd <= b * ad,
            cd > 0,
    ;
    assert(b * cd * ad <= c * bd * ad) by (nonlinear_arith)
        requires
            b * cd <= c * bd,
            ad > 0,
    ;
    assert(bd * (a * cd) <= bd * (c * ad)) by (nonlinear_arith)
        requires
            a * bd * cd <= b * ad * cd,
            b * cd * ad <= c * bd * ad,
    ;
    assert(a * cd <= c * ad) by (nonlinear_arith)
        requires
            bd * (a * cd) <= bd * (c * ad),
            bd > 0,
    ;
    if frac_lt(a, ad, b, bd) || frac_lt(b, bd, c, cd) {
        assert(bd * (a * cd) < bd * (c * ad)) by (nonlinear_arith)
            requires
                a * bd <= b * ad,
                b * cd <= c * bd,
                a * bd < b * ad || b * cd < c * bd,
                ad > 0,
                bd > 0,
                cd > 0,
        ;
        assert(a * cd < c * ad) by (nonlinear_arith)
            requires
                bd * (a * cd) < bd * (c * ad),
                bd > 0,
        ;
    }
}

fn frac_leq(a: Frac, b: Frac) -> (r: bool)
    requires
        a.wf(),
        b.wf(),
    ensures
        r == frac_le(a.num as int, a.den as int, b.num as int, b.den as int),
{
    proof {
        lemma_mul_bounded(a.num as int, b.den as int);
        lemma_mul_bounded(b.num as int, a.den as int);
    }
    a.num * b.den <= b.num * a.den
}

fn frac_less(a: Frac, b: Frac) -> (r: bool)
    requires
        a.wf(),
        b.wf(),
    ensures
        r == frac_lt(a.num as int, a.den as int, b.num as int, b.den as int),
{
    proof {
        lemma_mul_bounded(a.num as int, b.den as int);
        lemma_mul_bounded(b.num as int, a.den as int);
    }
    a.num * b.den < b.num * a.den
}

/// The parameters for which the line `o + t * d` lies within `iv` on one axis.
/// A zero direction meets the slab everywhere or nowhere; otherwise the window
/// runs from the entry parameter to the exit parameter, whichever way the line
/// points.
pub fn axis_window(iv: Interval, o: i64, d: i64) -> (w: Window)
    ensures
        w.wf(),
        forall|n: int, m: int|
            #![trigger w.holds(n, m)]
            #![trigger on_slab(iv, o as int, d as int, n, m)]
            m > 0 ==> (w.holds(n, m) <==> on_slab(iv, o as int, d as int, n, m)),
{
    let ghost s = iv.start as int;
    let ghost e = iv.end as int;
    if d == 0 {
        let inside = iv.start <= o && o <= iv.end;
        assert forall|n: int, m: int| m > 0 implies (inside <==> on_slab(iv, o as int, d as int, n, m)) by {
            assert(n * d == 0) by (nonlinear_arith)
                requires
                    d == 0,
            ;
            assert((s <= o <==> s * m <= o * m) && (o <= e <==> o * m <= e * m)) by (nonlinear_arith)
                requires
                    m > 0,
            ;
        }
        if inside {
            Window::Whole
        } else {
            Window::Empty
        }
    } else if d > 0 {
        let lo = Frac { num: iv.start as i128 - o as i128, den: d as i128 };
        let hi = Frac { num: iv.end as i128 - o as i128, den: d as i128 };
        let w = Window::Span { lo, hi };
        assert forall|n: int, m: int| m > 0 implies (w.holds(n, m) <==> on_slab(iv, o as int, d as int, n, m)) by {
            assert((s - o) * m == s * m - o * m && (e - o) * m == e * m - o * m) by (nonlinear_arith);
        }
        w
    } else {
        let lo = Frac { num: o as i128 - iv.end as i128, den: 0i128 - d as i128 };
        let hi = Frac { num: o as i128 - iv.start as i128, den: 0i128 - d as i128 };
        let w = Window::Span { lo, hi };
        assert forall|n: int, m: int| m > 0 implies (w.holds(n, m) <==> on_slab(iv, o as int, d as int, n, m)) by {
            assert((o - e) * m == o * m - e * m && (o - s) * m == o * m - s * m) by (nonlinear_arith);
            assert(n * (0 - d) == -(n * d)) by (nonlinear_arith);
        }
        w
    }
}

/// The parameters that belong to both windows.
pub fn meet(a: Window, b: Window) -> (w: Window)
    requires
        a.wf(),
        b.wf(),
    ensures
        w.wf(),
        forall|n: int, m: int| #![trigger w.holds(n, m)] m > 0 ==> (w.holds(n, m) <==> a.holds(n, m) && b.holds(n, m)),
{
    match a {
        Window::Empty => Window::Empty,
        Window::Whole => b,
        Window::Span { lo: l1, hi: h1 } => {
            match b {
                Window::Empty => Window::Empty,
                Window::Whole => a,
                Window::Span { lo: l2, hi: h2 } => {
                    let l1_first = frac_leq(l1, l2);
                    let h1_first = frac_leq(h1, h2);
                    let lo = if l1_first { l2 } else { l1 };
                    let hi = if h1_first { h1 } else { h2 };
                    let w = Window::Span { lo, hi };
                    assert forall|n: int, m: int| m > 0 implies (w.holds(n, m) <==> a.holds(n, m) && b.holds(
                        n,
                        m,
                    )) by {
                        if l1_first {
                            if frac_le(l2.num as int, l2.den as int, n, m) {
                                lemma_frac_trans(l1.num as int, l1.den as int, l2.num as int, l2.den as int, n, m);
                            }
                        } else {
                            if frac_le(l1.num as int, l1.den as int, n, m) {
                                lemma_frac_trans(l2.num as int, l2.den as int, l1.num as int, l1.den as int, n, m);
                            }
                        }
                        if h1_first {
                            if frac_le(n, m, h1.num as int, h1.den as int) {
                                lemma_frac_trans(n, m, h1.num as int, h1.den as int, h2.num as int, h2.den as int);
                            }
                        } else {
                            if frac_le(n, m, h2.num as int, h2.den as int) {
                                lemma_frac_trans(n, m, h2.num as int, h2.den as int, h1.num as int, h1.den as int);
                            }
                        }
                    }
                    w
                },
            }
        },
    }
}

/// Whether the window holds two different parameters.
pub fn has_extent(w: Window) -> (r: bool)
    requires
        w.wf(),
    ensures
        r == w.spans(),
{
    match w {
        Window::Empty => false,
        Window::Whole => {
            assert(frac_lt(0, 1, 1, 1) && w.holds(0, 1) && w.holds(1, 1));
            true
        },
        Window::Span { lo, hi } => {
            let r = frac_less(lo, hi);
            proof {
                if r {
                    let (ln, ld, hn, hd) = (lo.num as int, lo.den as int, hi.num as int, hi.den as int);
                    assert(w.holds(ln, ld) && w.holds(hn, hd));
                } else if w.spans() {
                    let (n1, m1, n2, m2) = choose|n1: int, m1: int, n2: int, m2: int|
                        m1 > 0 && m2 > 0 && frac_lt(n1, m1, n2, m2) && #[trigger] w.holds(n1, m1)
                            && #[trigger] w.holds(n2, m2);
                    lemma_frac_trans(lo.num as int, lo.den as int, n1, m1, n2, m2);
                    lemma_frac_trans(lo.num as int, lo.den as int, n2, m2, hi.num as int, hi.den as int);
                }
            }
            r
        },
    }
}

} // verus!
