use vstd::arithmetic::power::lemma_pow0;
use vstd::arithmetic::power2::{lemma_pow2_unfold, pow2};
use vstd::prelude::*;

use crate::intervals::{cover, cover_of, Interval};
use crate::ray::Ray;
use crate::slab::{axis_window, has_extent, meet, on_slab};
use crate::vector::Vec3;

verus! {

/// An axis-aligned box: one interval per axis, and optionally the index of
/// the scene object it bounds (its payload).
#[derive(Clone, Copy, Debug)]
pub struct BoundingBox {
    pub dims: [Interval; 3],
    pub boxed: Option<usize>,
}

impl BoundingBox {
    /// Every axis interval is valid.
    pub open spec fn wf(self) -> bool {
        self.dims[0].valid() && self.dims[1].valid() && self.dims[2].valid()
    }

    /// The point of `ray` at parameter `n / m` (with `m > 0`) lies in the box.
    pub open spec fn holds_point_of(self, ray: Ray, n: int, m: int) -> bool {
        &&& on_slab(self.dims[0], ray.orig.at(0), ray.dir.at(0), n, m)
        &&& on_slab(self.dims[1], ray.orig.at(1), ray.dir.at(1), n, m)
        &&& on_slab(self.dims[2], ray.orig.at(2), ray.dir.at(2), n, m)
    }

    /// The line of `ray` runs through the box over a stretch of positive
    /// length: two different parameters `n1 / m1 < n2 / m2` both give points
    /// of the box. A line that only grazes an edge or a corner does not hit.
    pub open spec fn is_hit_by(self, ray: Ray) -> bool {
        exists|n1: int, m1: int, n2: int, m2: int|
            m1 > 0 && m2 > 0 && n1 * m2 < n2 * m1 && #[trigger] self.holds_point_of(ray, n1, m1)
                && #[trigger] self.holds_point_of(ray, n2, m2)
    }

    /// The three axes hold the same intervals; payloads are not compared.
    pub open spec fn same_dims(self, other: BoundingBox) -> bool {
        self.dims[0] == other.dims[0] && self.dims[1] == other.dims[1] && self.dims[2] == other.dims[2]
    }

    /// Each axis of `self` includes the same axis of `other`.
    pub open spec fn includes(self, other: BoundingBox) -> bool {
        &&& self.dims[0].includes(other.dims[0])
        &&& self.dims[1].includes(other.dims[1])
        &&& self.dims[2].includes(other.dims[2])
    }

    /// The axis along which the box is longest. Axis 0 wins only when it is
    /// strictly longer than both others, axis 1 when it is strictly longer
    /// than axis 2; otherwise axis 2: ties go to the higher axis.
    pub open spec fn longest_axis_of(self) -> usize {
        let s0 = self.dims[0].length();
        let s1 = self.dims[1].length();
        let s2 = self.dims[2].length();
        if s0 > s1 && s0 > s2 {
            0
        } else if s1 > s2 {
            1
        } else {
            2
        }
    }

    /// The zero-size box at the origin, with no payload.
    pub fn empty() -> (r: BoundingBox)
        ensures
            r == zero_box(),
    {
        BoundingBox { dims: [Interval::new(0, 0), Interval::new(0, 0), Interval::new(0, 0)], boxed: None }
    }

    /// A box with the given intervals and no payload.
    pub fn with_dims(dims: [Interval; 3]) -> (r: BoundingBox)
        ensures
            r.dims == dims,
            r.boxed is None,
    {
        BoundingBox { dims, boxed: None }
    }

    /// A box with the given intervals that bounds the scene object `id`.
    pub fn with_payload(dims: [Interval; 3], id: usize) -> (r: BoundingBox)
        ensures
            r.dims == dims,
            r.boxed == Some(id),
    {
        BoundingBox { dims, boxed: Some(id) }
    }

    /// The same intervals, without the payload.
    pub fn dims_copy(&self) -> (r: BoundingBox)
        ensures
            r.dims == self.dims,
            r.boxed is None,
    {
        BoundingBox::with_dims(self.dims)
    }

    /// The axis to split along: see `longest_axis_of` for how ties go.
    pub fn longest_axis(&self) -> (r: usize)
        ensures
            r == self.longest_axis_of(),
    {
        let s0 = self.dims[0].size();
        let s1 = self.dims[1].size();
        let s2 = self.dims[2].size();
        if s0 > s1 && s0 > s2 {
            return 0;
        }
        if s1 > s2 {
            return 1;
        }
        2
    }

    /// The midpoint of each axis, rounded down to a whole unit.
    pub fn midpoint(&self) -> (r: Vec3)
        ensures
            r.at(0) == (self.dims[0].start + self.dims[0].end) / 2,
            r.at(1) == (self.dims[1].start + self.dims[1].end) / 2,
            r.at(2) == (self.dims[2].start + self.dims[2].end) / 2,
    {
        Vec3([self.dims[0].midpoint(), self.dims[1].midpoint(), self.dims[2].midpoint()])
    }

    /// The cover of `self` and `other`; `self` is consumed.
    pub fn compose_with(self, other: &BoundingBox) -> (r: BoundingBox)
        ensures
            r == cover_box(self, *other),
    {
        make_cover_of(&self, other)
    }

    /// Whether the line of `ray` passes through the box (the slab test).
    /// Each axis gives the window of parameters for which the line lies
    /// within that axis' interval; the box is hit when the three windows
    /// share more than one parameter. All of it is exact: an axis along
    /// which the ray does not move constrains nothing when the origin lies
    /// within that axis' interval, and excludes everything otherwise.
    pub fn check_intersection(&self, ray: &Ray) -> (r: bool)
        ensures
            r == self.is_hit_by(*ray),
    {
        let w0 = axis_window(self.dims[0], ray.orig.0[0], ray.dir.0[0]);
        let w1 = axis_window(self.dims[1], ray.orig.0[1], ray.dir.0[1]);
        let w2 = axis_window(self.dims[2], ray.orig.0[2], ray.dir.0[2]);
        let w01 = meet(w0, w1);
        let w = meet(w01, w2);
        let r = has_extent(w);
        proof {
            assert forall|n: int, m: int| m > 0 implies (w.holds(n, m) <==> self.holds_point_of(*ray, n, m)) by {
                assert(w0.holds(n, m) <==> on_slab(self.dims[0], ray.orig.at(0), ray.dir.at(0), n, m));
                assert(w1.holds(n, m) <==> on_slab(self.dims[1], ray.orig.at(1), ray.dir.at(1), n, m));
                assert(w2.holds(n, m) <==> on_slab(self.dims[2], ray.orig.at(2), ray.dir.at(2), n, m));
                assert(w01.holds(n, m) <==> w0.holds(n, m) && w1.holds(n, m));
            }
            if w.spans() {
                let (n1, m1, n2, m2) = choose|n1: int, m1: int, n2: int, m2: int|
                    m1 > 0 && m2 > 0 && n1 * m2 < n2 * m1 && #[trigger] w.holds(n1, m1)
                        && #[trigger] w.holds(n2, m2);
                assert(self.holds_point_of(*ray, n1, m1) && self.holds_point_of(*ray, n2, m2));
            }
            if self.is_hit_by(*ray) {
                let (n1, m1, n2, m2) = choose|n1: int, m1: int, n2: int, m2: int|
                    m1 > 0 && m2 > 0 && n1 * m2 < n2 * m1 && #[trigger] self.holds_point_of(*ray, n1, m1)
                        && #[trigger] self.holds_point_of(*ray, n2, m2);
                assert(w.holds(n1, m1) && w.holds(n2, m2));
            }
        }
        r
    }
}

/// The zero-size box at the origin, with no payload.
pub open spec fn zero_box() -> BoundingBox {
    BoundingBox {
        dims: [
            Interval { start: 0, end: 0 },
            Interval { start: 0, end: 0 },
            Interval { start: 0, end: 0 },
        ],
        boxed: None,
    }
}

/// The boxes of `s` folded with `cover_box` onto the zero box at the origin,
/// from the first to the last. The result holds every box of `s`, and the
/// origin as well.
pub open spec fn all_covering(s: Seq<BoundingBox>) -> BoundingBox
    decreases s.len(),
{
    if s.len() == 0 {
        zero_box()
    } else {
        cover_box(all_covering(s.drop_last()), s.last())
    }
}

/// The length of a box along `axis`: the key by which boxes are sorted
/// before a split.
pub open spec fn extent(b: BoundingBox, axis: int) -> int {
    b.dims[axis].length()
}

/// The boxes of `s` come in order of their extent along `axis`.
pub open spec fn sorted_on(s: Seq<BoundingBox>, axis: int) -> bool {
    forall|i: int, j: int| 0 <= i < j < s.len() ==> extent(s[i], axis) <= extent(s[j], axis)
}

/// The axis along which boxes are sorted before a split: the longest axis
/// of their covering.
pub open spec fn split_axis(s: Seq<BoundingBox>) -> int {
    all_covering(s).longest_axis_of() as int
}

/// The boxes of `s` whose extent along `axis` is `k`, in order.
pub open spec fn with_extent(s: Seq<BoundingBox>, axis: int, k: int) -> Seq<BoundingBox> {
    s.filter(|b: BoundingBox| extent(b, axis) == k)
}

/// No box of `lower` is longer along `axis` than a box of `upper`.
pub open spec fn split_by_extent(lower: Seq<BoundingBox>, upper: Seq<BoundingBox>, axis: int) -> bool {
    forall|i: int, j: int|
        0 <= i < lower.len() && 0 <= j < upper.len() ==> extent(#[trigger] lower[i], axis) <= extent(
            #[trigger] upper[j],
            axis,
        )
}

/// The smallest box holding both, axis by axis, with no payload.
pub open spec fn cover_box(a: BoundingBox, b: BoundingBox) -> BoundingBox {
    BoundingBox {
        dims: [
            cover_of(a.dims[0], b.dims[0]),
            cover_of(a.dims[1], b.dims[1]),
            cover_of(a.dims[2], b.dims[2]),
        ],
        boxed: None,
    }
}

/// The cover of two boxes; an aggregate carries no payload.
pub fn make_cover_of(bbox1: &BoundingBox, bbox2: &BoundingBox) -> (r: BoundingBox)
    ensures
        r == cover_box(*bbox1, *bbox2),
        bbox1.wf() ==> r.wf() && r.includes(*bbox1),
        bbox2.wf() ==> r.wf() && r.includes(*bbox2),
{
    BoundingBox {
        dims: [
            cover(&bbox1.dims[0], &bbox2.dims[0]),
            cover(&bbox1.dims[1], &bbox2.dims[1]),
            cover(&bbox1.dims[2], &bbox2.dims[2]),
        ],
        boxed: None,
    }
}

/// Folds the boxes onto the zero box at the origin with `compose_with`. For
/// an empty slice the result is the zero box itself, which bounds nothing.
pub fn make_all_covering(boxes: &[BoundingBox]) -> (r: BoundingBox)
    ensures
        r == all_covering(boxes@),
        r.wf(),
        forall|i: int| 0 <= i < boxes@.len() ==> r.includes(#[trigger] boxes@[i]),
{
    let mut acc = BoundingBox::empty();
    let mut i: usize = 0;
    while i < boxes.len()
        invariant
            i <= boxes@.len(),
            acc == all_covering(boxes@.subrange(0, i as int)),
        decreases boxes@.len() - i,
    {
        acc = acc.compose_with(&boxes[i]);
        proof {
            assert(boxes@.subrange(0, i + 1).drop_last() =~= boxes@.subrange(0, i as int));
        }
        i += 1;
    }
    proof {
        assert(boxes@.subrange(0, boxes@.len() as int) =~= boxes@);
        lemma_all_covering_wf(boxes@);
        assert forall|i: int| 0 <= i < boxes@.len() implies acc.includes(#[trigger] boxes@[i]) by {
            lemma_all_covering_includes(boxes@, i);
        }
    }
    acc
}

proof fn lemma_swap_keeps_multiset(s: Seq<BoundingBox>, lo: int, hi: int, a: int, b: int)
    requires
        0 <= lo <= a < hi <= s.len(),
        lo <= b < hi,
    ensures
        s.update(a, s[b]).update(b, s[a]).subrange(lo, hi).to_multiset() =~= s.subrange(lo, hi).to_multiset(),
{
    broadcast use vstd::seq_lib::to_multiset_update, vstd::seq_lib::to_multiset_contains, vstd::multiset::group_multiset_axioms;

    let t = s.subrange(lo, hi);
    assert(t.contains(t[a - lo]));
    let t1 = t.update(a - lo, t[b - lo]);
    assert(s.update(a, s[b]).update(b, s[a]).subrange(lo, hi) =~= t1.update(b - lo, t[a - lo]));
    assert(t1.to_multiset() == t.to_multiset().insert(t[b - lo]).remove(t[a - lo]));
    assert(t1.update(b - lo, t[a - lo]).to_multiset() == t1.to_multiset().insert(t[a - lo]).remove(
        t1[b - lo],
    ));
    assert(t1[b - lo] == t[b - lo]);
    assert(t.to_multiset().count(t[a - lo]) > 0);
}

proof fn lemma_filter_pair(x: BoundingBox, y: BoundingBox, pred: spec_fn(BoundingBox) -> bool)
    requires
        !(pred(x) && pred(y)),
    ensures
        seq![x, y].filter(pred) == seq![y, x].filter(pred),
{
    reveal_with_fuel(Seq::filter, 3);
    assert(seq![x, y].drop_last() =~= seq![x]);
    assert(seq![y, x].drop_last() =~= seq![y]);
    assert(seq![x].drop_last() =~= Seq::<BoundingBox>::empty());
    assert(seq![y].drop_last() =~= Seq::<BoundingBox>::empty());
    assert(seq![x, y].filter(pred) =~= seq![y, x].filter(pred));
}

/// Swapping two neighbours of different extent keeps, for every extent,
/// the order of the boxes that have it.
proof fn lemma_swap_keeps_order_of_equals(s: Seq<BoundingBox>, lo: int, hi: int, a: int, axis: int)
    requires
        0 <= lo <= a,
        a + 1 < hi <= s.len(),
        extent(s[a], axis) != extent(s[a + 1], axis),
    ensures
        forall|k: int|
            #[trigger] with_extent(s.update(a, s[a + 1]).update(a + 1, s[a]).subrange(lo, hi), axis, k)
                == with_extent(s.subrange(lo, hi), axis, k),
{
    broadcast use Seq::filter_distributes_over_add;

    let t = s.subrange(lo, hi);
    let t2 = s.update(a, s[a + 1]).update(a + 1, s[a]).subrange(lo, hi);
    let p = a - lo;
    let (front, back) = (t.subrange(0, p), t.subrange(p + 2, t.len() as int));
    assert(t =~= front + seq![s[a], s[a + 1]] + back);
    assert(t2 =~= front + seq![s[a + 1], s[a]] + back);
    assert forall|k: int| #[trigger] with_extent(t2, axis, k) == with_extent(t, axis, k) by {
        let pred = |b: BoundingBox| extent(b, axis) == k;
        lemma_filter_pair(s[a], s[a + 1], pred);
        assert(with_extent(t, axis, k) == front.filter(pred) + seq![s[a], s[a + 1]].filter(pred) + back.filter(pred));
        assert(with_extent(t2, axis, k) == front.filter(pred) + seq![s[a + 1], s[a]].filter(pred) + back.filter(
            pred,
        ));
    }
}

/// Sorts `boxes[lo..hi]` by extent along `idx`, in place, by insertion.
fn sort_range(boxes: &mut [BoundingBox], lo: usize, hi: usize, idx: usize)
    requires
        lo <= hi <= old(boxes)@.len(),
        idx < 3,
    ensures
        final(boxes)@.len() == old(boxes)@.len(),
        sorted_on(final(boxes)@.subrange(lo as int, hi as int), idx as int),
        final(boxes)@.subrange(lo as int, hi as int).to_multiset() == old(boxes)@.subrange(
            lo as int,
            hi as int,
        ).to_multiset(),
        forall|k: int|
            #[trigger] with_extent(final(boxes)@.subrange(lo as int, hi as int), idx as int, k)
                == with_extent(old(boxes)@.subrange(lo as int, hi as int), idx as int, k),
        forall|k: int|
            0 <= k < old(boxes)@.len() && !(lo <= k < hi) ==> final(boxes)@[k] == old(boxes)@[k],
{
    let ghost start = boxes@;
    let mut i: usize = lo;
    while i < hi
        invariant
            lo <= i <= hi <= boxes@.len(),
            idx < 3,
            boxes@.len() == start.len(),
            forall|a: int, b: int|
                lo <= a < b < i ==> extent(#[trigger] boxes@[a], idx as int) <= extent(
                    #[trigger] boxes@[b],
                    idx as int,
                ),
            boxes@.subrange(lo as int, hi as int).to_multiset() == start.subrange(lo as int, hi as int).to_multiset(),
            forall|k: int|
                #[trigger] with_extent(boxes@.subrange(lo as int, hi as int), idx as int, k)
                    == with_extent(start.subrange(lo as int, hi as int), idx as int, k),
            forall|k: int| 0 <= k < start.len() && !(lo <= k < hi) ==> boxes@[k] == start[k],
        decreases hi - i,
    {
        let mut j: usize = i;
        while j > lo && boxes[j - 1].dims[idx].size() > boxes[j].dims[idx].size()
            invariant
                lo <= j <= i < hi <= boxes@.len(),
                idx < 3,
                boxes@.len() == start.len(),
                forall|a: int, b: int|
                    lo <= a < b <= i && b != j ==> extent(#[trigger] boxes@[a], idx as int) <= extent(
                        #[trigger] boxes@[b],
                        idx as int,
                    ),
                boxes@.subrange(lo as int, hi as int).to_multiset() == start.subrange(lo as int, hi as int).to_multiset(),
                forall|k: int|
                    #[trigger] with_extent(boxes@.subrange(lo as int, hi as int), idx as int, k)
                        == with_extent(start.subrange(lo as int, hi as int), idx as int, k),
                forall|k: int| 0 <= k < start.len() && !(lo <= k < hi) ==> boxes@[k] == start[k],
            decreases j,
        {
            let ghost before = boxes@;
            let x = boxes[j - 1];
            let y = boxes[j];
            boxes[j - 1] = y;
            boxes[j] = x;
            proof {
                assert(boxes@ == before.update(j - 1, before[j as int]).update(j as int, before[j - 1]));
                lemma_swap_keeps_multiset(before, lo as int, hi as int, j - 1, j as int);
                lemma_swap_keeps_order_of_equals(before, lo as int, hi as int, j - 1, idx as int);
            }
            j -= 1;
        }
        i += 1;
    }
    proof {
        let f = boxes@.subrange(lo as int, hi as int);
        assert forall|a: int, b: int| 0 <= a < b < f.len() implies extent(f[a], idx as int) <= extent(f[b], idx as int) by {
            assert(f[a] == boxes@[lo + a] && f[b] == boxes@[lo + b]);
        }
    }
}

/// Sorts the boxes by their extent along axis `idx`, in place. The sort is
/// stable: boxes of equal extent keep their order.
pub fn sort_on_index(boxes: &mut [BoundingBox], idx: usize)
    requires
        idx < 3,
    ensures
        final(boxes)@.len() == old(boxes)@.len(),
        sorted_on(final(boxes)@, idx as int),
        final(boxes)@.to_multiset() == old(boxes)@.to_multiset(),
        forall|k: int| #[trigger] with_extent(final(boxes)@, idx as int, k) == with_extent(old(boxes)@, idx as int, k),
{
    let n = boxes.len();
    sort_range(boxes, 0, n, idx);
    proof {
        assert(boxes@.subrange(0, n as int) =~= boxes@);
        assert(old(boxes)@.subrange(0, n as int) =~= old(boxes)@);
        assert forall|k: int| #[trigger] with_extent(boxes@, idx as int, k) == with_extent(old(boxes)@, idx as int, k) by {
            assert(with_extent(boxes@.subrange(0, n as int), idx as int, k) == with_extent(
                old(boxes)@.subrange(0, n as int),
                idx as int,
                k,
            ));
        }
    }
}

/// Sorts `boxes[lo..hi]` along the longest axis of their covering and
/// returns the index at which the range splits in halves; the lower half has
/// `(hi - lo) / 2` boxes.
fn split_range(boxes: &mut [BoundingBox], lo: usize, hi: usize) -> (mid: usize)
    requires
        lo <= hi <= old(boxes)@.len(),
    ensures
        mid == lo + (hi - lo) / 2,
        final(boxes)@.len() == old(boxes)@.len(),
        sorted_on(
            final(boxes)@.subrange(lo as int, hi as int),
            split_axis(old(boxes)@.subrange(lo as int, hi as int)),
        ),
        final(boxes)@.subrange(lo as int, hi as int).to_multiset() == old(boxes)@.subrange(
            lo as int,
            hi as int,
        ).to_multiset(),
        forall|k: int|
            #[trigger] with_extent(
                final(boxes)@.subrange(lo as int, hi as int),
                split_axis(old(boxes)@.subrange(lo as int, hi as int)),
                k,
            ) == with_extent(
                old(boxes)@.subrange(lo as int, hi as int),
                split_axis(old(boxes)@.subrange(lo as int, hi as int)),
                k,
            ),
        forall|k: int|
            0 <= k < old(boxes)@.len() && !(lo <= k < hi) ==> final(boxes)@[k] == old(boxes)@[k],
{
    let halfway = lo + (hi - lo) / 2;
    let covering = make_all_covering(&boxes[lo..hi]);
    sort_range(boxes, lo, hi, covering.longest_axis());
    halfway
}

/// Sorts the boxes (stably) along the longest axis of their covering and returns
/// `boxes.len() / 2`, the index at which they split in halves.
pub fn split_on_covering(boxes: &mut [BoundingBox]) -> (halfway: usize)
    ensures
        halfway == old(boxes)@.len() / 2,
        final(boxes)@.len() == old(boxes)@.len(),
        sorted_on(final(boxes)@, split_axis(old(boxes)@)),
        final(boxes)@.to_multiset() == old(boxes)@.to_multiset(),
        forall|k: int|
            #[trigger] with_extent(final(boxes)@, split_axis(old(boxes)@), k) == with_extent(
                old(boxes)@,
                split_axis(old(boxes)@),
                k,
            ),
{
    let n = boxes.len();
    proof {
        assert(old(boxes)@.subrange(0, n as int) =~= old(boxes)@);
    }
    let halfway = split_range(boxes, 0, n);
    proof {
        assert(boxes@.subrange(0, n as int) =~= boxes@);
        let ax = split_axis(old(boxes)@);
        assert forall|k: int| #[trigger] with_extent(boxes@, ax, k) == with_extent(old(boxes)@, ax, k) by {
            assert(with_extent(boxes@.subrange(0, n as int), ax, k) == with_extent(
                old(boxes)@.subrange(0, n as int),
                ax,
                k,
            ));
        }
    }
    halfway
}

/// A node of the hierarchy: the box covering everything beneath it, and
/// its children. A leaf has no children and its box is one of the boxes the
/// tree was built from, payload included.
pub struct CoveringTree {
    pub cover: BoundingBox,
    pub left: Option<Box<CoveringTree>>,
    pub right: Option<Box<CoveringTree>>,
}

pub open spec fn leaves_of(t: Option<Box<CoveringTree>>) -> Seq<BoundingBox>
    decreases t,
{
    match t {
        Some(node) => node.leaves(),
        None => Seq::empty(),
    }
}

pub open spec fn height_of(t: Option<Box<CoveringTree>>) -> nat
    decreases t,
{
    match t {
        Some(node) => node.height(),
        None => 0,
    }
}

pub open spec fn candidates_of(t: Option<Box<CoveringTree>>, ray: Ray) -> Seq<usize>
    decreases t,
{
    match t {
        Some(node) => node.candidates(ray),
        None => Seq::empty(),
    }
}

/// The payload as a sequence of at most one index.
pub open spec fn payload_seq(b: BoundingBox) -> Seq<usize> {
    match b.boxed {
        Some(id) => seq![id],
        None => Seq::empty(),
    }
}

impl CoveringTree {
    /// A node without children whose box is the covering of `boxes`.
    pub fn make_from(boxes: &[BoundingBox]) -> (r: CoveringTree)
        ensures
            r.cover == all_covering(boxes@),
            r.is_leaf(),
    {
        CoveringTree { cover: make_all_covering(boxes), left: None, right: None }
    }

    pub open spec fn is_leaf(self) -> bool {
        self.left is None && self.right is None
    }

    /// The leaf boxes, from left to right.
    pub open spec fn leaves(self) -> Seq<BoundingBox>
        decreases self,
    {
        if self.is_leaf() {
            seq![self.cover]
        } else {
            leaves_of(self.left) + leaves_of(self.right)
        }
    }

    /// The number of nodes on the longest path from this node to a leaf.
    pub open spec fn height(self) -> nat
        decreases self,
    {
        1 + vstd::math::max(height_of(self.left) as int, height_of(self.right) as int) as nat
    }

    /// Every internal node has two children; its box is `all_covering` of the
    /// leaf boxes beneath it (and so carries no payload); its left subtree
    /// holds the lower half of those leaves by count, rounded down, and no
    /// left leaf is longer than a right one along the longest axis of the
    /// node's box.
    pub open spec fn wf(self) -> bool
        decreases self,
    {
        match self.left {
            None => self.right is None,
            Some(l) => match self.right {
                None => false,
                Some(r) => {
                    &&& l.wf()
                    &&& r.wf()
                    &&& self.cover == all_covering(l.leaves() + r.leaves())
                    &&& l.leaves().len() == (l.leaves().len() + r.leaves().len()) / 2
                    &&& split_by_extent(l.leaves(), r.leaves(), self.cover.longest_axis_of() as int)
                },
            },
        }
    }

    /// The tree is no deeper than `ceil(log2(n)) + 1`.
    pub open spec fn depth_within(self, n: nat) -> bool {
        self.height() <= 1 || pow2((self.height() - 2) as nat) < n
    }

    /// The payloads that a pruned depth-first walk reports for `ray`: nothing
    /// beneath a box that the ray misses; otherwise the node's own payload,
    /// then those of the left subtree, then those of the right one.
    pub open spec fn candidates(self, ray: Ray) -> Seq<usize>
        decreases self,
    {
        if self.cover.is_hit_by(ray) {
            payload_seq(self.cover) + candidates_of(self.left, ray) + candidates_of(self.right, ray)
        } else {
            Seq::empty()
        }
    }

    /// No internal node carries a payload.
    pub open spec fn payload_free_inside(self) -> bool
        decreases self,
    {
        self.is_leaf() || (self.cover.boxed is None && match self.left {
            Some(l) => l.payload_free_inside(),
            None => true,
        } && match self.right {
            Some(r) => r.payload_free_inside(),
            None => true,
        })
    }
}

proof fn lemma_depth_of_halves(n: nat, hl: nat, hr: nat)
    requires
        n >= 2,
        hl >= 1,
        hr >= 1,
        hl <= 1 || pow2((hl - 2) as nat) < n / 2,
        hr <= 1 || pow2((hr - 2) as nat) < n - n / 2,
    ensures
        ({
            let h = 1 + vstd::math::max(hl as int, hr as int);
            h <= 1 || pow2((h - 2) as nat) < n
        }),
{
    let hc = vstd::math::max(hl as int, hr as int) as nat;
    if hc <= 1 {
        lemma_pow0(2);
    } else {
        lemma_pow2_unfold((hc - 1) as nat);
        assert(pow2((hc - 2) as nat) < n - n / 2);
    }
}

/// Builds the subtree over `boxes[lo..hi]`, sorting that range in place.
fn build_range(boxes: &mut [BoundingBox], lo: usize, hi: usize) -> (tree: Box<CoveringTree>)
    requires
        lo < hi <= old(boxes)@.len(),
    ensures
        final(boxes)@.len() == old(boxes)@.len(),
        tree.wf(),
        tree.leaves() == final(boxes)@.subrange(lo as int, hi as int),
        tree.depth_within((hi - lo) as nat),
        final(boxes)@.subrange(lo as int, hi as int).to_multiset() == old(boxes)@.subrange(
            lo as int,
            hi as int,
        ).to_multiset(),
        forall|k: int|
            0 <= k < old(boxes)@.len() && !(lo <= k < hi) ==> final(boxes)@[k] == old(boxes)@[k],
    decreases hi - lo,
{
    if hi - lo > 1 {
        let ghost b0 = boxes@;
        let mut tree = CoveringTree::make_from(&boxes[lo..hi]);
        let mid = split_range(boxes, lo, hi);
        let ghost b1 = boxes@;
        let left = build_range(boxes, lo, mid);
        let ghost b2 = boxes@;
        let right = build_range(boxes, mid, hi);
        let ghost b3 = boxes@;
        tree.left = Some(left);
        tree.right = Some(right);
        proof {
            broadcast use vstd::seq_lib::lemma_multiset_commutative;

            let ax = split_axis(b0.subrange(lo as int, hi as int));
            let sorted = b1.subrange(lo as int, hi as int);
            let (lower, upper) = (b1.subrange(lo as int, mid as int), b1.subrange(mid as int, hi as int));
            assert forall|i: int, j: int| 0 <= i < lower.len() && 0 <= j < upper.len() implies extent(
                #[trigger] lower[i],
                ax,
            ) <= extent(#[trigger] upper[j], ax) by {
                assert(lower[i] == sorted[i] && upper[j] == sorted[lower.len() + j]);
            }

            assert(b3.subrange(lo as int, mid as int) =~= b2.subrange(lo as int, mid as int));
            assert(b2.subrange(mid as int, hi as int) =~= b1.subrange(mid as int, hi as int));
            assert(b3.subrange(lo as int, hi as int) =~= b3.subrange(lo as int, mid as int) + b3.subrange(
                mid as int,
                hi as int,
            ));
            assert(b1.subrange(lo as int, hi as int) =~= b1.subrange(lo as int, mid as int) + b1.subrange(
                mid as int,
                hi as int,
            ));
            assert(tree.leaves() == left.leaves() + right.leaves());
            lemma_all_covering_reordered(b0.subrange(lo as int, hi as int), b3.subrange(lo as int, hi as int));
            lemma_split_by_extent_reordered(lower, upper, left.leaves(), right.leaves(), ax);
            lemma_depth_of_halves((hi - lo) as nat, left.height(), right.height());
        }
        Box::new(tree)
    } else {
        let tree = CoveringTree { cover: boxes[lo], left: None, right: None };
        proof {
            assert(boxes@.subrange(lo as int, hi as int) =~= seq![boxes@[lo as int]]);
        }
        Box::new(tree)
    }
}

/// Builds the hierarchy over `boxes`, which it sorts in place along the way.
/// The leaves, from left to right, are the boxes as they end up in the slice;
/// that is a reordering of the boxes given. Each internal node covers its
/// leaves and splits them in halves by count, the shorter ones along the
/// longest axis of its box going left. There must be at least one box.
pub fn make_coveringtree(boxes: &mut [BoundingBox]) -> (tree: Box<CoveringTree>)
    requires
        old(boxes)@.len() >= 1,
    ensures
        tree.wf(),
        tree.leaves() == final(boxes)@,
        tree.leaves().len() == old(boxes)@.len(),
        final(boxes)@.to_multiset() == old(boxes)@.to_multiset(),
        tree.depth_within(old(boxes)@.len()),
        tree.payload_free_inside(),
{
    let n = boxes.len();
    let tree = build_range(boxes, 0, n);
    proof {
        lemma_payloads_only_in_leaves(*tree);
        assert(boxes@.subrange(0, n as int) =~= boxes@);
        assert(old(boxes)@.subrange(0, n as int) =~= old(boxes)@);
    }
    tree
}

/// Walks the tree depth first for `ray` and appends to `subscene` the payload
/// of every node whose box the ray hits, skipping whatever lies beneath a box
/// that it misses.
pub fn tree_filter(root: &Box<CoveringTree>, subscene: &mut Vec<usize>, ray: &Ray)
    ensures
        final(subscene)@ == old(subscene)@ + root.candidates(*ray),
    decreases root,
{
    if root.cover.check_intersection(ray) {
        if let Some(id) = root.cover.boxed {
            subscene.push(id);
        }
        if let Some(left_root) = &root.left {
            tree_filter(left_root, subscene, ray);
        }
        if let Some(right_root) = &root.right {
            tree_filter(right_root, subscene, ray);
        }
        proof {
            assert(subscene@ =~= old(subscene)@ + root.candidates(*ray));
        }
    }
}

/// The covering of a sequence holds each of its boxes.
pub proof fn lemma_all_covering_includes(s: Seq<BoundingBox>, i: int)
    requires
        0 <= i < s.len(),
    ensures
        all_covering(s).includes(s[i]),
    decreases s.len(),
{
    if i < s.len() - 1 {
        lemma_all_covering_includes(s.drop_last(), i);
    }
}

/// The covering of any sequence is a well-formed box: the fold starts from
/// the zero box, and covering a valid interval with any other stays valid.
pub proof fn lemma_all_covering_wf(s: Seq<BoundingBox>)
    ensures
        all_covering(s).wf(),
    decreases s.len(),
{
    if s.len() > 0 {
        lemma_all_covering_wf(s.drop_last());
    }
}

/// On each axis the covering runs from the least start to the greatest end
/// among the boxes and the origin.
proof fn lemma_all_covering_bounds(s: Seq<BoundingBox>, a: int)
    requires
        0 <= a < 3,
    ensures
        all_covering(s).dims[a].start <= 0 <= all_covering(s).dims[a].end,
        forall|i: int|
            0 <= i < s.len() ==> all_covering(s).dims[a].start <= (#[trigger] s[i]).dims[a].start
                && s[i].dims[a].end <= all_covering(s).dims[a].end,
        all_covering(s).dims[a].start == 0 || exists|i: int|
            0 <= i < s.len() && all_covering(s).dims[a].start == (#[trigger] s[i]).dims[a].start,
        all_covering(s).dims[a].end == 0 || exists|i: int|
            0 <= i < s.len() && all_covering(s).dims[a].end == (#[trigger] s[i]).dims[a].end,
    decreases s.len(),
{
    if s.len() > 0 {
        let p = s.drop_last();
        lemma_all_covering_bounds(p, a);
        let c = all_covering(s).dims[a];
        let last = s.len() - 1;
        assert forall|i: int| 0 <= i < s.len() implies c.start <= (#[trigger] s[i]).dims[a].start
            && s[i].dims[a].end <= c.end by {
            if i < last {
                assert(s[i] == p[i]);
            }
        }
        if c.start != 0 && c.start != s[last].dims[a].start {
            let i = choose|i: int| 0 <= i < p.len() && all_covering(p).dims[a].start == (#[trigger] p[i]).dims[a].start;
            assert(s[i] == p[i]);
        }
        if c.end != 0 && c.end != s[last].dims[a].end {
            let i = choose|i: int| 0 <= i < p.len() && all_covering(p).dims[a].end == (#[trigger] p[i]).dims[a].end;
            assert(s[i] == p[i]);
        }
    }
}

/// The covering does not depend on the order of the boxes.
pub proof fn lemma_all_covering_reordered(s: Seq<BoundingBox>, t: Seq<BoundingBox>)
    requires
        s.to_multiset() == t.to_multiset(),
    ensures
        all_covering(s) == all_covering(t),
{
    broadcast use vstd::seq_lib::to_multiset_contains;

    assert forall|a: int| 0 <= a < 3 implies all_covering(s).dims[a] == all_covering(t).dims[a] by {
        lemma_all_covering_bounds(s, a);
        lemma_all_covering_bounds(t, a);
        let (cs, ct) = (all_covering(s).dims[a], all_covering(t).dims[a]);
        if cs.start != 0 {
            let i = choose|i: int| 0 <= i < s.len() && cs.start == (#[trigger] s[i]).dims[a].start;
            assert(s.contains(s[i]));
            assert(s.to_multiset().count(s[i]) > 0);
            assert(t.to_multiset().count(s[i]) > 0);
            assert(t.contains(s[i]));
            let k = choose|k: int| 0 <= k < t.len() && t[k] == s[i];
            assert(t[k] == s[i]);
        }
        if ct.start != 0 {
            let j = choose|j: int| 0 <= j < t.len() && ct.start == (#[trigger] t[j]).dims[a].start;
            assert(t.contains(t[j]));
            assert(t.to_multiset().count(t[j]) > 0);
            assert(s.to_multiset().count(t[j]) > 0);
            assert(s.contains(t[j]));
            let k = choose|k: int| 0 <= k < s.len() && s[k] == t[j];
            assert(s[k] == t[j]);
        }
        if cs.end != 0 {
            let i = choose|i: int| 0 <= i < s.len() && cs.end == (#[trigger] s[i]).dims[a].end;
            assert(s.contains(s[i]));
            assert(s.to_multiset().count(s[i]) > 0);
            assert(t.to_multiset().count(s[i]) > 0);
            assert(t.contains(s[i]));
            let k = choose|k: int| 0 <= k < t.len() && t[k] == s[i];
            assert(t[k] == s[i]);
        }
        if ct.end != 0 {
            let j = choose|j: int| 0 <= j < t.len() && ct.end == (#[trigger] t[j]).dims[a].end;
            assert(t.contains(t[j]));
            assert(t.to_multiset().count(t[j]) > 0);
            assert(s.to_multiset().count(t[j]) > 0);
            assert(s.contains(t[j]));
            let k = choose|k: int| 0 <= k < s.len() && s[k] == t[j];
            assert(s[k] == t[j]);
        }
    }
    assert(all_covering(s).dims[0] == all_covering(t).dims[0]);
    assert(all_covering(s).dims[1] == all_covering(t).dims[1]);
    assert(all_covering(s).dims[2] == all_covering(t).dims[2]);
}

proof fn lemma_split_by_extent_reordered(
    lower: Seq<BoundingBox>,
    upper: Seq<BoundingBox>,
    lower2: Seq<BoundingBox>,
    upper2: Seq<BoundingBox>,
    axis: int,
)
    requires
        split_by_extent(lower, upper, axis),
        lower2.to_multiset() == lower.to_multiset(),
        upper2.to_multiset() == upper.to_multiset(),
    ensures
        split_by_extent(lower2, upper2, axis),
{
    broadcast use vstd::seq_lib::to_multiset_contains;

    assert forall|i: int, j: int| 0 <= i < lower2.len() && 0 <= j < upper2.len() implies extent(
        #[trigger] lower2[i],
        axis,
    ) <= extent(#[trigger] upper2[j], axis) by {
        assert(lower2.contains(lower2[i]));
        assert(lower2.to_multiset().count(lower2[i]) > 0);
        assert(lower.contains(lower2[i]));
        let p = choose|p: int| 0 <= p < lower.len() && lower[p] == lower2[i];
        assert(upper2.contains(upper2[j]));
        assert(upper2.to_multiset().count(upper2[j]) > 0);
        assert(upper.contains(upper2[j]));
        let q = choose|q: int| 0 <= q < upper.len() && upper[q] == upper2[j];
        assert(extent(lower[p], axis) <= extent(upper[q], axis));
    }
}

/// A box that holds another is hit by every ray that hits the other.
pub proof fn lemma_hit_grows(big: BoundingBox, small: BoundingBox, ray: Ray)
    requires
        big.includes(small),
        small.is_hit_by(ray),
    ensures
        big.is_hit_by(ray),
{
    let (n1, m1, n2, m2) = choose|n1: int, m1: int, n2: int, m2: int|
        m1 > 0 && m2 > 0 && n1 * m2 < n2 * m1 && #[trigger] small.holds_point_of(ray, n1, m1)
            && #[trigger] small.holds_point_of(ray, n2, m2);
    assert forall|n: int, m: int| m > 0 && small.holds_point_of(ray, n, m) implies big.holds_point_of(ray, n, m) by {
        assert forall|axis: int| 0 <= axis < 3 implies big.dims[axis].start * m <= small.dims[axis].start * m
            && small.dims[axis].end * m <= big.dims[axis].end * m by {
            let (bs, ss, se, be) = (
                big.dims[axis].start as int,
                small.dims[axis].start as int,
                small.dims[axis].end as int,
                big.dims[axis].end as int,
            );
            assert(bs * m <= ss * m && se * m <= be * m) by (nonlinear_arith)
                requires
                    bs <= ss,
                    se <= be,
                    m > 0,
            ;
        }
    }
    assert(big.holds_point_of(ray, n1, m1) && big.holds_point_of(ray, n2, m2));
}

/// A tree has at least one leaf.
pub proof fn lemma_leaves_nonempty(tree: CoveringTree)
    requires
        tree.wf(),
    ensures
        tree.leaves().len() >= 1,
    decreases tree,
{
    if !tree.is_leaf() {
        lemma_leaves_nonempty(*tree.left.unwrap());
    }
}

/// Containment: the box of every node is `all_covering` of the leaf boxes
/// beneath it, so it holds each of them.
pub proof fn lemma_cover_holds_leaves(tree: CoveringTree)
    requires
        tree.wf(),
    ensures
        !tree.is_leaf() ==> tree.cover == all_covering(tree.leaves()),
        forall|i: int| 0 <= i < tree.leaves().len() ==> tree.cover.includes(#[trigger] tree.leaves()[i]),
{
    assert forall|i: int| 0 <= i < tree.leaves().len() implies tree.cover.includes(#[trigger] tree.leaves()[i]) by {
        if !tree.is_leaf() {
            lemma_all_covering_includes(tree.leaves(), i);
        }
    }
}

/// Shape: in a well-formed tree no internal node carries a payload; the
/// payloads all sit in the leaves.
pub proof fn lemma_payloads_only_in_leaves(tree: CoveringTree)
    requires
        tree.wf(),
    ensures
        tree.payload_free_inside(),
    decreases tree,
{
    if !tree.is_leaf() {
        lemma_payloads_only_in_leaves(*tree.left.unwrap());
        lemma_payloads_only_in_leaves(*tree.right.unwrap());
    }
}

/// The payloads of the boxes of `s` that `ray` hits, in order.
pub open spec fn hit_payloads(s: Seq<BoundingBox>, ray: Ray) -> Seq<usize>
    decreases s.len(),
{
    if s.len() == 0 {
        Seq::empty()
    } else {
        hit_payloads(s.drop_last(), ray) + (if s.last().is_hit_by(ray) {
            payload_seq(s.last())
        } else {
            Seq::empty()
        })
    }
}

proof fn lemma_hit_payloads_concat(a: Seq<BoundingBox>, b: Seq<BoundingBox>, ray: Ray)
    ensures
        hit_payloads(a + b, ray) == hit_payloads(a, ray) + hit_payloads(b, ray),
    decreases b.len(),
{
    if b.len() == 0 {
        assert(a + b =~= a);
        assert(hit_payloads(a, ray) + hit_payloads(b, ray) =~= hit_payloads(a, ray));
    } else {
        lemma_hit_payloads_concat(a, b.drop_last(), ray);
        assert((a + b).drop_last() =~= a + b.drop_last());
        let tail = if b.last().is_hit_by(ray) {
            payload_seq(b.last())
        } else {
            Seq::<usize>::empty()
        };
        assert(hit_payloads(a, ray) + hit_payloads(b.drop_last(), ray) + tail =~= hit_payloads(a, ray) + (
        hit_payloads(b.drop_last(), ray) + tail));
    }
}

proof fn lemma_hit_payloads_none_hit(s: Seq<BoundingBox>, ray: Ray)
    requires
        forall|i: int| 0 <= i < s.len() ==> !(#[trigger] s[i]).is_hit_by(ray),
    ensures
        hit_payloads(s, ray) == Seq::<usize>::empty(),
    decreases s.len(),
{
    if s.len() > 0 {
        assert forall|i: int| 0 <= i < s.drop_last().len() implies !(#[trigger] s.drop_last()[i]).is_hit_by(
            ray,
        ) by {
            assert(s.drop_last()[i] == s[i]);
        }
        lemma_hit_payloads_none_hit(s.drop_last(), ray);
        assert(!s[s.len() - 1].is_hit_by(ray));
        assert(hit_payloads(s, ray) =~= Seq::<usize>::empty());
    }
}

/// The walk is exact: it reports the payloads of precisely those leaves
/// whose boxes the ray hits, from left to right. Pruning at a missed box
/// skips no leaf that the ray hits, since that box holds every leaf beneath it.
pub proof fn lemma_walk_reports_hit_leaves(tree: CoveringTree, ray: Ray)
    requires
        tree.wf(),
    ensures
        tree.candidates(ray) == hit_payloads(tree.leaves(), ray),
    decreases tree,
{
    lemma_cover_holds_leaves(tree);
    if tree.is_leaf() {
        let leaves = tree.leaves();
        assert(leaves.drop_last() =~= Seq::<BoundingBox>::empty());
        assert(hit_payloads(leaves.drop_last(), ray) == Seq::<usize>::empty());
        assert(leaves.last() == tree.cover);
        assert(candidates_of(tree.left, ray) == Seq::<usize>::empty());
        assert(candidates_of(tree.right, ray) == Seq::<usize>::empty());
        assert(tree.candidates(ray) =~= hit_payloads(leaves, ray));
    } else {
        let l = *tree.left.unwrap();
        let r = *tree.right.unwrap();
        if tree.cover.is_hit_by(ray) {
            lemma_walk_reports_hit_leaves(l, ray);
            lemma_walk_reports_hit_leaves(r, ray);
            lemma_hit_payloads_concat(l.leaves(), r.leaves(), ray);
            assert(tree.candidates(ray) =~= hit_payloads(tree.leaves(), ray));
        } else {
            assert forall|i: int| 0 <= i < tree.leaves().len() implies !(
            #[trigger] tree.leaves()[i]).is_hit_by(ray) by {
                if tree.leaves()[i].is_hit_by(ray) {
                    lemma_hit_grows(tree.cover, tree.leaves()[i], ray);
                }
            }
            lemma_hit_payloads_none_hit(tree.leaves(), ray);
        }
    }
}

/// No loss: when the ray hits every leaf box and each leaf carries a payload,
/// the walk reports the payload of every leaf, each once, from left to right.
pub proof fn lemma_walk_reports_every_leaf(tree: CoveringTree, ray: Ray)
    requires
        tree.wf(),
        forall|i: int|
            0 <= i < tree.leaves().len() ==> (#[trigger] tree.leaves()[i]).boxed is Some
                && tree.leaves()[i].is_hit_by(ray),
    ensures
        tree.candidates(ray) == tree.leaves().map_values(|b: BoundingBox| b.boxed.unwrap()),
    decreases tree,
{
    lemma_leaves_nonempty(tree);
    lemma_cover_holds_leaves(tree);
    lemma_hit_grows(tree.cover, tree.leaves()[0], ray);
    if tree.is_leaf() {
        assert(tree.candidates(ray) =~= tree.leaves().map_values(|b: BoundingBox| b.boxed.unwrap()));
    } else {
        let l = *tree.left.unwrap();
        let r = *tree.right.unwrap();
        assert forall|i: int| 0 <= i < l.leaves().len() implies (#[trigger] l.leaves()[i]).boxed is Some
            && l.leaves()[i].is_hit_by(ray) by {
            assert(l.leaves()[i] == tree.leaves()[i]);
        }
        assert forall|i: int| 0 <= i < r.leaves().len() implies (#[trigger] r.leaves()[i]).boxed is Some
            && r.leaves()[i].is_hit_by(ray) by {
            assert(r.leaves()[i] == tree.leaves()[l.leaves().len() + i]);
        }
        lemma_walk_reports_every_leaf(l, ray);
        lemma_walk_reports_every_leaf(r, ray);
        assert(tree.candidates(ray) =~= tree.leaves().map_values(|b: BoundingBox| b.boxed.unwrap()));
    }
}

/// No loss, from the boxes a tree was built from: when the ray hits each of
/// those boxes and each carries a payload, the walk reports exactly as many
/// candidates as there were boxes, one for each leaf.
pub proof fn lemma_walk_reports_every_box(boxes: Seq<BoundingBox>, tree: CoveringTree, ray: Ray)
    requires
        tree.wf(),
        tree.leaves().to_multiset() == boxes.to_multiset(),
        forall|i: int| 0 <= i < boxes.len() ==> (#[trigger] boxes[i]).boxed is Some && boxes[i].is_hit_by(ray),
    ensures
        tree.candidates(ray) == tree.leaves().map_values(|b: BoundingBox| b.boxed.unwrap()),
        tree.candidates(ray).len() == boxes.len(),
{
    broadcast use vstd::seq_lib::to_multiset_contains, vstd::seq_lib::to_multiset_len;

    assert forall|i: int| 0 <= i < tree.leaves().len() implies (#[trigger] tree.leaves()[i]).boxed is Some
        && tree.leaves()[i].is_hit_by(ray) by {
        let x = tree.leaves()[i];
        assert(tree.leaves().contains(x));
        assert(tree.leaves().to_multiset().count(x) > 0);
        assert(boxes.to_multiset().count(x) > 0);
        assert(boxes.contains(x));
        let j = choose|j: int| 0 <= j < boxes.len() && boxes[j] == x;
        assert(boxes[j].boxed is Some);
    }
    lemma_walk_reports_every_leaf(tree, ray);
    assert(tree.leaves().to_multiset().len() == tree.leaves().len());
    assert(boxes.to_multiset().len() == boxes.len());
}

impl PartialEq for BoundingBox {
    /// Boxes are equal when their intervals are; payloads are not compared.
    fn eq(&self, rhs: &BoundingBox) -> (r: bool) {
        self.dims[0] == rhs.dims[0] && self.dims[1] == rhs.dims[1] && self.dims[2] == rhs.dims[2]
    }
}

impl vstd::std_specs::cmp::PartialEqSpecImpl for BoundingBox {
    open spec fn obeys_eq_spec() -> bool {
        true
    }

    open spec fn eq_spec(&self, other: &BoundingBox) -> bool {
        self.same_dims(*other)
    }
}

impl Default for BoundingBox {
    /// The zero-size box at the origin, with no payload.
    fn default() -> (r: BoundingBox)
        ensures
            r == zero_box(),
    {
        BoundingBox::empty()
    }
}

} // verus!
