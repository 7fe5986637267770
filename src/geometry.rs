use vstd::prelude::*;

use crate::boundingvolume::BoundingBox;
use crate::intervals::{cover_of, Interval};
use crate::intervals;
use crate::vector::Vec3;

verus! {

/// A sphere, in fixed-point coordinates.
#[derive(Clone, Copy, Debug)]
pub struct Sphere {
    pub centre: Vec3,
    pub radius: i64,
}

impl Sphere {
    pub fn new(centre: Vec3, radius: i64) -> (r: Sphere)
        ensures
            r.centre == centre,
            r.radius == radius,
    {
        Sphere { centre, radius }
    }
}

/// A bare box of three intervals, one per axis.
#[derive(Clone, Copy, Debug)]
pub struct BoundBox(pub [Interval; 3]);

/// The smallest box holding both, axis by axis.
pub fn cover(bbox1: &BoundBox, bbox2: &BoundBox) -> (r: BoundBox)
    ensures
        r.0[0] == cover_of(bbox1.0[0], bbox2.0[0]),
        r.0[1] == cover_of(bbox1.0[1], bbox2.0[1]),
        r.0[2] == cover_of(bbox1.0[2], bbox2.0[2]),
{
    BoundBox(
        [
            intervals::cover(&bbox1.0[0], &bbox2.0[0]),
            intervals::cover(&bbox1.0[1], &bbox2.0[1]),
            intervals::cover(&bbox1.0[2], &bbox2.0[2]),
        ],
    )
}

/// A scene object that can state the box holding it.
pub trait Cover: Sized {
    /// The box of the object can be written in `i64` coordinates.
    spec fn fits(&self) -> bool;

    /// The box holding the object, carrying `id` (the object's index in the
    /// scene) as its payload.
    fn make_covering(self, id: usize) -> (r: BoundingBox)
        requires
            self.fits(),
        ensures
            r.boxed == Some(id),
    ;
}

/// The interval `[c - radius, c + radius]` fits in `i64` coordinates.
pub open spec fn span_fits(c: int, radius: int) -> bool {
    i64::MIN <= c - radius <= i64::MAX && i64::MIN <= c + radius <= i64::MAX
}

impl Cover for Sphere {
    open spec fn fits(&self) -> bool {
        &&& span_fits(self.centre.at(0), self.radius as int)
        &&& span_fits(self.centre.at(1), self.radius as int)
        &&& span_fits(self.centre.at(2), self.radius as int)
    }

    /// The box reaches `radius` to either side of the centre on each axis.
    fn make_covering(self, id: usize) -> (r: BoundingBox)
        ensures
            r.boxed == Some(id),
            self.radius >= 0 ==> r.wf(),
            forall|axis: int|
                0 <= axis < 3 ==> r.dims[axis].start == self.centre.at(axis) - self.radius
                    && r.dims[axis].end == self.centre.at(axis) + self.radius,
    {
        let c = self.centre.0;
        let rad = self.radius;
        let dims = [
            Interval::new(c[0] - rad, c[0] + rad),
            Interval::new(c[1] - rad, c[1] + rad),
            Interval::new(c[2] - rad, c[2] + rad),
        ];
        BoundingBox::with_payload(dims, id)
    }
}

} // verus!
