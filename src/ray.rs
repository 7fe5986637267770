use vstd::prelude::*;

use crate::vector::Vec3;

verus! {

/// The line through `orig` along `dir`: the points `orig + t * dir` for every
/// parameter `t`. The direction need not have unit length, and any of its
/// components may be zero.
#[derive(Clone, Copy, Debug, PartialEq, Eq)]
pub struct Ray {
    pub orig: Vec3,
    pub dir: Vec3,
}

impl Ray {
    /// The ray from `position` along `point_to`. With exact coordinates the
    /// direction is kept as given: only its orientation matters to the box test.
    pub fn new(position: Vec3, point_to: Vec3) -> (r: Ray)
        ensures
            r.orig == position,
            r.dir == point_to,
    {
        Ray { orig: position, dir: point_to }
    }
}

} // verus!
