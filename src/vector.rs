use vstd::prelude::*;

verus! {

/// A point or a direction in space, one fixed-point coordinate per axis.
#[derive(Clone, Copy, Debug, PartialEq, Eq)]
pub struct Vec3(pub [i64; 3]);

impl Vec3 {
    pub open spec fn at(self, axis: int) -> int {
        self.0[axis] as int
    }
}

} // verus!
