//! Three-component sample points: a plane position and the field value there.

use vstd::prelude::*;

verus! {

#[derive(Clone, Copy, Debug, PartialEq, Eq, Structural)]
pub struct Point3 {
    pub x: i64,
    pub y: i64,
    pub z: i64,
}

impl Point3 {
    pub fn new(x_: i64, y_: i64, z_: i64) -> (r: Self)
        ensures
            r.x == x_,
            r.y == y_,
            r.z == z_,
    {
        Point3 { x: x_, y: y_, z: z_ }
    }
}

} // verus!
