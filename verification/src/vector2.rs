//! Two-component samples for the one-variable fitting routines.

use vstd::prelude::*;

verus! {

#[derive(Clone, Copy, Debug, PartialEq, Eq, Structural)]
pub struct Vector2 {
    pub x: i64,
    pub y: i64,
}

impl Vector2 {
    pub fn new(x_: i64, y_: i64) -> (r: Self)
        ensures
            r.x == x_,
            r.y == y_,
    {
        Vector2 { x: x_, y: y_ }
    }
}

} // verus!
