use vstd::prelude::*;

verus! {

/// An immutable integer coordinate in cell space.
#[derive(Clone, Copy, Debug, PartialEq, Eq, Structural)]
pub struct Point {
    pub x: u32,
    pub y: u32,
}

impl Point {
    pub fn new(x: u32, y: u32) -> (p: Point)
        ensures
            p.x == x,
            p.y == y,
    {
        Point { x, y }
    }
}

/// Two distinct cells touch, orthogonally or diagonally: `b` lies in the
/// Moore neighbourhood of `a`.
pub open spec fn is_neighbor(a: Point, b: Point) -> bool {
    &&& a != b
    &&& -1 <= a.x as int - b.x as int <= 1
    &&& -1 <= a.y as int - b.y as int <= 1
}

} // verus!
