use vstd::prelude::*;

verus! {

/// A point in the plane with integer coordinates.
#[derive(Debug, Default, Copy, Clone, PartialEq, Eq, Structural)]
pub struct Point {
    pub x: i32,
    pub y: i32,
}

impl Point {
    /// Constructs the point `(x, y)`.
    pub fn new(x: i32, y: i32) -> (p: Self)
        ensures
            p == (Point { x, y }),
    {
        Self { x, y }
    }
}

} // verus!
