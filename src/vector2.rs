use vstd::prelude::*;

verus! {

/// A point or displacement in the plane.
#[derive(Clone, Copy, Debug)]
pub struct Vector2<T> {
    pub x: T,
    pub y: T,
}

impl<T: Copy> Vector2<T> {
    pub fn new(x: T, y: T) -> (r: Vector2<T>)
        ensures
            r.x == x,
            r.y == y,
    {
        Vector2 { x, y }
    }
}

impl Vector2<i64> {
    /// x^2 + y^2, for vectors short enough that it fits in 64 bits.
    pub fn magnitude_squared(&self) -> (r: i64)
        requires
            self.x * self.x + self.y * self.y <= i64::MAX,
        ensures
            r == self.x * self.x + self.y * self.y,
    {
        proof {
            assert(0 <= self.x * self.x <= self.x * self.x + self.y * self.y) by (nonlinear_arith);
            assert(0 <= self.y * self.y) by (nonlinear_arith);
        }
        self.x * self.x + self.y * self.y
    }
}

} // verus!
