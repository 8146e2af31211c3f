use vstd::prelude::*;

verus! {

/// A pair of coordinates.
#[derive(Debug, PartialEq, Eq)]
pub struct Vector<T> {
    pub x: T,
    pub y: T,
}

impl<T> Vector<T> {
    pub fn new(x: T, y: T) -> (r: Self)
        ensures
            r.x == x,
            r.y == y,
    {
        Vector { x, y }
    }
}

/// `v` brought into the range of an `i32`, the nearest bound when it lies outside.
pub open spec fn saturate_i32(v: int) -> i32 {
    if v < i32::MIN {
        i32::MIN
    } else if v > i32::MAX {
        i32::MAX
    } else {
        v as i32
    }
}

impl Vector<i64> {
    /// Each coordinate as an `i32`, clamped to that type's range.
    pub fn to_i32(&self) -> (r: Vector<i32>)
        ensures
            r.x == saturate_i32(self.x as int),
            r.y == saturate_i32(self.y as int),
    {
        Vector::new(clamp_i32(self.x), clamp_i32(self.y))
    }
}

fn clamp_i32(v: i64) -> (r: i32)
    ensures
        r == saturate_i32(v as int),
{
    if v < i32::MIN as i64 {
        i32::MIN
    } else if v > i32::MAX as i64 {
        i32::MAX
    } else {
        v as i32
    }
}

} // verus!
