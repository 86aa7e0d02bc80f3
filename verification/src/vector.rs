use vstd::prelude::*;

verus! {

/// A position or an offset on the integer grid of a level.
#[derive(Clone, Copy, PartialEq, Eq, Hash, Debug, Structural)]
pub struct Vector2 {
    pub x: i32,
    pub y: i32,
}

/// Whether `a + b` fits in the coordinate type.
pub open spec fn add_fits(a: Vector2, b: Vector2) -> bool {
    i32::MIN <= a.x + b.x <= i32::MAX && i32::MIN <= a.y + b.y <= i32::MAX
}

/// Whether `a - b` fits in the coordinate type.
pub open spec fn sub_fits(a: Vector2, b: Vector2) -> bool {
    i32::MIN <= a.x - b.x <= i32::MAX && i32::MIN <= a.y - b.y <= i32::MAX
}

/// The vector `a + b`, meaningful where it fits.
pub open spec fn vadd(a: Vector2, b: Vector2) -> Vector2 {
    Vector2 { x: (a.x + b.x) as i32, y: (a.y + b.y) as i32 }
}

/// The vector `a - b`, meaningful where it fits.
pub open spec fn vsub(a: Vector2, b: Vector2) -> Vector2 {
    Vector2 { x: (a.x - b.x) as i32, y: (a.y - b.y) as i32 }
}

/// Manhattan distance between two positions.
pub open spec fn manhattan_spec(a: Vector2, b: Vector2) -> int {
    let dx = a.x - b.x;
    let dy = a.y - b.y;
    (if dx < 0 { -dx } else { dx }) + (if dy < 0 { -dy } else { dy })
}

impl Vector2 {
    /// Creates a vector from its two coordinates.
    pub fn new(x: i32, y: i32) -> (r: Self)
        ensures
            r.x == x,
            r.y == y,
    {
        Vector2 { x, y }
    }

    /// The zero vector.
    pub fn zeros() -> (r: Self)
        ensures
            r.x == 0,
            r.y == 0,
    {
        Vector2 { x: 0, y: 0 }
    }

    /// Component-wise sum.
    pub fn add(&self, other: &Vector2) -> (r: Vector2)
        requires
            add_fits(*self, *other),
        ensures
            r == vadd(*self, *other),
            r.x == self.x + other.x,
            r.y == self.y + other.y,
    {
        Vector2 { x: self.x + other.x, y: self.y + other.y }
    }

    /// Component-wise difference.
    pub fn sub(&self, other: &Vector2) -> (r: Vector2)
        requires
            sub_fits(*self, *other),
        ensures
            r == vsub(*self, *other),
            r.x == self.x - other.x,
            r.y == self.y - other.y,
    {
        Vector2 { x: self.x - other.x, y: self.y - other.y }
    }
}

/// Manhattan distance between two positions.
pub fn manhattan_distance(a: &Vector2, b: &Vector2) -> (r: i64)
    ensures
        r == manhattan_spec(*a, *b),
{
    let dx: i64 = a.x as i64 - b.x as i64;
    let dy: i64 = a.y as i64 - b.y as i64;
    let ax: i64 = if dx < 0 { -dx } else { dx };
    let ay: i64 = if dy < 0 { -dy } else { dy };
    ax + ay
}

} // verus!
