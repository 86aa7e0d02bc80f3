use vstd::prelude::*;
use crate::vector::{Vector2, vadd, vsub};

verus! {

/// One of the four directions in which the player moves.
#[derive(Clone, Copy, PartialEq, Eq, Hash, Debug, Structural)]
pub enum Direction {
    Up,
    Down,
    Left,
    Right,
}

/// The unit vector of a direction; the y axis points down.
pub open spec fn dir_vec(d: Direction) -> Vector2 {
    match d {
        Direction::Up => Vector2 { x: 0, y: -1i32 },
        Direction::Down => Vector2 { x: 0, y: 1 },
        Direction::Left => Vector2 { x: -1i32, y: 0 },
        Direction::Right => Vector2 { x: 1, y: 0 },
    }
}

/// The direction whose unit vector is `v`, if any.
pub open spec fn dir_of_vec(v: Vector2) -> Option<Direction> {
    if v == (Vector2 { x: 0, y: -1i32 }) {
        Some(Direction::Up)
    } else if v == (Vector2 { x: 0, y: 1 }) {
        Some(Direction::Down)
    } else if v == (Vector2 { x: -1i32, y: 0 }) {
        Some(Direction::Left)
    } else if v == (Vector2 { x: 1, y: 0 }) {
        Some(Direction::Right)
    } else {
        None
    }
}

/// The position one step from `p` in direction `d`.
pub open spec fn step(p: Vector2, d: Direction) -> Vector2 {
    vadd(p, dir_vec(d))
}

/// The position one step from `p` against direction `d`.
pub open spec fn step_back(p: Vector2, d: Direction) -> Vector2 {
    vsub(p, dir_vec(d))
}

/// Whether a step from `p` in any direction stays within the coordinate type.
pub open spec fn steppable(p: Vector2) -> bool {
    i32::MIN < p.x < i32::MAX && i32::MIN < p.y < i32::MAX
}

/// Stepping back undoes a step.
pub proof fn lemma_step_back_step(p: Vector2, d: Direction)
    requires
        steppable(p),
    ensures
        step_back(step(p, d), d) == p,
        step(step_back(p, d), d) == p,
{
}

/// The four directions in the order in which the search tries them.
pub open spec fn all_directions() -> Seq<Direction> {
    seq![Direction::Up, Direction::Down, Direction::Left, Direction::Right]
}

/// The position of a direction in the order up, down, left, right.
pub open spec fn dir_index(d: Direction) -> int {
    match d {
        Direction::Up => 0,
        Direction::Down => 1,
        Direction::Left => 2,
        Direction::Right => 3,
    }
}

impl Direction {
    /// The position of the direction in the order up, down, left, right.
    pub fn index(&self) -> (r: usize)
        ensures
            r == dir_index(*self),
            r < 4,
    {
        match self {
            Direction::Up => 0,
            Direction::Down => 1,
            Direction::Left => 2,
            Direction::Right => 3,
        }
    }

    /// Converts to a 2D unit vector.
    pub fn to_vector(&self) -> (r: Vector2)
        ensures
            r == dir_vec(*self),
    {
        match self {
            Direction::Up => Vector2::new(0, -1),
            Direction::Down => Vector2::new(0, 1),
            Direction::Left => Vector2::new(-1, 0),
            Direction::Right => Vector2::new(1, 0),
        }
    }

    /// The direction of a unit vector, or `None` for any other vector.
    pub fn from_vector(vector: Vector2) -> (r: Option<Self>)
        ensures
            r == dir_of_vec(vector),
    {
        if vector.x == 0 && vector.y == -1 {
            Some(Direction::Up)
        } else if vector.x == 0 && vector.y == 1 {
            Some(Direction::Down)
        } else if vector.x == -1 && vector.y == 0 {
            Some(Direction::Left)
        } else if vector.x == 1 && vector.y == 0 {
            Some(Direction::Right)
        } else {
            None
        }
    }

    /// The four directions: up, down, left, right.
    pub fn all() -> (r: [Direction; 4])
        ensures
            r@ == all_directions(),
    {
        [Direction::Up, Direction::Down, Direction::Left, Direction::Right]
    }
}

/// The position one step from `p` in direction `d`.
pub fn step_exec(p: &Vector2, d: Direction) -> (r: Vector2)
    requires
        steppable(*p),
    ensures
        r == step(*p, d),
{
    p.add(&d.to_vector())
}

/// The position one step from `p` against direction `d`.
pub fn step_back_exec(p: &Vector2, d: Direction) -> (r: Vector2)
    requires
        steppable(*p),
    ensures
        r == step_back(*p, d),
{
    p.sub(&d.to_vector())
}

} // verus!
