use vstd::prelude::*;
use crate::vector::Vector2;
use crate::level::in_bounds_spec;
use crate::direction::{Direction, step};

verus! {

/// Whether `p` and its four neighbours lie on a grid of the given size.
pub open spec fn interior(size: Vector2, p: Vector2) -> bool {
    1 <= p.x < size.x - 1 && 1 <= p.y < size.y - 1
}

/// What `soukoban::deadlock::is_freeze_deadlock` answers for the crate at
/// `box_position`, on a grid of the given size whose walls are `walls`, with
/// crates at `crates`.
pub uninterp spec fn freeze_deadlock(
    size: Vector2,
    walls: Seq<Vector2>,
    box_position: Vector2,
    crates: Seq<Vector2>,
) -> bool;

/// Calls `soukoban::deadlock::is_freeze_deadlock` on a map of the given size
/// that holds the given walls and nothing else, with the given crates. It
/// reads only the walls of the map and the crate positions. Claimed of it:
/// its answer is a function of these arguments. How it decides is left unsaid:
/// it follows the crates that block the crate on each axis, recursively.
#[verifier::external_body]
pub(crate) fn is_freeze_deadlock(
    size: Vector2,
    walls: &Vec<Vector2>,
    box_position: Vector2,
    crates: &Vec<Vector2>,
) -> (r: bool)
    requires
        0 <= size.x,
        0 <= size.y,
        size.x * size.y <= i32::MAX,
        forall|i: int| 0 <= i < walls@.len() ==> in_bounds_spec(size, #[trigger] walls@[i]),
        crates@.contains(box_position),
        forall|i: int| 0 <= i < crates@.len() ==> interior(size, #[trigger] crates@[i]),
    ensures
        r == freeze_deadlock(size, walls@, box_position, crates@),
{
    let mut map = soukoban::map::Map::with_dimensions(soukoban::Vector2::new(size.x, size.y));
    for wall in walls.iter() {
        map[soukoban::Vector2::new(wall.x, wall.y)] = soukoban::tiles::Tiles::Wall;
    }
    let boxes: soukoban::FxHashSet<soukoban::Vector2<i32>> =
        crates.iter().map(|c| soukoban::Vector2::new(c.x, c.y)).collect();
    soukoban::deadlock::is_freeze_deadlock(
        &map,
        soukoban::Vector2::new(box_position.x, box_position.y),
        &boxes,
        &mut soukoban::FxHashSet::default(),
    )
}

/// The cells that `soukoban::deadlock::compute_static_deadlocks` gives for a
/// map of the given size holding the given walls, floors and goals.
pub uninterp spec fn static_dead_cells(
    size: Vector2,
    walls: Set<Vector2>,
    floors: Set<Vector2>,
    goals: Set<Vector2>,
) -> Set<Vector2>;

/// Whether every floor cell lies inside the border of the grid and each of
/// its four neighbours is floor or wall.
pub open spec fn floor_enclosed(size: Vector2, walls: Set<Vector2>, floors: Set<Vector2>) -> bool {
    forall|p: Vector2|
        #[trigger] floors.contains(p) ==> interior(size, p) && forall|d: Direction|
            floors.contains(#[trigger] step(p, d)) || walls.contains(step(p, d))
}

/// Calls `soukoban::deadlock::compute_static_deadlocks` on a map of the given
/// size that holds the given walls, floors and goals and nothing else.
/// Claimed of it: its answer is a set that is a function of these, and each
/// of its cells is a floor cell without a goal. How it decides is left
/// unsaid: it takes the floor corners between two walls and the grooves along
/// a wall between two corners. With the floor enclosed, its walks along the
/// walls stay on the grid.
#[verifier::external_body]
pub(crate) fn static_deadlocks(
    size: Vector2,
    walls: &Vec<Vector2>,
    floors: &Vec<Vector2>,
    goals: &Vec<Vector2>,
) -> (r: Vec<Vector2>)
    requires
        0 <= size.x,
        0 <= size.y,
        size.x * size.y <= i32::MAX,
        forall|i: int| 0 <= i < walls@.len() ==> in_bounds_spec(size, #[trigger] walls@[i]),
        forall|i: int| 0 <= i < floors@.len() ==> in_bounds_spec(size, #[trigger] floors@[i]),
        forall|i: int| 0 <= i < goals@.len() ==> in_bounds_spec(size, #[trigger] goals@[i]),
        floor_enclosed(size, walls@.to_set(), floors@.to_set()),
    ensures
        r@.to_set() == static_dead_cells(size, walls@.to_set(), floors@.to_set(), goals@.to_set()),
        forall|i: int| 0 <= i < r@.len() ==> floors@.contains(#[trigger] r@[i]) && !goals@.contains(r@[i]),
{
    let mut map = soukoban::map::Map::with_dimensions(soukoban::Vector2::new(size.x, size.y));
    for p in walls.iter() {
        map[soukoban::Vector2::new(p.x, p.y)] = soukoban::tiles::Tiles::Wall;
    }
    for p in floors.iter() {
        map[soukoban::Vector2::new(p.x, p.y)].insert(soukoban::tiles::Tiles::Floor);
    }
    for p in goals.iter() {
        map[soukoban::Vector2::new(p.x, p.y)].insert(soukoban::tiles::Tiles::Goal);
    }
    let dead = soukoban::deadlock::compute_static_deadlocks(&map);
    dead.into_iter().map(|p| Vector2::new(p.x, p.y)).collect()
}

} // verus!
