use vstd::prelude::*;
use crate::vector::Vector2;
use crate::level::{Level, LevelView};
use crate::reach::adjacent;
use crate::replay::wall_at;
use crate::positions::contains_position;
use crate::tile::{Tile, WALL};

verus! {

/// Whether the player may stand on `p`: on the grid, not a wall, no crate.
pub open spec fn player_open(v: LevelView, boxes: Set<Vector2>, p: Vector2) -> bool {
    !wall_at(v, p) && !boxes.contains(p)
}

/// Whether `path` leads from `from` to `to` by steps between adjacent cells,
/// every cell after the first being open to the player.
pub open spec fn path_ok(
    v: LevelView,
    boxes: Set<Vector2>,
    from: Vector2,
    to: Vector2,
    path: Seq<Vector2>,
) -> bool {
    &&& path.len() >= 1
    &&& path[0] == from
    &&& path.last() == to
    &&& forall|k: int|
        1 <= k < path.len() ==> adjacent(path[k - 1], #[trigger] path[k]) && player_open(
            v,
            boxes,
            path[k],
        )
}

/// Whether `p` stops the player: off the grid, a wall, or a crate of `boxes`.
pub fn player_blocked(map: &Level, boxes: &Vec<Vector2>, p: &Vector2) -> (r: bool)
    requires
        map.grid_wf(),
    ensures
        r == !player_open(map@, boxes@.to_set(), *p),
{
    match map.at(p) {
        None => true,
        Some(tile) => tile.intersects(Tile(WALL)) || contains_position(boxes, p),
    }
}

/// Calls `soukoban::path_finding::find_path`, which its documentation
/// describes as an A* search for the shortest path from `from` to `to`; here
/// through the cells that `player_blocked` leaves open. Claimed of it: a path
/// it returns starts at `from`, ends at `to`, steps between adjacent cells,
/// enters open cells only and is no longer than any other such path; it
/// returns `None` only where no such path exists. Not claimed: which of two
/// shortest paths it returns. Both ends lie on the grid: the search starts by
/// measuring the Manhattan distance between them in `i32`.
#[verifier::external_body]
pub(crate) fn find_path(map: &Level, boxes: &Vec<Vector2>, from: Vector2, to: Vector2) -> (r:
    Option<Vec<Vector2>>)
    requires
        map.grid_wf(),
        map.in_bounds_spec(from),
        map.in_bounds_spec(to),
    ensures
        r matches Some(path) ==> path_ok(map@, boxes@.to_set(), from, to, path@),
        r matches Some(path) ==> forall|q: Seq<Vector2>|
            path_ok(map@, boxes@.to_set(), from, to, q) ==> path@.len() <= q.len(),
        r is None ==> forall|q: Seq<Vector2>| !path_ok(map@, boxes@.to_set(), from, to, q),
{
    soukoban::path_finding::find_path(
        soukoban::Vector2::new(from.x, from.y),
        soukoban::Vector2::new(to.x, to.y),
        |p: soukoban::Vector2<i32>| !player_blocked(map, boxes, &Vector2::new(p.x, p.y)),
    ).map(|path| path.iter().map(|p| Vector2::new(p.x, p.y)).collect())
}

} // verus!
