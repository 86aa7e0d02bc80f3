use vstd::prelude::*;
use crate::vector::{Vector2, manhattan_spec, manhattan_distance};
use crate::direction::{Direction, step, step_back, step_exec, step_back_exec, all_directions};
use crate::movement::{Movement, Movements, count_pushes};
use crate::tile::{Tile, has_flag, WALL, FLOOR, TARGET};
use crate::level::{Level, LevelView, in_bounds_spec, index_of, lemma_index_bounds, lemma_index_injective};
use crate::replay::{wall_at, replay, crates_on_targets, same_ground};
use crate::deadlock::interior;
use crate::board::{action_of, apply};
use crate::level::{view_wf, vtile};
use crate::reach::adjacent;
use crate::vector::vsub;
use crate::direction::dir_of_vec;
use crate::replay::{lemma_apply_keeps_ground, lemma_replay_push};
use crate::deadlock::{is_freeze_deadlock, freeze_deadlock};
use crate::reach::reachable;
use crate::level::open_fn;
use crate::hashing::{tiles_sip_hash, hash_tiles};
use crate::tile::{CRATE, PLAYER};
use crate::clock::{now, elapsed, as_nanos};
use crate::positions::contains_position;
use crate::path::{player_open, player_blocked, path_ok, find_path};
use std::collections::HashSet;
use std::time::Duration;
use crate::pushable::{
    box_pushable_paths_with_positions, PushState, push_reachable, reached_in, listed, push_chain, fewest_states,
};
use crate::moves::{fewest_moves, movable_to_target, fewest_moves_from};
use crate::optimal::{optimal_search, cost_of, lex_le};

verus! {

/// How the search orders the states it has still to look at.
#[derive(Clone, Copy, PartialEq, Eq, Debug, Structural)]
pub enum Strategy {
    /// Speed first.
    Fast,
    /// Speed and length of the solution balanced.
    Mixed,
    /// Fewest moves, then fewest pushes.
    OptimalMovePush,
    /// Fewest pushes, then fewest moves.
    OptimalPushMove,
}

impl Default for Strategy {
    fn default() -> (r: Self)
        ensures
            r == Strategy::Fast,
    {
        Strategy::Fast
    }
}

/// How the search estimates what is left to do from the position of a crate.
#[derive(Clone, Copy, PartialEq, Eq, Debug, Structural)]
pub enum LowerBoundMethod {
    /// Fewest pushes to the nearest target.
    MinimumPush,
    /// Fewest moves of the player, pushes included, that bring the crate to a target.
    MinimumMove,
    /// Manhattan distance to the nearest target.
    ManhattanDistance,
}

impl Default for LowerBoundMethod {
    fn default() -> (r: Self)
        ensures
            r == LowerBoundMethod::MinimumMove,
    {
        LowerBoundMethod::MinimumMove
    }
}

/// Why the search gave no solution.
#[derive(Clone, Copy, PartialEq, Eq, Debug, Structural)]
pub enum SolveError {
    Timeout,
    NoSolution,
}

/// `x`, or `usize::MAX` where `x` is larger.
pub open spec fn sat(x: int) -> int {
    if x > usize::MAX {
        usize::MAX as int
    } else {
        x
    }
}

/// The priority of a state (smaller first): its lower bound and its counts
/// of moves and pushes combined as the strategy says, each operation
/// saturating at `usize::MAX`.
pub open spec fn heuristic_of(strategy: Strategy, lower_bound: int, moves: int, pushes: int) -> int {
    match strategy {
        Strategy::Fast => sat(sat(lower_bound * 10_000) + moves),
        Strategy::Mixed => sat(lower_bound + moves),
        Strategy::OptimalMovePush => sat(
            sat(sat(moves * 100_000_000) + sat(pushes * 10_000)) + lower_bound,
        ),
        Strategy::OptimalPushMove => sat(
            sat(sat(pushes * 100_000_000) + sat(moves * 10_000)) + lower_bound,
        ),
    }
}

/// The entry of a per-cell table for `p`; `None` off the grid.
pub open spec fn entry_at(table: Seq<Option<usize>>, size: Vector2, p: Vector2) -> Option<usize> {
    if in_bounds_spec(size, p) {
        table[index_of(size, p)]
    } else {
        None
    }
}

/// The sum of the lower bounds of the crates at `boxes`, saturating at
/// `usize::MAX`; `None` where a crate has none.
pub open spec fn bound_sum(table: Seq<Option<usize>>, size: Vector2, boxes: Seq<Vector2>) -> Option<
    int,
>
    decreases boxes.len(),
{
    if boxes.len() == 0 {
        Some(0)
    } else {
        match (bound_sum(table, size, boxes.drop_last()), entry_at(table, size, boxes.last())) {
            (Some(s), Some(b)) => Some(sat(s + b)),
            _ => None,
        }
    }
}

/// The lower bound of a state: the sum of its crates' bounds, or 9999 where
/// a crate stands where no bound is known.
pub open spec fn state_bound(table: Seq<Option<usize>>, size: Vector2, boxes: Seq<Vector2>) -> int {
    match bound_sum(table, size, boxes) {
        Some(s) => s,
        None => 9999,
    }
}

/// The smallest Manhattan distance from `p` to one of `targets`.
pub open spec fn nearest_distance(targets: Seq<Vector2>, p: Vector2) -> int
    decreases targets.len(),
{
    if targets.len() == 0 {
        0
    } else if targets.len() == 1 {
        manhattan_spec(targets[0], p)
    } else {
        let rest = nearest_distance(targets.drop_last(), p);
        let d = manhattan_spec(targets.last(), p);
        if d < rest {
            d
        } else {
            rest
        }
    }
}

/// The Manhattan lower bound of a cell: 0 on a target, the distance to the
/// nearest target on any other floor cell inside the outer ring, none elsewhere.
pub open spec fn manhattan_bound(map: LevelView, targets: Seq<Vector2>, p: Vector2) -> Option<
    usize,
> {
    if !interior(map.size, p) {
        None
    } else if has_flag(map.tiles[index_of(map.size, p)], TARGET) {
        Some(0)
    } else if !has_flag(map.tiles[index_of(map.size, p)], FLOOR) {
        None
    } else {
        Some(nearest_distance(targets, p) as usize)
    }
}

/// Two cells of a grid lie less than `w + h` apart, which fits `i32`.
proof fn lemma_distance_fits(size: Vector2, a: Vector2, b: Vector2)
    requires
        in_bounds_spec(size, a),
        in_bounds_spec(size, b),
        size.x * size.y <= i32::MAX,
    ensures
        0 <= manhattan_spec(a, b) <= i32::MAX,
{
    let (w, h) = (size.x as int, size.y as int);
    assert(w + h <= w * h + 1) by (nonlinear_arith)
        requires
            w >= 1,
            h >= 1,
    ;
}

/// The distance from `p` to the nearest of `targets`.
fn nearest_target_distance(map: &Level, p: &Vector2) -> (r: usize)
    requires
        map.wf(),
        map.in_bounds_spec(*p),
    ensures
        r == nearest_distance(map.target_positions@, *p),
{
    let targets = &map.target_positions;
    let mut best: usize = 0;
    let mut i: usize = 0;
    while i < targets.len()
        invariant
            map.wf(),
            map.in_bounds_spec(*p),
            targets == &map.target_positions,
            i <= targets@.len(),
            best == nearest_distance(targets@.take(i as int), *p),
            0 <= nearest_distance(targets@.take(i as int), *p) <= i32::MAX,
        decreases targets@.len() - i,
    {
        let t = targets[i];
        assert(map.in_bounds_spec(targets@[i as int]));
        proof {
            lemma_distance_fits(map.size, t, *p);
        }
        let d = manhattan_distance(&t, p) as usize;
        assert(targets@.take(i + 1).drop_last() == targets@.take(i as int));
        if i == 0 || d < best {
            best = d;
        }
        i = i + 1;
    }
    assert(targets@.take(i as int) == targets@);
    best
}

/// The Manhattan lower bound of every cell, in row-major order.
fn manhattan_distance_lower_bounds(map: &Level) -> (r: Vec<Option<usize>>)
    requires
        map.wf(),
    ensures
        r@.len() == map.data@.len(),
        forall|p: Vector2|
            #[trigger] in_bounds_spec(map.size, p) ==> r@[index_of(map.size, p)]
                == manhattan_bound(map@, map.target_positions@, p),
{
    let w = map.size.x;
    let h = map.size.y;
    let mut table: Vec<Option<usize>> = Vec::new();
    let mut y: i32 = 0;
    while y < h
        invariant
            map.wf(),
            w == map.size.x,
            h == map.size.y,
            0 <= y <= h,
            table@.len() == y * w,
            forall|p: Vector2|
                #[trigger] in_bounds_spec(map.size, p) && index_of(map.size, p) < table@.len()
                    ==> table@[index_of(map.size, p)] == manhattan_bound(
                    map@,
                    map.target_positions@,
                    p,
                ),
        decreases h - y,
    {
        let mut x: i32 = 0;
        while x < w
            invariant
                map.wf(),
                w == map.size.x,
                h == map.size.y,
                0 <= y < h,
                0 <= x <= w,
                table@.len() == y * w + x,
                forall|p: Vector2|
                    #[trigger] in_bounds_spec(map.size, p) && index_of(map.size, p) < table@.len()
                        ==> table@[index_of(map.size, p)] == manhattan_bound(
                        map@,
                        map.target_positions@,
                        p,
                    ),
            decreases w - x,
        {
            let p = Vector2::new(x, y);
            let value = if 1 <= x && x < w - 1 && 1 <= y && y < h - 1 {
                let tile = map.at_unchecked(&p);
                if tile.intersects(Tile(TARGET)) {
                    Some(0)
                } else if !tile.intersects(Tile(FLOOR)) {
                    None
                } else {
                    Some(nearest_target_distance(map, &p))
                }
            } else {
                None
            };
            proof {
                assert(index_of(map.size, p) == table@.len());
                assert forall|q: Vector2|
                    #[trigger] in_bounds_spec(map.size, q) && index_of(map.size, q) < table@.len()
                        + 1 implies table@.push(value)[index_of(map.size, q)] == manhattan_bound(
                    map@,
                    map.target_positions@,
                    q,
                ) by {
                    if index_of(map.size, q) == table@.len() {
                        lemma_index_injective(map.size, q, p);
                    }
                }
            }
            table.push(value);
            x = x + 1;
        }
        assert(table@.len() == (y + 1) * w) by (nonlinear_arith)
            requires
                table@.len() == y * w + w,
        ;
        y = y + 1;
    }
    proof {
        assert(table@.len() == w * h) by (nonlinear_arith)
            requires
                table@.len() == h * w,
        ;
        assert forall|p: Vector2| #[trigger] in_bounds_spec(map.size, p) implies index_of(
            map.size,
            p,
        ) < table@.len() by {
            lemma_index_bounds(map.size, p);
        }
    }
    table
}

/// The direction a quarter turn clockwise from `d`.
pub open spec fn clockwise(d: Direction) -> Direction {
    match d {
        Direction::Up => Direction::Right,
        Direction::Right => Direction::Down,
        Direction::Down => Direction::Left,
        Direction::Left => Direction::Up,
    }
}

/// The direction a quarter turn counterclockwise from `d`.
pub open spec fn counterclockwise(d: Direction) -> Direction {
    match d {
        Direction::Up => Direction::Left,
        Direction::Left => Direction::Down,
        Direction::Down => Direction::Right,
        Direction::Right => Direction::Up,
    }
}

/// Whether `p` is on the grid and holds flag `f`.
pub open spec fn flag_at(v: LevelView, p: Vector2, f: u8) -> bool {
    in_bounds_spec(v.size, p) && has_flag(v.tiles[index_of(v.size, p)], f)
}

/// Whether a crate pushed from `q` in direction `up` enters a tunnel: the
/// crate lands on a floor cell inside the outer ring that is no target, with
/// walls on both sides of `q`, a wall on at least one side of the landing cell
/// and floor or wall on the other, and a known lower bound one step further.
pub open spec fn tunnel_at(v: LevelView, bounds: Seq<Option<usize>>, q: Vector2, up: Direction) -> bool {
    let p = step(q, up);
    let left = counterclockwise(up);
    let right = clockwise(up);
    &&& interior(v.size, p)
    &&& wall_at(v, step(q, left))
    &&& wall_at(v, step(q, right))
    &&& {
        ||| wall_at(v, step(p, left)) && wall_at(v, step(p, right))
        ||| wall_at(v, step(p, right)) && flag_at(v, step(p, left), FLOOR)
        ||| flag_at(v, step(p, right), FLOOR) && wall_at(v, step(p, left))
    }
    &&& flag_at(v, p, FLOOR)
    &&& entry_at(bounds, v.size, step(p, up)) is Some
    &&& !flag_at(v, p, TARGET)
}

/// Whether `p` is off the grid or a wall.
fn is_wall(map: &Level, p: &Vector2) -> (r: bool)
    requires
        map.grid_wf(),
    ensures
        r == wall_at(map@, *p),
{
    match map.at(p) {
        None => true,
        Some(tile) => tile.intersects(Tile(WALL)),
    }
}

/// Whether `p` is on the grid and holds flag `f`.
pub(crate) fn has_flag_at(map: &Level, p: &Vector2, f: u8) -> (r: bool)
    requires
        map.grid_wf(),
    ensures
        r == flag_at(map@, *p, f),
{
    match map.at(p) {
        None => false,
        Some(tile) => tile.intersects(Tile(f)),
    }
}

/// The entry of a per-cell table for `p`; `None` off the grid.
fn table_entry(map: &Level, table: &Vec<Option<usize>>, p: &Vector2) -> (r: Option<usize>)
    requires
        map.grid_wf(),
        table@.len() == map.data@.len(),
    ensures
        r == entry_at(table@, map.size, *p),
{
    if map.in_bounds(p) {
        proof {
            lemma_index_bounds(map.size, *p);
        }
        table[(p.y * map.size.x + p.x) as usize]
    } else {
        None
    }
}

/// The direction a quarter turn clockwise from `d`.
fn turn_clockwise(d: Direction) -> (r: Direction)
    ensures
        r == clockwise(d),
{
    match d {
        Direction::Up => Direction::Right,
        Direction::Right => Direction::Down,
        Direction::Down => Direction::Left,
        Direction::Left => Direction::Up,
    }
}

/// The direction a quarter turn counterclockwise from `d`.
fn turn_counterclockwise(d: Direction) -> (r: Direction)
    ensures
        r == counterclockwise(d),
{
    match d {
        Direction::Up => Direction::Left,
        Direction::Left => Direction::Down,
        Direction::Down => Direction::Right,
        Direction::Right => Direction::Up,
    }
}

/// Whether a crate pushed from the in-bounds cell `q` in direction `up`
/// enters a tunnel.
fn tunnel_here(map: &Level, bounds: &Vec<Option<usize>>, q: &Vector2, up: Direction) -> (r: bool)
    requires
        map.grid_wf(),
        bounds@.len() == map.data@.len(),
        map.in_bounds_spec(*q),
    ensures
        r == tunnel_at(map@, bounds@, *q, up),
{
    let p = step_exec(q, up);
    if !(1 <= p.x && p.x < map.size.x - 1 && 1 <= p.y && p.y < map.size.y - 1) {
        return false;
    }
    let left = turn_counterclockwise(up);
    let right = turn_clockwise(up);
    let side_walls = is_wall(map, &step_exec(q, left)) && is_wall(map, &step_exec(q, right));
    let pl = step_exec(&p, left);
    let pr = step_exec(&p, right);
    let mouth = (is_wall(map, &pl) && is_wall(map, &pr)) || (is_wall(map, &pr) && has_flag_at(
        map,
        &pl,
        FLOOR,
    )) || (has_flag_at(map, &pr, FLOOR) && is_wall(map, &pl));
    side_walls && mouth && has_flag_at(map, &p, FLOOR) && table_entry(
        map,
        bounds,
        &step_exec(&p, up),
    ).is_some() && !has_flag_at(map, &p, TARGET)
}

/// For every cell and every direction, whether a crate pushed from that cell
/// in that direction enters a tunnel; the directions in the order up, down,
/// left, right.
fn calculate_tunnels(map: &Level, bounds: &Vec<Option<usize>>) -> (r: Vec<[bool; 4]>)
    requires
        map.grid_wf(),
        bounds@.len() == map.data@.len(),
    ensures
        r@.len() == map.data@.len(),
        forall|p: Vector2, k: int|
            #![trigger r@[index_of(map.size, p)][k]]
            in_bounds_spec(map.size, p) && 0 <= k < 4 ==> r@[index_of(map.size, p)][k]
                == tunnel_at(map@, bounds@, p, all_directions()[k]),
{
    let w = map.size.x;
    let h = map.size.y;
    let mut table: Vec<[bool; 4]> = Vec::new();
    let mut y: i32 = 0;
    while y < h
        invariant
            map.grid_wf(),
            bounds@.len() == map.data@.len(),
            w == map.size.x,
            h == map.size.y,
            0 <= y <= h,
            table@.len() == y * w,
            forall|p: Vector2, k: int|
                #![trigger table@[index_of(map.size, p)][k]]
                in_bounds_spec(map.size, p) && index_of(map.size, p) < table@.len() && 0 <= k < 4
                    ==> table@[index_of(map.size, p)][k] == tunnel_at(
                    map@,
                    bounds@,
                    p,
                    all_directions()[k],
                ),
        decreases h - y,
    {
        let mut x: i32 = 0;
        while x < w
            invariant
                map.grid_wf(),
                bounds@.len() == map.data@.len(),
                w == map.size.x,
                h == map.size.y,
                0 <= y < h,
                0 <= x <= w,
                table@.len() == y * w + x,
                forall|p: Vector2, k: int|
                    #![trigger table@[index_of(map.size, p)][k]]
                    in_bounds_spec(map.size, p) && index_of(map.size, p) < table@.len() && 0 <= k
                        < 4 ==> table@[index_of(map.size, p)][k] == tunnel_at(
                        map@,
                        bounds@,
                        p,
                        all_directions()[k],
                    ),
            decreases w - x,
        {
            let q = Vector2::new(x, y);
            let entry = [
                tunnel_here(map, bounds, &q, Direction::Up),
                tunnel_here(map, bounds, &q, Direction::Down),
                tunnel_here(map, bounds, &q, Direction::Left),
                tunnel_here(map, bounds, &q, Direction::Right),
            ];
            proof {
                assert(index_of(map.size, q) == table@.len());
                assert forall|p: Vector2, k: int|
                    #![trigger table@.push(entry)[index_of(map.size, p)][k]]
                    in_bounds_spec(map.size, p) && index_of(map.size, p) < table@.len() + 1 && 0
                        <= k < 4 implies table@.push(entry)[index_of(map.size, p)][k]
                        == tunnel_at(map@, bounds@, p, all_directions()[k]) by {
                    if index_of(map.size, p) == table@.len() {
                        lemma_index_injective(map.size, p, q);
                    }
                }
            }
            table.push(entry);
            x = x + 1;
        }
        assert(table@.len() == (y + 1) * w) by (nonlinear_arith)
            requires
                table@.len() == y * w + w,
        ;
        y = y + 1;
    }
    proof {
        assert(table@.len() == w * h) by (nonlinear_arith)
            requires
                table@.len() == h * w,
        ;
        assert forall|p: Vector2| #[trigger] in_bounds_spec(map.size, p) implies index_of(
            map.size,
            p,
        ) < table@.len() by {
            lemma_index_bounds(map.size, p);
        }
    }
    table
}

/// Every `u64` set is finite and has at most 2^64 elements.
proof fn lemma_u64_set_len(s: Set<u64>)
    ensures
        s.finite(),
        s.len() <= 0x1_0000_0000_0000_0000,
{
    let n: int = 0x1_0000_0000_0000_0000;
    let range = vstd::set_lib::set_int_range(0, n);
    vstd::set_lib::lemma_int_range(0, n);
    let f = |i: int| i as u64;
    let full = range.map(f);
    vstd::set_lib::lemma_map_size_bound(range, full, f);
    assert forall|x: u64| s.contains(x) implies full.contains(x) by {
        assert(range.contains(x as int));
        assert(f(x as int) == x);
    }
    vstd::set_lib::lemma_len_subset(s, full);
}

/// Grounds that agree with a third agree with each other.
proof fn lemma_same_ground_trans(u: LevelView, v: LevelView, w: LevelView)
    requires
        same_ground(u, v),
        same_ground(v, w),
    ensures
        same_ground(u, w),
{
    assert forall|p: Vector2| #[trigger] wall_at(w, p) == wall_at(u, p) by {
        assert(wall_at(w, p) == wall_at(v, p));
        assert(wall_at(v, p) == wall_at(u, p));
    }
}

/// A step onto a free cell is a move.
proof fn lemma_move_step(v0: LevelView, w: LevelView, d: Direction)
    requires
        view_wf(w),
        same_ground(v0, w),
        !wall_at(v0, step(w.player, d)),
        !w.crates.contains(step(w.player, d)),
    ensures
        action_of(w, d) == Some(Movement::Move(d)),
        apply(w, d).player == step(w.player, d),
        apply(w, d).crates == w.crates,
        view_wf(apply(w, d)),
        same_ground(v0, apply(w, d)),
{
    assert(wall_at(w, step(w.player, d)) == wall_at(v0, step(w.player, d)));
    lemma_apply_keeps_ground(w, d);
    lemma_same_ground_trans(v0, w, apply(w, d));
}

/// A step onto a crate whose far side is free is a push.
pub(crate) proof fn lemma_push_step(v0: LevelView, w: LevelView, d: Direction)
    requires
        view_wf(w),
        same_ground(v0, w),
        w.crates.contains(step(w.player, d)),
        !wall_at(v0, step(step(w.player, d), d)),
        !w.crates.contains(step(step(w.player, d), d)),
    ensures
        action_of(w, d) == Some(Movement::Push(d)),
        apply(w, d).player == step(w.player, d),
        apply(w, d).crates == w.crates.remove(step(w.player, d)).insert(
            step(step(w.player, d), d),
        ),
        view_wf(apply(w, d)),
        same_ground(v0, apply(w, d)),
{
    let b = step(w.player, d);
    let nb = step(b, d);
    assert(wall_at(w, nb) == wall_at(v0, nb));
    assert(in_bounds_spec(w.size, b));
    assert(wall_at(w, b) == wall_at(v0, b));
    assert(has_flag(crate::level::vtile(w, b), crate::tile::CRATE));
    assert(has_flag(crate::level::vtile(w, nb), crate::tile::CRATE) == w.crates.contains(nb));
    lemma_apply_keeps_ground(w, d);
    lemma_same_ground_trans(v0, w, apply(w, d));
}

/// Two adjacent cells of a grid are one step apart, in the direction of
/// their difference.
proof fn lemma_adjacent_direction(size: Vector2, p: Vector2, q: Vector2)
    requires
        adjacent(p, q),
        in_bounds_spec(size, p),
        in_bounds_spec(size, q),
    ensures
        dir_of_vec(vsub(q, p)) is Some,
        step(p, dir_of_vec(vsub(q, p)).unwrap()) == q,
{
}

/// Replacing an element of a list without duplicates by a new value keeps it
/// without duplicates and swaps the two values in its set.
proof fn lemma_replace_distinct(s: Seq<Vector2>, i: int, x: Vector2)
    requires
        s.no_duplicates(),
        0 <= i < s.len(),
        !s.contains(x),
    ensures
        s.update(i, x).no_duplicates(),
        s.update(i, x).to_set() == s.to_set().remove(s[i]).insert(x),
{
    let t = s.update(i, x);
    assert forall|a: int, b: int| 0 <= a < t.len() && 0 <= b < t.len() && a != b implies t[a]
        != t[b] by {
        if a == i {
            assert(s.contains(s[b]));
        } else if b == i {
            assert(s.contains(s[a]));
        }
    }
    assert forall|y: Vector2| t.to_set().contains(y) == s.to_set().remove(s[i]).insert(x).contains(
        y,
    ) by {
        if t.contains(y) {
            let j = choose|j: int| 0 <= j < t.len() && t[j] == y;
            if j != i {
                assert(s[j] == y);
                assert(s.contains(y));
            }
        }
        if y != x && s.contains(y) && y != s[i] {
            let j = choose|j: int| 0 <= j < s.len() && s[j] == y;
            assert(t[j] == y);
            assert(t.contains(y));
        }
        if y == x {
            assert(t[i] == x);
            assert(t.contains(y));
        }
    }
    assert(t.to_set() =~= s.to_set().remove(s[i]).insert(x));
}

/// `a * b`, or `usize::MAX` where it does not fit.
fn saturating_mul(a: usize, b: usize) -> (r: usize)
    ensures
        r == sat(a * b),
{
    match a.checked_mul(b) {
        Some(v) => v,
        None => usize::MAX,
    }
}

/// The priority of a state under `strategy`.
fn heuristic_value(strategy: Strategy, lower_bound: usize, moves: usize, pushes: usize) -> (r: usize)
    ensures
        r == heuristic_of(strategy, lower_bound as int, moves as int, pushes as int),
{
    match strategy {
        Strategy::Fast => saturating_mul(lower_bound, 10_000).saturating_add(moves),
        Strategy::Mixed => lower_bound.saturating_add(moves),
        Strategy::OptimalMovePush => saturating_mul(moves, 100_000_000).saturating_add(
            saturating_mul(pushes, 10_000),
        ).saturating_add(lower_bound),
        Strategy::OptimalPushMove => saturating_mul(pushes, 100_000_000).saturating_add(
            saturating_mul(moves, 10_000),
        ).saturating_add(lower_bound),
    }
}

/// Once a crate has no bound, no longer list of crates has a sum.
proof fn lemma_bound_sum_stays_none(table: Seq<Option<usize>>, size: Vector2, boxes: Seq<Vector2>, i: int, j: int)
    requires
        0 <= i <= j <= boxes.len(),
        bound_sum(table, size, boxes.take(i)) is None,
    ensures
        bound_sum(table, size, boxes.take(j)) is None,
    decreases j - i,
{
    if j > i {
        lemma_bound_sum_stays_none(table, size, boxes, i, j - 1);
        assert(boxes.take(j).drop_last() == boxes.take(j - 1));
    }
}

/// A sum of zero means that every crate's bound is zero.
proof fn lemma_bound_sum_zero(table: Seq<Option<usize>>, size: Vector2, boxes: Seq<Vector2>)
    requires
        bound_sum(table, size, boxes) == Some(0int),
    ensures
        forall|k: int| 0 <= k < boxes.len() ==> entry_at(table, size, #[trigger] boxes[k]) == Some(
            0usize,
        ),
    decreases boxes.len(),
{
    if boxes.len() > 0 {
        let s = bound_sum(table, size, boxes.drop_last()).unwrap();
        let b = entry_at(table, size, boxes.last()).unwrap();
        assert(s >= 0) by {
            lemma_bound_sum_nonneg(table, size, boxes.drop_last());
        }
        lemma_bound_sum_zero(table, size, boxes.drop_last());
        assert forall|k: int| 0 <= k < boxes.len() implies entry_at(
            table,
            size,
            #[trigger] boxes[k],
        ) == Some(0usize) by {
            if k < boxes.len() - 1 {
                assert(boxes.drop_last()[k] == boxes[k]);
            }
        }
    }
}

/// A sum of bounds is never negative.
proof fn lemma_bound_sum_nonneg(table: Seq<Option<usize>>, size: Vector2, boxes: Seq<Vector2>)
    ensures
        bound_sum(table, size, boxes) matches Some(s) ==> 0 <= s <= usize::MAX,
    decreases boxes.len(),
{
    if boxes.len() > 0 {
        lemma_bound_sum_nonneg(table, size, boxes.drop_last());
    }
}

/// Whether the movements `ms`, made from the level `v` by the rules of the
/// board, can all be made and leave every crate on a target.
pub open spec fn solves(v: LevelView, ms: Seq<Movement>) -> bool {
    replay(v, ms) matches Some(w) && crates_on_targets(w)
}

/// Whether a table of lower bounds gives zero only on targets.
pub open spec fn zero_only_on_targets(v: LevelView, table: Seq<Option<usize>>) -> bool {
    forall|p: Vector2|
        #[trigger] entry_at(table, v.size, p) == Some(0usize) ==> flag_at(v, p, TARGET)
}

/// A best-first search for a solution of a level, over the positions of the
/// player and the crates.
pub struct Solver {
    pub map: Level,
    strategy: Strategy,
    lower_bound_method: LowerBoundMethod,
    lower_bounds: Vec<Option<usize>>,
    tunnels: Vec<[bool; 4]>,
    walls: Vec<Vector2>,
    visited: HashSet<u64>,
    heap: Vec<State>,
}

/// A position of the search: where the player and the crates stand, and the
/// movements that lead there from the start.
pub struct State {
    pub player_position: Vector2,
    pub box_positions: Vec<Vector2>,
    pub actions: Movements,
    pub heuristic: usize,
    pub lower_bound: usize,
}

impl State {
    /// The lower bound of the state: what its crates still need at least.
    pub closed spec fn bound(&self) -> int {
        self.lower_bound as int
    }

    /// The priority of the state in the search, smaller first.
    pub closed spec fn priority(&self) -> int {
        self.heuristic as int
    }
}

impl Solver {
    /// The lower bound of every cell, in row-major order.
    pub closed spec fn bounds(&self) -> Seq<Option<usize>> {
        self.lower_bounds@
    }

    /// The level being solved, with the player and the crates at the start.
    pub closed spec fn start(&self) -> LevelView {
        self.map@
    }

    /// The strategy that orders the search.
    pub closed spec fn chosen_strategy(&self) -> Strategy {
        self.strategy
    }

    /// The method that gives the lower bounds.
    pub closed spec fn chosen_method(&self) -> LowerBoundMethod {
        self.lower_bound_method
    }

    /// The states still to look at.
    pub closed spec fn frontier(&self) -> Seq<State> {
        self.heap@
    }

    /// The hashes of the states the search has taken in.
    pub closed spec fn seen(&self) -> Set<u64> {
        self.visited@
    }

    /// For every cell, in row-major order, and every direction in the order
    /// up, down, left, right: whether a push from that cell enters a tunnel.
    pub closed spec fn tunnel_table(&self) -> Seq<[bool; 4]> {
        self.tunnels@
    }

    /// The wall cells that the freeze test is given.
    pub closed spec fn wall_list(&self) -> Seq<Vector2> {
        self.walls@
    }

    /// The tables of the solver fit its level.
    pub closed spec fn tables_ok(&self) -> bool {
        &&& self.map.wf()
        &&& self.lower_bounds@.len() == self.map.data@.len()
        &&& zero_only_on_targets(self.map@, self.lower_bounds@)
        &&& self.tunnels@.len() == self.map.data@.len()
        &&& forall|p: Vector2, k: int|
            #![trigger self.tunnels@[index_of(self.map.size, p)][k]]
            in_bounds_spec(self.map.size, p) && 0 <= k < 4
                ==> self.tunnels@[index_of(self.map.size, p)][k] == tunnel_at(
                self.map@,
                self.lower_bounds@,
                p,
                all_directions()[k],
            )
        &&& forall|i: int|
            0 <= i < self.walls@.len() ==> in_bounds_spec(self.map.size, #[trigger] self.walls@[i])
        &&& forall|p: Vector2| #[trigger] self.walls@.contains(p) <==> flag_at(self.map@, p, WALL)
        &&& self.lower_bound_method == LowerBoundMethod::ManhattanDistance ==> {
            &&& self.map.target_positions@.len() > 0
            &&& forall|p: Vector2|
                #[trigger] in_bounds_spec(self.map.size, p) ==> self.lower_bounds@[index_of(self.map.size, p)]
                    == manhattan_bound(self.map@, self.map.target_positions@, p)
        }
    }

    /// A state of this solver: its crates are distinct, its movements lead
    /// from the start of the level to it by the rules of the board, and its
    /// bound and priority are those of its crates and movements.
    pub closed spec fn state_ok(&self, s: State) -> bool {
        &&& s.box_positions@.no_duplicates()
        &&& replay(self.map@, s.actions@) matches Some(w) && w.player == s.player_position
            && w.crates == s.box_positions@.to_set() && view_wf(w) && same_ground(self.map@, w)
        &&& s.lower_bound == state_bound(self.lower_bounds@, self.map.size, s.box_positions@)
        &&& s.heuristic == heuristic_of(
            self.strategy,
            s.lower_bound as int,
            s.actions@.len() as int,
            count_pushes(s.actions@) as int,
        )
    }

    /// What a state of this solver is: its crates are distinct; its movements
    /// can be made one after the other from the start of the level by the rules
    /// of the board and leave the player and the crates where the state has
    /// them, on a well-formed level with the walls and targets of the start;
    /// its bound and priority are those of its crates and movements.
    pub proof fn lemma_state_ok(&self, s: State)
        requires
            self.state_ok(s),
        ensures
            s.box_positions@.no_duplicates(),
            replay(self.start(), s.actions@) matches Some(w) && w.player == s.player_position && w.crates
                == s.box_positions@.to_set() && view_wf(w) && same_ground(self.start(), w),
            s.bound() == state_bound(self.bounds(), self.start().size, s.box_positions@),
            s.priority() == heuristic_of(
                self.chosen_strategy(),
                s.bound(),
                s.actions@.len() as int,
                count_pushes(s.actions@) as int,
            ),
    {
    }

    /// The freeze-deadlock test of a well-formed solver is given exactly the
    /// wall cells of its level, so a crate is taken as frozen only against
    /// real walls.
    pub proof fn law_freeze_test_gets_the_walls(&self)
        requires
            self.wf(),
        ensures
            forall|p: Vector2| #[trigger] self.wall_list().contains(p) <==> (in_bounds_spec(
                self.start().size,
                p,
            ) && has_flag(vtile(self.start(), p), WALL)),
    {
        assert forall|p: Vector2| #[trigger] self.wall_list().contains(p) <==> (in_bounds_spec(
            self.start().size,
            p,
        ) && has_flag(vtile(self.start(), p), WALL)) by {
            assert(self.walls@.contains(p) <==> flag_at(self.map@, p, WALL));
        }
    }

    /// A crate pushed onto a target never enters a tunnel: no tunnel entry of a
    /// well-formed solver has a target on the cell the crate lands on.
    pub proof fn law_no_tunnel_onto_target(&self, q: Vector2, k: int)
        requires
            self.wf(),
            in_bounds_spec(self.start().size, q),
            0 <= k < 4,
            self.tunnel_table()[index_of(self.start().size, q)][k],
        ensures
            !(in_bounds_spec(self.start().size, step(q, all_directions()[k])) && has_flag(
                vtile(self.start(), step(q, all_directions()[k])),
                TARGET,
            )),
    {
        assert(self.tunnels@[index_of(self.map.size, q)][k] == tunnel_at(
            self.map@,
            self.lower_bounds@,
            q,
            all_directions()[k],
        ));
    }

    /// With the Manhattan method, the bound of a floor cell inside the outer
    /// ring that holds no target is the distance to the nearest target: at
    /// most the Manhattan distance to every target, and equal to that to one.
    pub proof fn law_manhattan_bound_is_nearest_target(&self, p: Vector2)
        requires
            self.wf(),
            self.chosen_method() == LowerBoundMethod::ManhattanDistance,
            interior(self.start().size, p),
            has_flag(vtile(self.start(), p), FLOOR),
            !has_flag(vtile(self.start(), p), TARGET),
        ensures
            self.bounds()[index_of(self.start().size, p)] matches Some(b) && (forall|t: Vector2|
                #[trigger] self.start().targets.contains(t) ==> b <= manhattan_spec(t, p)) && (exists|t: Vector2|
                #[trigger] self.start().targets.contains(t) && b == manhattan_spec(t, p)),
    {
        let targets = self.map.target_positions@;
        assert(in_bounds_spec(self.map.size, p));
        lemma_nearest_is_min(targets, p);
        lemma_nearest_bounded(&self.map, p);
        let d = nearest_distance(targets, p);
        assert(self.lower_bounds@[index_of(self.map.size, p)] == Some(d as usize));
        assert forall|t: Vector2| #[trigger] self.start().targets.contains(t) implies d <= manhattan_spec(t, p) by {
            let i = choose|i: int| 0 <= i < targets.len() && targets[i] == t;
            assert(d <= manhattan_spec(targets[i], p));
        }
        let i = choose|i: int| 0 <= i < targets.len() && d == manhattan_spec(#[trigger] targets[i], p);
        assert(self.start().targets.contains(targets[i]));
    }

    /// A well-formed solver has a well-formed level, and every state on its
    /// frontier is one of its states.
    pub proof fn lemma_wf(&self)
        requires
            self.wf(),
        ensures
            view_wf(self.start()),
            forall|i: int| 0 <= i < self.frontier().len() ==> self.state_ok(#[trigger] self.frontier()[i]),
    {
        self.map.lemma_wf_view();
    }

    /// A well-formed solver: its tables fit the level and every state it
    /// holds is one of its states.
    pub closed spec fn wf(&self) -> bool {
        &&& self.tables_ok()
        &&& forall|i: int| 0 <= i < self.heap@.len() ==> self.state_ok(#[trigger] self.heap@[i])
    }
}

/// The lower bound of a state whose crates stand at `boxes`.
fn bound_of_boxes(solver: &Solver, boxes: &Vec<Vector2>) -> (r: usize)
    requires
        solver.map.grid_wf(),
        solver.lower_bounds@.len() == solver.map.data@.len(),
    ensures
        r == state_bound(solver.lower_bounds@, solver.map.size, boxes@),
{
    let ghost table = solver.lower_bounds@;
    let ghost size = solver.map.size;
    let mut sum: usize = 0;
    let mut i: usize = 0;
    while i < boxes.len()
        invariant
            solver.map.grid_wf(),
            solver.lower_bounds@.len() == solver.map.data@.len(),
            table == solver.lower_bounds@,
            size == solver.map.size,
            i <= boxes@.len(),
            bound_sum(table, size, boxes@.take(i as int)) == Some(sum as int),
        decreases boxes@.len() - i,
    {
        assert(boxes@.take(i + 1).drop_last() == boxes@.take(i as int));
        match table_entry(&solver.map, &solver.lower_bounds, &boxes[i]) {
            None => {
                proof {
                    lemma_bound_sum_stays_none(table, size, boxes@, i + 1, boxes@.len() as int);
                    assert(boxes@.take(boxes@.len() as int) == boxes@);
                }
                return 9999;
            },
            Some(b) => {
                sum = sum.saturating_add(b);
            },
        }
        i = i + 1;
    }
    assert(boxes@.take(boxes@.len() as int) == boxes@);
    proof {
        lemma_bound_sum_nonneg(table, size, boxes@);
    }
    sum
}

impl State {
    /// Creates a state with its lower bound and its priority in the search.
    pub fn new(
        player_position: Vector2,
        box_positions: Vec<Vector2>,
        actions: Movements,
        solver: &Solver,
    ) -> (r: Self)
        requires
            solver.tables_ok(),
        ensures
            r.player_position == player_position,
            r.box_positions@ == box_positions@,
            r.actions@ == actions@,
            r.bound() == state_bound(solver.bounds(), solver.start().size, box_positions@),
            r.priority() == heuristic_of(
                solver.chosen_strategy(),
                r.bound(),
                actions@.len() as int,
                count_pushes(actions@) as int,
            ),
    {
        let lower_bound = bound_of_boxes(solver, &box_positions);
        let moves = actions.move_count();
        let pushes = actions.push_count();
        let heuristic = heuristic_value(solver.strategy, lower_bound, moves, pushes);
        State { player_position, box_positions, actions, heuristic, lower_bound }
    }

    /// Whether every crate stands where its lower bound is zero, which is on a
    /// target: the movements of a state of the solver that is solved solve the
    /// level.
    pub fn is_solved(&self, solver: &Solver) -> (r: bool)
        ensures
            r == (self.bound() == 0),
            r && solver.tables_ok() && solver.state_ok(*self) ==> solves(
                solver.start(),
                self.actions@,
            ),
    {
        let r = self.lower_bound == 0;
        proof {
            if r && solver.tables_ok() && solver.state_ok(*self) {
                let table = solver.lower_bounds@;
                let size = solver.map.size;
                let boxes = self.box_positions@;
                assert(bound_sum(table, size, boxes) == Some(0int));
                lemma_bound_sum_zero(table, size, boxes);
                let w = replay(solver.map@, self.actions@).unwrap();
                assert forall|p: Vector2| w.crates.contains(p) implies w.targets.contains(p) by {
                    assert(boxes.to_set().contains(p));
                    let k = choose|k: int| 0 <= k < boxes.len() && boxes[k] == p;
                    assert(entry_at(table, size, boxes[k]) == Some(0usize));
                    assert(flag_at(solver.map@, p, TARGET));
                    assert(solver.map.tile(p) == solver.map@.tiles[index_of(size, p)]);
                    assert(solver.map.target_positions@.contains(p));
                }
            }
        }
        r
    }

    /// The priority of the state in the search, smaller first.
    pub fn heuristic(&self) -> (r: usize)
        ensures
            r == self.priority(),
    {
        self.heuristic
    }
}

/// How far `p` lies from the edge of the grid in direction `d`.
pub open spec fn edge_gap(size: Vector2, p: Vector2, d: Direction) -> int {
    match d {
        Direction::Up => p.y as int,
        Direction::Down => size.y - p.y,
        Direction::Left => p.x as int,
        Direction::Right => size.x - p.x,
    }
}

/// Appends to `actions` the moves that walk the player along `path`.
fn append_path_moves(
    actions: &mut Movements,
    path: &Vec<Vector2>,
    Ghost(v0): Ghost<LevelView>,
    Ghost(w0): Ghost<LevelView>,
    Ghost(to): Ghost<Vector2>,
) -> (w: Ghost<LevelView>)
    requires
        replay(v0, old(actions)@) == Some(w0),
        view_wf(w0),
        same_ground(v0, w0),
        path_ok(v0, w0.crates, w0.player, to, path@),
    ensures
        replay(v0, final(actions)@) == Some(w@),
        w@.player == to,
        w@.crates == w0.crates,
        view_wf(w@),
        same_ground(v0, w@),
        final(actions)@.len() >= old(actions)@.len(),
        final(actions)@.subrange(0, old(actions)@.len() as int) == old(actions)@,
        forall|t: int| old(actions)@.len() <= t < final(actions)@.len() ==> #[trigger] final(actions)@[t] is Move,
        final(actions)@.len() == old(actions)@.len() + path@.len() - 1,
{
    let ghost mut w = w0;
    let mut k: usize = 1;
    while k < path.len()
        invariant
            1 <= k <= path@.len(),
            path_ok(v0, w0.crates, w0.player, to, path@),
            replay(v0, actions@) == Some(w),
            w.player == path@[k - 1],
            w.crates == w0.crates,
            view_wf(w),
            view_wf(w0),
            same_ground(v0, w),
            same_ground(v0, w0),
            actions@.len() >= old(actions)@.len(),
            actions@.subrange(0, old(actions)@.len() as int) == old(actions)@,
            forall|t: int| old(actions)@.len() <= t < actions@.len() ==> #[trigger] actions@[t] is Move,
            actions@.len() == old(actions)@.len() + k - 1,
        decreases path@.len() - k,
    {
        let prev = path[k - 1];
        let next = path[k];
        proof {
            assert(adjacent(path@[k - 1], path@[k as int]));
            assert(in_bounds_spec(v0.size, next));
            if k > 1 {
                assert(player_open(v0, w0.crates, path@[k - 1]));
            }
            assert(in_bounds_spec(v0.size, prev));
            lemma_adjacent_direction(v0.size, prev, next);
        }
        let d = match Direction::from_vector(next.sub(&prev)) {
            Some(d) => d,
            None => Direction::Up,
        };
        proof {
            lemma_move_step(v0, w, d);
            lemma_replay_push(v0, actions@, Movement::Move(d));
        }
        let ghost before = actions@;
        actions.push(Movement::Move(d));
        proof {
            w = apply(w, d);
            assert(actions@.subrange(0, old(actions)@.len() as int) =~= before.subrange(
                0,
                old(actions)@.len() as int,
            ));
        }
        k = k + 1;
    }
    Ghost(w)
}

impl Solver {
    /// Whether a push from the in-bounds cell `q` in direction `d` enters a tunnel.
    fn is_tunnel(&self, q: &Vector2, d: Direction) -> (r: bool)
        requires
            self.tables_ok(),
            in_bounds_spec(self.map.size, *q),
        ensures
            r == tunnel_at(self.map@, self.lower_bounds@, *q, d),
    {
        proof {
            lemma_index_bounds(self.map.size, *q);
        }
        let entry = self.tunnels[(q.y * self.map.size.x + q.x) as usize];
        match d {
            Direction::Up => entry[0],
            Direction::Down => entry[1],
            Direction::Left => entry[2],
            Direction::Right => entry[3],
        }
    }
}

/// Whether a crate may not enter `p`: off the grid, a wall, a cell without a
/// lower bound, or a cell of `boxes`.
pub open spec fn box_blocked(v: LevelView, bounds: Seq<Option<usize>>, boxes: Seq<Vector2>, p: Vector2) -> bool {
    wall_at(v, p) || entry_at(bounds, v.size, p) is None || boxes.contains(p)
}

/// Where a crate pushed in direction `d` onto `nb` comes to rest once the
/// pushes that carry it along a tunnel are made, `boxes` standing in the way.
pub open spec fn carried(
    v: LevelView,
    bounds: Seq<Option<usize>>,
    boxes: Seq<Vector2>,
    nb: Vector2,
    d: Direction,
) -> Vector2
    decreases edge_gap(v.size, nb, d),
{
    let beyond = step(nb, d);
    if tunnel_at(v, bounds, step_back(nb, d), d) && !box_blocked(v, bounds, boxes, beyond) && 0 <= edge_gap(
        v.size,
        beyond,
        d,
    ) < edge_gap(v.size, nb, d) {
        carried(v, bounds, boxes, beyond, d)
    } else {
        nb
    }
}

/// Where the player and the crates stand after crate `i` of `boxes` is pushed
/// in direction `d` and carried along a tunnel, the player starting at
/// `player`; `None` where the search does not make that push: the crate may
/// not enter the cell in front of it, the player cannot walk to the cell
/// behind it, or the crate ends frozen off a target.
pub open spec fn pushed(
    v: LevelView,
    bounds: Seq<Option<usize>>,
    walls: Seq<Vector2>,
    player: Vector2,
    boxes: Seq<Vector2>,
    i: int,
    d: Direction,
) -> Option<(Vector2, Seq<Vector2>)> {
    let b = boxes[i];
    let behind = step_back(b, d);
    if box_blocked(v, bounds, boxes, step(b, d)) || !player_open(v, boxes.to_set(), behind) || !reachable(
        open_fn(v, WALL, boxes.to_set()),
        player,
        behind,
    ) || !(exists|q: Seq<Vector2>| path_ok(v, boxes.to_set(), player, behind, q)) {
        None
    } else {
        let e = carried(v, bounds, boxes, step(b, d), d);
        let nbs = boxes.update(i, e);
        if !flag_at(v, e, TARGET) && (forall|j: int| 0 <= j < nbs.len() ==> interior(v.size, #[trigger] nbs[j]))
            && freeze_deadlock(v.size, walls, e, nbs) {
            None
        } else {
            Some((step_back(e, d), nbs))
        }
    }
}

/// The places of the successors from pushing crate `i`, in the first `k`
/// directions of `all_directions`.
pub open spec fn box_successors(
    v: LevelView,
    bounds: Seq<Option<usize>>,
    walls: Seq<Vector2>,
    player: Vector2,
    boxes: Seq<Vector2>,
    i: int,
    k: nat,
) -> Seq<(Vector2, Seq<Vector2>)>
    decreases k,
{
    if k == 0 {
        Seq::empty()
    } else {
        let prev = box_successors(v, bounds, walls, player, boxes, i, (k - 1) as nat);
        match pushed(v, bounds, walls, player, boxes, i, all_directions()[k - 1]) {
            Some(x) => prev.push(x),
            None => prev,
        }
    }
}

/// The places of the successors from pushing the first `i` crates, crate by
/// crate.
pub open spec fn successors_upto(
    v: LevelView,
    bounds: Seq<Option<usize>>,
    walls: Seq<Vector2>,
    player: Vector2,
    boxes: Seq<Vector2>,
    i: nat,
) -> Seq<(Vector2, Seq<Vector2>)>
    decreases i,
{
    if i == 0 {
        Seq::empty()
    } else {
        successors_upto(v, bounds, walls, player, boxes, (i - 1) as nat) + box_successors(
            v,
            bounds,
            walls,
            player,
            boxes,
            i - 1,
            4,
        )
    }
}

/// Where the player and the crates stand in each of a list of states.
pub open spec fn places(ss: Seq<State>) -> Seq<(Vector2, Seq<Vector2>)> {
    ss.map_values(|s: State| (s.player_position, s.box_positions@))
}

/// Whether every position of `boxes` lies inside the outer ring of the grid.
fn all_interior(size: Vector2, boxes: &Vec<Vector2>) -> (r: bool)
    ensures
        r == forall|i: int| 0 <= i < boxes@.len() ==> interior(size, #[trigger] boxes@[i]),
{
    let mut i: usize = 0;
    while i < boxes.len()
        invariant
            i <= boxes@.len(),
            forall|k: int| 0 <= k < i ==> interior(size, #[trigger] boxes@[k]),
        decreases boxes@.len() - i,
    {
        let b = boxes[i];
        if !(1 <= b.x && b.x < size.x && b.x + 1 < size.x && 1 <= b.y && b.y < size.y && b.y + 1
            < size.y) {
            return false;
        }
        i = i + 1;
    }
    true
}

impl State {
    /// Whether `p` stops a crate: off the grid, a wall, a cell without a
    /// lower bound, or a crate.
    fn can_block_box(&self, p: &Vector2, solver: &Solver) -> (r: bool)
        requires
            solver.tables_ok(),
        ensures
            r == (wall_at(solver.map@, *p) || entry_at(solver.lower_bounds@, solver.map.size, *p)
                is None || self.box_positions@.contains(*p)),
    {
        is_wall(&solver.map, p) || table_entry(&solver.map, &solver.lower_bounds, p).is_none()
            || contains_position(&self.box_positions, p)
    }

    /// Whether `p` stops the player: off the grid, a wall, or a crate.
    fn can_block_player(&self, p: &Vector2, solver: &Solver) -> (r: bool)
        requires
            solver.tables_ok(),
        ensures
            r == !player_open(solver.map@, self.box_positions@.to_set(), *p),
    {
        player_blocked(&solver.map, &self.box_positions, p)
    }

    /// The cells the player can walk to, the player's own included.
    fn player_reachable_area(&self, solver: &Solver) -> (r: Vec<Vector2>)
        requires
            solver.tables_ok(),
            in_bounds_spec(solver.map.size, self.player_position),
        ensures
            r@.no_duplicates(),
            forall|p: Vector2| #[trigger]
                r@.contains(p) <==> reachable(
                    open_fn(solver.map@, WALL, self.box_positions@.to_set()),
                    self.player_position,
                    p,
                ),
            forall|i: int| 0 <= i < r@.len() ==> in_bounds_spec(solver.map.size, #[trigger] r@[i]),
    {
        solver.map.reachable_cells(&self.player_position, WALL, &self.box_positions)
    }

    /// The states reached by one push of one crate, each followed by the
    /// pushes that carry the crate along a tunnel: for every crate and every
    /// direction, in that order, the crate is pushed where the cell in front
    /// of it holds no wall, no crate and has a lower bound, the cell behind it
    /// can be reached by the player, and the crate does not end frozen off a
    /// target. The movements of each are those of this state, a walk of the
    /// player to the crate, and the pushes.
    pub fn successors(&self, solver: &Solver) -> (r: Vec<State>)
        requires
            solver.tables_ok(),
            solver.state_ok(*self),
        ensures
            forall|j: int| 0 <= j < r@.len() ==> solver.state_ok(#[trigger] r@[j]),
            forall|j: int|
                0 <= j < r@.len() ==> (#[trigger] r@[j]).actions@.len() > self.actions@.len()
                    && r@[j].actions@.subrange(0, self.actions@.len() as int) == self.actions@
                    && r@[j].actions@.last() is Push,
            forall|j: int| 0 <= j < r@.len() ==> walk_then_push(self.actions@.len() as int, (#[trigger] r@[j]).actions@),
            forall|j: int|
                0 <= j < r@.len() ==> shortest_walk_then_push(
                    solver.start(),
                    self.box_positions@,
                    self.player_position,
                    self.actions@.len() as int,
                    (#[trigger] r@[j]).actions@,
                ),
            places(r@) == successors_upto(
                solver.start(),
                solver.bounds(),
                solver.wall_list(),
                self.player_position,
                self.box_positions@,
                self.box_positions@.len(),
            ),
    {
        let ghost v0 = solver.map@;
        let ghost w0 = replay(v0, self.actions@).unwrap();
        let ghost bounds = solver.lower_bounds@;
        let ghost walls = solver.walls@;
        let ghost boxes0 = self.box_positions@;
        let ghost player0 = self.player_position;
        let mut successors: Vec<State> = Vec::new();
        let area = self.player_reachable_area(solver);
        let dirs = Direction::all();
        let mut i: usize = 0;
        proof {
            assert(places(successors@) =~= successors_upto(v0, bounds, walls, player0, boxes0, 0));
        }
        while i < self.box_positions.len()
            invariant
                solver.tables_ok(),
                solver.state_ok(*self),
                v0 == solver.map@,
                bounds == solver.lower_bounds@,
                walls == solver.walls@,
                boxes0 == self.box_positions@,
                player0 == self.player_position,
                replay(v0, self.actions@) == Some(w0),
                w0.player == self.player_position,
                w0.crates == self.box_positions@.to_set(),
                view_wf(w0),
                same_ground(v0, w0),
                dirs@ == all_directions(),
                i <= self.box_positions@.len(),
                forall|p: Vector2| #[trigger] area@.contains(p) <==> reachable(
                    open_fn(v0, WALL, boxes0.to_set()),
                    player0,
                    p,
                ),
                places(successors@) == successors_upto(v0, bounds, walls, player0, boxes0, i as nat),
                forall|j: int| 0 <= j < successors@.len() ==> solver.state_ok(
                    #[trigger] successors@[j],
                ),
                forall|j: int|
                    0 <= j < successors@.len() ==> (#[trigger] successors@[j]).actions@.len()
                        > self.actions@.len() && successors@[j].actions@.subrange(
                        0,
                        self.actions@.len() as int,
                    ) == self.actions@ && successors@[j].actions@.last() is Push,
                forall|j: int|
                    0 <= j < successors@.len() ==> walk_then_push(
                        self.actions@.len() as int,
                        (#[trigger] successors@[j]).actions@,
                    ),
                forall|j: int|
                    0 <= j < successors@.len() ==> shortest_walk_then_push(
                        v0,
                        boxes0,
                        player0,
                        self.actions@.len() as int,
                        (#[trigger] successors@[j]).actions@,
                    ),
            decreases self.box_positions@.len() - i,
        {
            let b = self.box_positions[i];
            proof {
                assert(w0.crates.contains(b));
            }
            let ghost base = successors@;
            let mut k: usize = 0;
            proof {
                assert(places(successors@) =~= successors_upto(v0, bounds, walls, player0, boxes0, i as nat)
                    + box_successors(v0, bounds, walls, player0, boxes0, i as int, 0));
            }
            while k < 4
                invariant
                    solver.tables_ok(),
                    solver.state_ok(*self),
                    v0 == solver.map@,
                    bounds == solver.lower_bounds@,
                    walls == solver.walls@,
                    boxes0 == self.box_positions@,
                    player0 == self.player_position,
                    replay(v0, self.actions@) == Some(w0),
                    w0.player == self.player_position,
                    w0.crates == self.box_positions@.to_set(),
                    view_wf(w0),
                    same_ground(v0, w0),
                    dirs@ == all_directions(),
                    i < self.box_positions@.len(),
                    b == self.box_positions@[i as int],
                    in_bounds_spec(v0.size, b),
                    k <= 4,
                    forall|p: Vector2| #[trigger] area@.contains(p) <==> reachable(
                        open_fn(v0, WALL, boxes0.to_set()),
                        player0,
                        p,
                    ),
                    places(successors@) == successors_upto(v0, bounds, walls, player0, boxes0, i as nat)
                        + box_successors(v0, bounds, walls, player0, boxes0, i as int, k as nat),
                    forall|j: int| 0 <= j < successors@.len() ==> solver.state_ok(
                        #[trigger] successors@[j],
                    ),
                    forall|j: int|
                        0 <= j < successors@.len() ==> (#[trigger] successors@[j]).actions@.len()
                            > self.actions@.len() && successors@[j].actions@.subrange(
                            0,
                            self.actions@.len() as int,
                        ) == self.actions@ && successors@[j].actions@.last() is Push,
                    forall|j: int|
                        0 <= j < successors@.len() ==> walk_then_push(
                            self.actions@.len() as int,
                            (#[trigger] successors@[j]).actions@,
                        ),
                    forall|j: int|
                        0 <= j < successors@.len() ==> shortest_walk_then_push(
                            v0,
                            boxes0,
                            player0,
                            self.actions@.len() as int,
                            (#[trigger] successors@[j]).actions@,
                        ),
                decreases 4 - k,
            {
                let d = dirs[k];
                let ghost expect = pushed(v0, bounds, walls, player0, boxes0, i as int, d);
                let ghost before = places(successors@);
                k = k + 1;
                proof {
                    assert(d == all_directions()[k - 1]);
                }
                let mut new_box = step_exec(&b, d);
                if self.can_block_box(&new_box, solver) {
                    proof {
                        assert(expect is None);
                    }
                    continue;
                }
                let next_player = step_back_exec(&b, d);
                if self.can_block_player(&next_player, solver) || !contains_position(
                    &area,
                    &next_player,
                ) {
                    proof {
                        assert(expect is None);
                    }
                    continue;
                }
                let path = match find_path(
                    &solver.map,
                    &self.box_positions,
                    self.player_position,
                    next_player,
                ) {
                    Some(path) => path,
                    None => {
                        proof {
                            assert(expect is None);
                        }
                        continue;
                    },
                };
                let ghost nb0 = new_box;
                let mut new_actions = Movements(self.actions.0.clone());
                assert(new_actions@ == self.actions@);
                let walked = append_path_moves(
                    &mut new_actions,
                    &path,
                    Ghost(v0),
                    Ghost(w0),
                    Ghost(next_player),
                );
                let ghost w1 = walked@;
                proof {
                    crate::direction::lemma_step_back_step(b, d);
                    lemma_push_step(v0, w1, d);
                    lemma_replay_push(v0, new_actions@, Movement::Push(d));
                }
                let ghost walked_actions = new_actions@;
                new_actions.push(Movement::Push(d));
                proof {
                    assert(new_actions@.subrange(0, self.actions@.len() as int) =~= walked_actions.subrange(
                        0,
                        self.actions@.len() as int,
                    ));
                }
                let ghost mut w = apply(w1, d);
                // Carry the crate along a tunnel.
                loop
                    invariant
                        solver.tables_ok(),
                        v0 == solver.map@,
                        bounds == solver.lower_bounds@,
                        boxes0 == self.box_positions@,
                        replay(v0, new_actions@) == Some(w),
                        view_wf(w),
                        same_ground(v0, w),
                        w.player == step_back(new_box, d),
                        w.crates == self.box_positions@.to_set().remove(b).insert(new_box),
                        !self.box_positions@.contains(new_box),
                        in_bounds_spec(v0.size, new_box),
                        in_bounds_spec(v0.size, w.player),
                        new_actions@.len() > self.actions@.len(),
                        new_actions@.subrange(0, self.actions@.len() as int) == self.actions@,
                        new_actions@.last() is Push,
                        carried(v0, bounds, boxes0, new_box, d) == carried(v0, bounds, boxes0, nb0, d),
                        self.actions@.len() <= walked_actions.len() < new_actions@.len(),
                        forall|t: int|
                            self.actions@.len() <= t < walked_actions.len() ==> #[trigger] new_actions@[t] is Move,
                        forall|t: int|
                            walked_actions.len() <= t < new_actions@.len() ==> #[trigger] new_actions@[t]
                                == Movement::Push(d),
                    ensures
                        carried(v0, bounds, boxes0, nb0, d) == new_box,
                        replay(v0, new_actions@) == Some(w),
                        view_wf(w),
                        same_ground(v0, w),
                        w.player == step_back(new_box, d),
                        w.crates == self.box_positions@.to_set().remove(b).insert(new_box),
                        !self.box_positions@.contains(new_box),
                        in_bounds_spec(v0.size, new_box),
                        new_actions@.len() > self.actions@.len(),
                        new_actions@.subrange(0, self.actions@.len() as int) == self.actions@,
                        new_actions@.last() is Push,
                        self.actions@.len() <= walked_actions.len() < new_actions@.len(),
                        forall|t: int|
                            self.actions@.len() <= t < walked_actions.len() ==> #[trigger] new_actions@[t] is Move,
                        forall|t: int|
                            walked_actions.len() <= t < new_actions@.len() ==> #[trigger] new_actions@[t]
                                == Movement::Push(d),
                    decreases edge_gap(v0.size, new_box, d),
                {
                    let q = step_back_exec(&new_box, d);
                    if !solver.is_tunnel(&q, d) {
                        break;
                    }
                    let beyond = step_exec(&new_box, d);
                    if self.can_block_box(&beyond, solver) {
                        break;
                    }
                    proof {
                        crate::direction::lemma_step_back_step(new_box, d);
                        assert(step(w.player, d) == new_box);
                        assert(beyond != new_box);
                        lemma_push_step(v0, w, d);
                        lemma_replay_push(v0, new_actions@, Movement::Push(d));
                        assert(apply(w, d).crates =~= self.box_positions@.to_set().remove(b).insert(
                            beyond,
                        ));
                        assert(0 <= edge_gap(v0.size, beyond, d) < edge_gap(v0.size, new_box, d));
                    }
                    let ghost pushed_before = new_actions@;
                    new_actions.push(Movement::Push(d));
                    proof {
                        w = apply(w, d);
                        crate::direction::lemma_step_back_step(beyond, d);
                        assert(new_actions@.subrange(0, self.actions@.len() as int) =~= pushed_before.subrange(
                            0,
                            self.actions@.len() as int,
                        ));
                    }
                    new_box = beyond;
                }
                let mut new_boxes = self.box_positions.clone();
                assert(new_boxes@ == self.box_positions@);
                new_boxes.set(i, new_box);
                proof {
                    lemma_replace_distinct(self.box_positions@, i as int, new_box);
                    assert(new_boxes@[i as int] == new_box);
                    assert(new_boxes@ == boxes0.update(i as int, new_box));
                }
                if !has_flag_at(&solver.map, &new_box, TARGET) && all_interior(
                    solver.map.size,
                    &new_boxes,
                ) && is_freeze_deadlock(solver.map.size, &solver.walls, new_box, &new_boxes) {
                    proof {
                        assert(expect is None);
                    }
                    continue;
                }
                let new_player = step_back_exec(&new_box, d);
                let state = State::new(new_player, new_boxes, new_actions, solver);
                proof {
                    assert(expect == Some((new_player, boxes0.update(i as int, new_box))));
                }
                let ghost prev_succ = successors@;
                successors.push(state);
                proof {
                    assert(places(successors@) =~= before.push((new_player, boxes0.update(i as int, new_box))));
                    let m = walked_actions.len() as int;
                    assert(pushes_from(successors@.last().actions@, m, d));
                    assert(walk_then_push(self.actions@.len() as int, successors@.last().actions@));
                    assert(path_ok(v0, boxes0.to_set(), player0, step_back(b, d), path@));
                    assert(boxes0.contains(b));
                    assert(fewest_steps(v0, boxes0.to_set(), player0, step_back(b, d), (m - self.actions@.len()) as nat));
                    assert(shortest_walk_then_push(
                        v0,
                        boxes0,
                        player0,
                        self.actions@.len() as int,
                        successors@.last().actions@,
                    ));
                    assert forall|j: int|
                        0 <= j < successors@.len() implies walk_then_push(
                            self.actions@.len() as int,
                            (#[trigger] successors@[j]).actions@,
                        ) && shortest_walk_then_push(
                            v0,
                            boxes0,
                            player0,
                            self.actions@.len() as int,
                            successors@[j].actions@,
                        ) by {
                        if j < prev_succ.len() {
                            assert(successors@[j] == prev_succ[j]);
                        }
                    }
                }
            }
            proof {
                assert(successors_upto(v0, bounds, walls, player0, boxes0, (i + 1) as nat) == successors_upto(
                    v0,
                    bounds,
                    walls,
                    player0,
                    boxes0,
                    i as nat,
                ) + box_successors(v0, bounds, walls, player0, boxes0, i as int, 4));
            }
            i = i + 1;
        }
        successors
    }
}

/// Whether the movements of `ms` after the first `from` are plain moves
/// followed by at least one push, all the pushes in one direction.
pub open spec fn walk_then_push(from: int, ms: Seq<Movement>) -> bool {
    exists|m: int, d: Direction|
        from <= m < ms.len() && (forall|t: int| from <= t < m ==> #[trigger] ms[t] is Move) && #[trigger] pushes_from(
            ms,
            m,
            d,
        )
}

/// Whether `n` steps, and no fewer, walk the player from `a` to `c` through
/// cells holding no wall and none of the crates at `boxes`.
pub open spec fn fewest_steps(v: LevelView, boxes: Set<Vector2>, a: Vector2, c: Vector2, n: nat) -> bool {
    &&& exists|q: Seq<Vector2>| #[trigger] path_ok(v, boxes, a, c, q) && q.len() == n + 1
    &&& forall|q: Seq<Vector2>| #[trigger] path_ok(v, boxes, a, c, q) ==> n + 1 <= q.len()
}

/// Whether the movements of `ms` after the first `from` are a shortest walk
/// of the player at `player` to the cell behind one of the crates at `boxes`,
/// followed by pushes of that crate in one direction.
pub open spec fn shortest_walk_then_push(
    v: LevelView,
    boxes: Seq<Vector2>,
    player: Vector2,
    from: int,
    ms: Seq<Movement>,
) -> bool {
    exists|m: int, d: Direction, b: Vector2|
        #[trigger] pushes_from(ms, m, d) && #[trigger] boxes.contains(b) && from <= m < ms.len() && fewest_steps(
            v,
            boxes.to_set(),
            player,
            step_back(b, d),
            (m - from) as nat,
        )
}

/// Whether the movements of `ms` from index `m` on are pushes in direction `d`.
pub open spec fn pushes_from(ms: Seq<Movement>, m: int, d: Direction) -> bool {
    forall|t: int| m <= t < ms.len() ==> #[trigger] ms[t] == Movement::Push(d)
}

/// Whether `a` comes no later than `b` when the grid is read row by row from
/// the top, each row from the left.
pub open spec fn top_left_first(a: Vector2, b: Vector2) -> bool {
    a.y < b.y || (a.y == b.y && a.x <= b.x)
}

/// The first cell, in reading order, of those reachable from `start`.
pub open spec fn area_anchor(open: spec_fn(Vector2) -> bool, start: Vector2) -> Vector2 {
    choose|a: Vector2|
        reachable(open, start, a) && forall|q: Vector2|
            reachable(open, start, q) ==> #[trigger] top_left_first(a, q)
}

/// The tiles of `base` with flag `f` added at each in-bounds cell of `ps`.
pub open spec fn mark_cells(base: Seq<Tile>, size: Vector2, ps: Seq<Vector2>, f: u8) -> Seq<Tile>
    decreases ps.len(),
{
    if ps.len() == 0 {
        base
    } else {
        let prev = mark_cells(base, size, ps.drop_last(), f);
        let p = ps.last();
        if in_bounds_spec(size, p) {
            prev.update(index_of(size, p), Tile(prev[index_of(size, p)].0 | f))
        } else {
            prev
        }
    }
}

/// The grid that stands for a state in the set of states already seen: the
/// crates marked on an empty grid, then the player.
pub open spec fn state_key(size: Vector2, player: Vector2, boxes: Seq<Vector2>) -> Seq<Tile> {
    mark_cells(
        mark_cells(Seq::new((size.x * size.y) as nat, |i: int| Tile(0)), size, boxes, CRATE),
        size,
        seq![player],
        PLAYER,
    )
}

/// The cell of `area` that comes first in reading order.
fn first_cell(area: &Vec<Vector2>) -> (r: Vector2)
    requires
        area@.len() > 0,
    ensures
        area@.contains(r),
        forall|i: int| 0 <= i < area@.len() ==> #[trigger] top_left_first(r, area@[i]),
{
    let mut best = area[0];
    let mut i: usize = 1;
    while i < area.len()
        invariant
            1 <= i <= area@.len(),
            area@.contains(best),
            forall|k: int| 0 <= k < i ==> #[trigger] top_left_first(best, area@[k]),
        decreases area@.len() - i,
    {
        let q = area[i];
        if q.y < best.y || (q.y == best.y && q.x < best.x) {
            proof {
                assert forall|k: int| 0 <= k < i implies #[trigger] top_left_first(q, area@[k]) by {
                    assert(top_left_first(best, area@[k]));
                }
            }
            best = q;
        }
        i = i + 1;
    }
    best
}

/// Adds flag `f` at the in-bounds cells of `ps`.
fn mark_positions(key: &mut Vec<Tile>, size: Vector2, ps: &Vec<Vector2>, f: u8)
    requires
        0 <= size.x,
        0 <= size.y,
        size.x * size.y <= i32::MAX,
        old(key)@.len() == size.x * size.y,
    ensures
        final(key)@ == mark_cells(old(key)@, size, ps@, f),
        final(key)@.len() == old(key)@.len(),
{
    let ghost base = key@;
    let mut j: usize = 0;
    while j < ps.len()
        invariant
            0 <= size.x,
            0 <= size.y,
            size.x * size.y <= i32::MAX,
            base.len() == size.x * size.y,
            j <= ps@.len(),
            key@ == mark_cells(base, size, ps@.take(j as int), f),
            key@.len() == base.len(),
        decreases ps@.len() - j,
    {
        let p = ps[j];
        assert(ps@.take(j + 1).drop_last() == ps@.take(j as int));
        if 0 <= p.x && p.x < size.x && 0 <= p.y && p.y < size.y {
            proof {
                lemma_index_bounds(size, p);
            }
            let idx = (p.y * size.x + p.x) as usize;
            let t = key[idx];
            key.set(idx, Tile(t.0 | f));
        }
        j = j + 1;
    }
    assert(ps@.take(ps@.len() as int) == ps@);
}

impl State {
    /// The first cell in reading order that the player can walk to.
    fn normalized_player_position(&self, solver: &Solver) -> (r: Vector2)
        requires
            solver.tables_ok(),
            in_bounds_spec(solver.map.size, self.player_position),
        ensures
            r == area_anchor(
                open_fn(solver.map@, WALL, self.box_positions@.to_set()),
                self.player_position,
            ),
    {
        let ghost open = open_fn(solver.map@, WALL, self.box_positions@.to_set());
        let area = self.player_reachable_area(solver);
        proof {
            crate::reach::lemma_reachable_start(open, self.player_position);
            assert(area@.contains(self.player_position));
        }
        let r = first_cell(&area);
        proof {
            let a = area_anchor(open, self.player_position);
            assert forall|q: Vector2| reachable(open, self.player_position, q) implies #[trigger] top_left_first(
                r,
                q,
            ) by {
                assert(area@.contains(q));
                let k = choose|k: int| 0 <= k < area@.len() && area@[k] == q;
                assert(top_left_first(r, area@[k]));
            }
            assert(reachable(open, self.player_position, r));
            assert(reachable(open, self.player_position, a) && forall|q: Vector2|
                reachable(open, self.player_position, q) ==> #[trigger] top_left_first(a, q));
            assert(top_left_first(a, r));
            assert(top_left_first(r, a));
        }
        r
    }

    /// The state with the player moved to the first cell in reading order
    /// that the player can walk to; states that differ only by where the
    /// player stands in one area normalize alike.
    pub fn normalized(&self, solver: &Solver) -> (r: Self)
        requires
            solver.tables_ok(),
            solver.state_ok(*self),
        ensures
            r.player_position == area_anchor(
                open_fn(solver.start(), WALL, self.box_positions@.to_set()),
                self.player_position,
            ),
            r.box_positions@ == self.box_positions@,
            r.actions@ == self.actions@,
            r.heuristic == self.heuristic,
            r.lower_bound == self.lower_bound,
    {
        let player_position = self.normalized_player_position(solver);
        let box_positions = self.box_positions.clone();
        assert(box_positions@ == self.box_positions@);
        let actions = Movements(self.actions.0.clone());
        assert(actions@ == self.actions@);
        State {
            player_position,
            box_positions,
            actions,
            heuristic: self.heuristic,
            lower_bound: self.lower_bound,
        }
    }

    /// The hash of the normalized state: of the grid with the crates and the
    /// normalized player marked.
    pub fn normalized_hash(&self, solver: &Solver) -> (r: u64)
        requires
            solver.tables_ok(),
            solver.state_ok(*self),
        ensures
            r == tiles_sip_hash(
                state_key(
                    solver.start().size,
                    area_anchor(
                        open_fn(solver.start(), WALL, self.box_positions@.to_set()),
                        self.player_position,
                    ),
                    self.box_positions@,
                ),
            ),
    {
        let anchor = self.normalized_player_position(solver);
        let size = solver.map.size;
        let n = (size.x * size.y) as usize;
        let mut key: Vec<Tile> = Vec::new();
        let mut i: usize = 0;
        while i < n
            invariant
                n == size.x * size.y,
                i <= n,
                key@ == Seq::new(i as nat, |j: int| Tile(0)),
            decreases n - i,
        {
            key.push(Tile(0));
            i = i + 1;
            assert(key@ =~= Seq::new(i as nat, |j: int| Tile(0)));
        }
        mark_positions(&mut key, size, &self.box_positions, CRATE);
        let anchors = vec![anchor];
        mark_positions(&mut key, size, &anchors, PLAYER);
        assert(anchors@ == seq![anchor]);
        hash_tiles(&key)
    }
}

/// The nearest distance to a non-empty list of targets is at most the
/// distance to each of them, and equal to the distance to one of them.
proof fn lemma_nearest_is_min(targets: Seq<Vector2>, p: Vector2)
    requires
        targets.len() > 0,
    ensures
        forall|i: int| 0 <= i < targets.len() ==> nearest_distance(targets, p) <= manhattan_spec(#[trigger] targets[i], p),
        exists|i: int| 0 <= i < targets.len() && nearest_distance(targets, p) == manhattan_spec(#[trigger] targets[i], p),
    decreases targets.len(),
{
    if targets.len() == 1 {
        assert(nearest_distance(targets, p) == manhattan_spec(targets[0], p));
    } else {
        let init = targets.drop_last();
        lemma_nearest_is_min(init, p);
        assert forall|i: int| 0 <= i < targets.len() implies nearest_distance(targets, p) <= manhattan_spec(
            #[trigger] targets[i],
            p,
        ) by {
            if i < targets.len() - 1 {
                assert(targets[i] == init[i]);
            }
        }
        if manhattan_spec(targets.last(), p) < nearest_distance(init, p) {
            assert(nearest_distance(targets, p) == manhattan_spec(targets[targets.len() - 1], p));
        } else {
            let i = choose|i: int| 0 <= i < init.len() && nearest_distance(init, p) == manhattan_spec(#[trigger] init[i], p);
            assert(targets[i] == init[i]);
        }
    }
}

/// The smallest distance from `p` to a list of targets is zero only on one
/// of them.
proof fn lemma_nearest_zero(targets: Seq<Vector2>, p: Vector2)
    requires
        targets.len() > 0,
        nearest_distance(targets, p) == 0,
    ensures
        targets.contains(p),
    decreases targets.len(),
{
    if targets.len() == 1 {
        assert(targets[0] == p);
    } else {
        let rest = nearest_distance(targets.drop_last(), p);
        if manhattan_spec(targets.last(), p) < rest {
            assert(targets.last() == p);
            assert(targets[targets.len() - 1] == p);
        } else {
            assert(rest >= 0) by {
                lemma_nearest_nonneg(targets.drop_last(), p);
            }
            lemma_nearest_zero(targets.drop_last(), p);
            let k = choose|k: int| 0 <= k < targets.len() - 1 && targets.drop_last()[k] == p;
            assert(targets[k] == p);
        }
    }
}

/// Distances are never negative.
proof fn lemma_nearest_nonneg(targets: Seq<Vector2>, p: Vector2)
    ensures
        nearest_distance(targets, p) >= 0,
    decreases targets.len(),
{
    if targets.len() > 1 {
        lemma_nearest_nonneg(targets.drop_last(), p);
    }
}

/// The Manhattan bounds are zero only on targets.
proof fn lemma_manhattan_zero_on_targets(map: &Level, table: Seq<Option<usize>>)
    requires
        map.wf(),
        map.target_positions@.len() > 0,
        table.len() == map.data@.len(),
        forall|p: Vector2|
            #[trigger] in_bounds_spec(map.size, p) ==> table[index_of(map.size, p)]
                == manhattan_bound(map@, map.target_positions@, p),
    ensures
        zero_only_on_targets(map@, table),
{
    assert forall|p: Vector2| #[trigger] entry_at(table, map.size, p) == Some(0usize) implies flag_at(
        map@,
        p,
        TARGET,
    ) by {
        assert(in_bounds_spec(map.size, p));
        if !has_flag(map@.tiles[index_of(map.size, p)], TARGET) {
            let d = nearest_distance(map.target_positions@, p);
            lemma_nearest_nonneg(map.target_positions@, p);
            lemma_nearest_bounded(map, p);
            assert(d == 0);
            lemma_nearest_zero(map.target_positions@, p);
            assert(map.tile(p) == map@.tiles[index_of(map.size, p)]);
        }
    }
}

/// The nearest distance to the targets of a level fits `i32`.
proof fn lemma_nearest_bounded(map: &Level, p: Vector2)
    requires
        map.wf(),
        in_bounds_spec(map.size, p),
    ensures
        0 <= nearest_distance(map.target_positions@, p) <= i32::MAX,
{
    lemma_nearest_bounded_prefix(map, p, map.target_positions@.len() as int);
    assert(map.target_positions@.take(map.target_positions@.len() as int)
        == map.target_positions@);
}

proof fn lemma_nearest_bounded_prefix(map: &Level, p: Vector2, n: int)
    requires
        map.wf(),
        in_bounds_spec(map.size, p),
        0 <= n <= map.target_positions@.len(),
    ensures
        0 <= nearest_distance(map.target_positions@.take(n), p) <= i32::MAX,
    decreases n,
{
    let t = map.target_positions@.take(n);
    if n > 0 {
        lemma_nearest_bounded_prefix(map, p, n - 1);
        assert(t.drop_last() == map.target_positions@.take(n - 1));
        assert(map.in_bounds_spec(map.target_positions@[n - 1]));
        lemma_distance_fits(map.size, map.target_positions@[n - 1], p);
    }
}

/// The cells of a level that hold flag `flag`, in row-major order.
pub(crate) fn cells_with_flag(map: &Level, flag: u8) -> (r: Vec<Vector2>)
    requires
        map.grid_wf(),
    ensures
        forall|i: int| 0 <= i < r@.len() ==> flag_at(map@, #[trigger] r@[i], flag),
        forall|p: Vector2| #[trigger] flag_at(map@, p, flag) ==> r@.contains(p),
{
    let w = map.size.x;
    let h = map.size.y;
    let mut walls: Vec<Vector2> = Vec::new();
    let mut y: i32 = 0;
    while y < h
        invariant
            map.grid_wf(),
            w == map.size.x,
            h == map.size.y,
            0 <= y <= h,
            forall|i: int| 0 <= i < walls@.len() ==> flag_at(map@, #[trigger] walls@[i], flag),
            forall|p: Vector2|
                #[trigger] flag_at(map@, p, flag) && p.y < y ==> walls@.contains(p),
        decreases h - y,
    {
        let mut x: i32 = 0;
        while x < w
            invariant
                map.grid_wf(),
                w == map.size.x,
                h == map.size.y,
                0 <= y < h,
                0 <= x <= w,
                forall|i: int| 0 <= i < walls@.len() ==> flag_at(map@, #[trigger] walls@[i], flag),
                forall|p: Vector2|
                    #[trigger] flag_at(map@, p, flag) && (p.y < y || (p.y == y && p.x < x))
                        ==> walls@.contains(p),
            decreases w - x,
        {
            let p = Vector2::new(x, y);
            if has_flag_at(map, &p, flag) {
                let ghost before = walls@;
                walls.push(p);
                proof {
                    assert forall|q: Vector2|
                        #[trigger] flag_at(map@, q, flag) && (q.y < y || (q.y == y && q.x < x + 1))
                            implies walls@.contains(q) by {
                        if q == p {
                            assert(walls@[walls@.len() - 1] == p);
                        } else {
                            assert(before.contains(q));
                            let k = choose|k: int| 0 <= k < before.len() && before[k] == q;
                            assert(walls@[k] == q);
                        }
                    }
                }
            }
            x = x + 1;
        }
        y = y + 1;
    }
    walls
}

/// Two solvers that share their level and tables.
pub closed spec fn same_tables(a: Solver, b: Solver) -> bool {
    &&& a.map == b.map
    &&& a.strategy == b.strategy
    &&& a.lower_bound_method == b.lower_bound_method
    &&& a.lower_bounds@ == b.lower_bounds@
    &&& a.tunnels@ == b.tunnels@
    &&& a.walls@ == b.walls@
}

impl Solver {
    /// Creates a solver for a level, holding one state: the level's start
    /// with no movement made. The Manhattan method needs at least one target.
    pub fn new(map: Level, strategy: Strategy, lower_bound_method: LowerBoundMethod) -> (r: Self)
        requires
            map.wf(),
            lower_bound_method == LowerBoundMethod::ManhattanDistance ==> map.target_positions@.len() > 0,
        ensures
            r.wf(),
            r.start() == map@,
            r.chosen_strategy() == strategy,
            r.chosen_method() == lower_bound_method,
            r.frontier().len() == 1,
            r.frontier()[0].player_position == map.player_position,
            r.frontier()[0].box_positions@ == map.crate_positions@,
            r.frontier()[0].actions@ == Seq::<Movement>::empty(),
            zero_only_on_targets(map@, r.bounds()),
            r.bounds().len() == map.data@.len(),
            r.tunnel_table().len() == map.data@.len(),
            forall|p: Vector2, k: int|
                #![trigger r.tunnel_table()[index_of(map.size, p)][k]]
                in_bounds_spec(map.size, p) && 0 <= k < 4 ==> r.tunnel_table()[index_of(map.size, p)][k]
                    == tunnel_at(map@, r.bounds(), p, all_directions()[k]),
            lower_bound_method == LowerBoundMethod::ManhattanDistance ==> forall|p: Vector2|
                #[trigger] in_bounds_spec(map.size, p) ==> r.bounds()[index_of(map.size, p)]
                    == manhattan_bound(map@, map.target_positions@, p),
            lower_bound_method == LowerBoundMethod::MinimumMove ==> forall|p: Vector2|
                #[trigger] in_bounds_spec(map.size, p) ==> moves_to_target_bound(
                    map@,
                    p,
                    r.bounds()[index_of(map.size, p)],
                ),
            lower_bound_method == LowerBoundMethod::MinimumPush ==> forall|p: Vector2|
                #[trigger] in_bounds_spec(map.size, p) ==> pushes_to_target_bound(
                    map@,
                    p,
                    r.bounds()[index_of(map.size, p)],
                ),
    {
        let lower_bounds = calculate_lower_bounds(&map, lower_bound_method);
        let tunnels = calculate_tunnels(&map, &lower_bounds);
        let walls = cells_with_flag(&map, WALL);
        let mut instance = Solver {
            map,
            strategy,
            lower_bound_method,
            lower_bounds,
            tunnels,
            walls,
            visited: HashSet::new(),
            heap: Vec::new(),
        };
        let boxes = instance.map.crate_positions.clone();
        assert(boxes@ == instance.map.crate_positions@);
        let state = State::new(
            instance.map.player_position,
            boxes,
            Movements::new(),
            &instance,
        );
        proof {
            instance.map.lemma_wf_view();
            assert(replay(instance.map@, state.actions@) == Some(instance.map@));
            assert(count_pushes(state.actions@) == 0);
            assert(instance.state_ok(state));
        }
        instance.heap.push(state);
        instance
    }
}

/// Whether the crate at `p`, alone on the level with the player where the
/// level puts it, can be pushed onto a target.
pub open spec fn pushable_to_target(v: LevelView, p: Vector2) -> bool {
    exists|t: PushState| #[trigger] push_reachable(v, Set::empty(), p, t) && flag_at(v, t.box_position, TARGET)
}

/// Whether `k` pushes, and no fewer, bring the crate at `p`, alone on the
/// level with the player where the level puts it, onto a target.
pub open spec fn fewest_pushes(v: LevelView, p: Vector2, k: nat) -> bool {
    &&& exists|t: PushState| #[trigger] reached_in(v, Set::empty(), p, t, k + 1) && flag_at(v, t.box_position, TARGET)
    &&& forall|t: PushState, n: nat|
        #[trigger] reached_in(v, Set::empty(), p, t, n) && flag_at(v, t.box_position, TARGET) ==> k + 1 <= n
}

/// A lower bound that counts pushes: zero on a target; none off the cells
/// inside the outer ring and off the floor; elsewhere at least one, and,
/// where a table of four slots per cell fits in memory, present exactly
/// where the crate alone can be pushed onto a target, and then the fewest
/// pushes that do it.
pub open spec fn pushes_to_target_bound(v: LevelView, p: Vector2, e: Option<usize>) -> bool {
    if !interior(v.size, p) {
        e is None
    } else if flag_at(v, p, TARGET) {
        e == Some(0usize)
    } else if !flag_at(v, p, FLOOR) || wall_at(v, p) {
        e is None
    } else {
        &&& e matches Some(k) ==> k >= 1
        &&& 4 * v.tiles.len() <= usize::MAX ==> (e is Some) == pushable_to_target(v, p) && (e matches Some(k)
            ==> fewest_pushes(v, p, k as nat))
    }
}

/// The fewest pushes, among the paths found by `box_pushable_paths_with_positions`
/// from `p` with no other crate, that bring the crate onto a target.
fn fewest_pushes_to_target(map: &Level, p: &Vector2) -> (r: Option<usize>)
    requires
        map.wf(),
        !wall_at(map@, *p),
    ensures
        r matches Some(k) ==> k >= 1,
        4 * map.data@.len() <= usize::MAX && !flag_at(map@, *p, TARGET) ==> (r is Some) == pushable_to_target(
            map@,
            *p,
        ) && (r matches Some(k) ==> fewest_pushes(map@, *p, k as nat)),
{
    let none: Vec<Vector2> = Vec::new();
    let paths = box_pushable_paths_with_positions(map, p, &none);
    let ghost v = map@;
    let ghost init = none@.to_set();
    proof {
        assert(init =~= Set::<Vector2>::empty());
    }
    let mut best: Option<usize> = None;
    let mut i: usize = 0;
    while i < paths.len()
        invariant
            map.wf(),
            v == map@,
            i <= paths@.len(),
            forall|j: int| 0 <= j < paths@.len() ==> (#[trigger] paths@[j]).1@.len() >= 2,
            best matches Some(k) ==> k >= 1,
            best is None ==> forall|j: int| 0 <= j < i ==> !flag_at(v, (#[trigger] paths@[j]).0.box_position, TARGET),
            best matches Some(b) ==> (exists|j: int|
                0 <= j < i && flag_at(v, (#[trigger] paths@[j]).0.box_position, TARGET) && paths@[j].1@.len() == b + 1)
                && forall|j: int| 0 <= j < i && flag_at(v, (#[trigger] paths@[j]).0.box_position, TARGET) ==> b + 1 <= paths@[j].1@.len(),
        decreases paths@.len() - i,
    {
        assert(paths@[i as int].1@.len() >= 2);
        if has_flag_at(map, &paths[i].0.box_position, TARGET) {
            let pushes = paths[i].1.len() - 1;
            best = match best {
                Some(b) => if pushes < b { Some(pushes) } else { Some(b) },
                None => Some(pushes),
            };
        }
        i = i + 1;
    }
    proof {
        if 4 * map.data@.len() <= usize::MAX && !flag_at(v, *p, TARGET) {
            assert forall|t: PushState| #[trigger] push_reachable(v, Set::empty(), *p, t) && flag_at(v, t.box_position, TARGET)
                implies listed(paths@, t) by {
                assert(t.box_position != *p);
            }
            match best {
                Some(b) => {
                    let j = choose|j: int|
                        0 <= j < paths@.len() && flag_at(v, (#[trigger] paths@[j]).0.box_position, TARGET) && paths@[j].1@.len() == b + 1;
                    assert(reached_in(v, Set::empty(), *p, paths@[j].0, paths@[j].1@.len()));
                    let ss = choose|ss: Seq<PushState>| push_chain(v, Set::empty(), *p, ss) && ss.last() == paths@[j].0 && ss.len() == paths@[j].1@.len();
                    assert(push_reachable(v, Set::empty(), *p, paths@[j].0));
                    assert(pushable_to_target(v, *p));
                    assert(reached_in(v, Set::empty(), *p, paths@[j].0, (b + 1) as nat));
                    assert forall|t: PushState, n: nat|
                        #[trigger] reached_in(v, Set::empty(), *p, t, n) && flag_at(v, t.box_position, TARGET) implies b + 1 <= n by {
                        let ss = choose|ss: Seq<PushState>| push_chain(v, Set::empty(), *p, ss) && ss.last() == t && ss.len() == n;
                        assert(push_reachable(v, Set::empty(), *p, t));
                        assert(listed(paths@, t));
                        let e = choose|e: int| 0 <= e < paths@.len() && (#[trigger] paths@[e]).0 == t;
                        assert(fewest_states(v, Set::empty(), *p, paths@[e].0, paths@[e].1@.len()));
                        assert(paths@[e].1@.len() <= ss.len());
                    }
                },
                None => {
                    if pushable_to_target(v, *p) {
                        let t = choose|t: PushState| #[trigger] push_reachable(v, Set::empty(), *p, t) && flag_at(v, t.box_position, TARGET);
                        assert(listed(paths@, t));
                        let e = choose|e: int| 0 <= e < paths@.len() && (#[trigger] paths@[e]).0 == t;
                        assert(!flag_at(v, paths@[e].0.box_position, TARGET));
                    }
                },
            }
        }
    }
    best
}

/// The lower bounds by the paths along which a crate can be pushed: for each
/// floor cell inside the outer ring, the fewest pushes that bring a crate
/// from it onto a target, zero on targets.
fn minimum_push_lower_bounds(map: &Level) -> (r: Vec<Option<usize>>)
    requires
        map.wf(),
    ensures
        r@.len() == map.data@.len(),
        forall|p: Vector2|
            #[trigger] in_bounds_spec(map.size, p) ==> pushes_to_target_bound(
                map@,
                p,
                r@[index_of(map.size, p)],
            ),
{
    let w = map.size.x;
    let h = map.size.y;
    let mut table: Vec<Option<usize>> = Vec::new();
    let mut y: i32 = 0;
    while y < h
        invariant
            map.wf(),
            w == map.size.x,
            h == map.size.y,
            0 <= y <= h,
            table@.len() == y * w,
            forall|p: Vector2|
                #[trigger] in_bounds_spec(map.size, p) && index_of(map.size, p) < table@.len()
                    ==> pushes_to_target_bound(map@, p, table@[index_of(map.size, p)]),
        decreases h - y,
    {
        let mut x: i32 = 0;
        while x < w
            invariant
                map.wf(),
                w == map.size.x,
                h == map.size.y,
                0 <= y < h,
                0 <= x <= w,
                table@.len() == y * w + x,
                forall|p: Vector2|
                    #[trigger] in_bounds_spec(map.size, p) && index_of(map.size, p) < table@.len()
                        ==> pushes_to_target_bound(map@, p, table@[index_of(map.size, p)]),
            decreases w - x,
        {
            let p = Vector2::new(x, y);
            let value = if !(1 <= x && x < w - 1 && 1 <= y && y < h - 1) {
                None
            } else if has_flag_at(map, &p, TARGET) {
                Some(0)
            } else if !has_flag_at(map, &p, FLOOR) || is_wall(map, &p) {
                None
            } else {
                fewest_pushes_to_target(map, &p)
            };
            proof {
                assert(index_of(map.size, p) == table@.len());
                assert forall|q: Vector2|
                    #[trigger] in_bounds_spec(map.size, q) && index_of(map.size, q) < table@.len()
                        + 1 implies pushes_to_target_bound(
                    map@,
                    q,
                    table@.push(value)[index_of(map.size, q)],
                ) by {
                    if index_of(map.size, q) == table@.len() {
                        lemma_index_injective(map.size, q, p);
                    }
                }
            }
            table.push(value);
            x = x + 1;
        }
        assert(table@.len() == (y + 1) * w) by (nonlinear_arith)
            requires
                table@.len() == y * w + w,
        ;
        y = y + 1;
    }
    proof {
        assert(table@.len() == w * h) by (nonlinear_arith)
            requires
                table@.len() == h * w,
        ;
        assert forall|p: Vector2| #[trigger] in_bounds_spec(map.size, p) implies index_of(
            map.size,
            p,
        ) < table@.len() by {
            lemma_index_bounds(map.size, p);
        }
    }
    table
}

/// A lower bound that counts moves of the player, pushes included: zero on a
/// target; none off the cells inside the outer ring and off the floor;
/// elsewhere present only where moves bring the crate alone onto a target,
/// and then the fewest moves that do it, at least one; and, where a table
/// of one entry per pair of cells fits in memory, present wherever moves do.
pub open spec fn moves_to_target_bound(v: LevelView, p: Vector2, e: Option<usize>) -> bool {
    if !interior(v.size, p) {
        e is None
    } else if flag_at(v, p, TARGET) {
        e == Some(0usize)
    } else if !flag_at(v, p, FLOOR) || wall_at(v, p) {
        e is None
    } else {
        &&& e matches Some(k) ==> k >= 1 && fewest_moves(v, p, k as nat)
        &&& v.tiles.len() * v.tiles.len() <= usize::MAX ==> ((e is Some) <==> movable_to_target(v, p))
    }
}

/// The lower bounds by the moves of the player: for each floor cell inside
/// the outer ring, the fewest moves, pushes included, that bring a crate from
/// it onto a target, zero on targets.
fn minimum_move_lower_bounds(map: &Level) -> (r: Vec<Option<usize>>)
    requires
        map.wf(),
    ensures
        r@.len() == map.data@.len(),
        forall|p: Vector2|
            #[trigger] in_bounds_spec(map.size, p) ==> moves_to_target_bound(
                map@,
                p,
                r@[index_of(map.size, p)],
            ),
{
    let w = map.size.x;
    let h = map.size.y;
    let mut table: Vec<Option<usize>> = Vec::new();
    let mut y: i32 = 0;
    while y < h
        invariant
            map.wf(),
            w == map.size.x,
            h == map.size.y,
            0 <= y <= h,
            table@.len() == y * w,
            forall|p: Vector2|
                #[trigger] in_bounds_spec(map.size, p) && index_of(map.size, p) < table@.len()
                    ==> moves_to_target_bound(map@, p, table@[index_of(map.size, p)]),
        decreases h - y,
    {
        let mut x: i32 = 0;
        while x < w
            invariant
                map.wf(),
                w == map.size.x,
                h == map.size.y,
                0 <= y < h,
                0 <= x <= w,
                table@.len() == y * w + x,
                forall|p: Vector2|
                    #[trigger] in_bounds_spec(map.size, p) && index_of(map.size, p) < table@.len()
                        ==> moves_to_target_bound(map@, p, table@[index_of(map.size, p)]),
            decreases w - x,
        {
            let p = Vector2::new(x, y);
            let value = if !(1 <= x && x < w - 1 && 1 <= y && y < h - 1) {
                None
            } else if has_flag_at(map, &p, TARGET) {
                Some(0)
            } else if !has_flag_at(map, &p, FLOOR) || is_wall(map, &p) {
                None
            } else {
                fewest_moves_from(map, p)
            };
            proof {
                assert(index_of(map.size, p) == table@.len());
                assert forall|q: Vector2|
                    #[trigger] in_bounds_spec(map.size, q) && index_of(map.size, q) < table@.len()
                        + 1 implies moves_to_target_bound(
                    map@,
                    q,
                    table@.push(value)[index_of(map.size, q)],
                ) by {
                    if index_of(map.size, q) == table@.len() {
                        lemma_index_injective(map.size, q, p);
                    }
                }
            }
            table.push(value);
            x = x + 1;
        }
        assert(table@.len() == (y + 1) * w) by (nonlinear_arith)
            requires
                table@.len() == y * w + w,
        ;
        y = y + 1;
    }
    proof {
        assert(table@.len() == w * h) by (nonlinear_arith)
            requires
                table@.len() == h * w,
        ;
        assert forall|p: Vector2| #[trigger] in_bounds_spec(map.size, p) implies index_of(
            map.size,
            p,
        ) < table@.len() by {
            lemma_index_bounds(map.size, p);
        }
    }
    table
}

/// The lower bound of every cell by the chosen method, in row-major order.
fn calculate_lower_bounds(map: &Level, method: LowerBoundMethod) -> (r: Vec<Option<usize>>)
    requires
        map.wf(),
        method == LowerBoundMethod::ManhattanDistance ==> map.target_positions@.len() > 0,
    ensures
        r@.len() == map.data@.len(),
        zero_only_on_targets(map@, r@),
        method == LowerBoundMethod::ManhattanDistance ==> forall|p: Vector2|
            #[trigger] in_bounds_spec(map.size, p) ==> r@[index_of(map.size, p)]
                == manhattan_bound(map@, map.target_positions@, p),
        method == LowerBoundMethod::MinimumMove ==> forall|p: Vector2|
            #[trigger] in_bounds_spec(map.size, p) ==> moves_to_target_bound(
                map@,
                p,
                r@[index_of(map.size, p)],
            ),
        method == LowerBoundMethod::MinimumPush ==> forall|p: Vector2|
            #[trigger] in_bounds_spec(map.size, p) ==> pushes_to_target_bound(
                map@,
                p,
                r@[index_of(map.size, p)],
            ),
{
    match method {
        LowerBoundMethod::MinimumMove => {
            let table = minimum_move_lower_bounds(map);
            proof {
                assert forall|p: Vector2| #[trigger] entry_at(table@, map.size, p) == Some(0usize) implies flag_at(
                    map@,
                    p,
                    TARGET,
                ) by {
                    assert(moves_to_target_bound(map@, p, table@[index_of(map.size, p)]));
                }
            }
            table
        },
        LowerBoundMethod::MinimumPush => {
            let table = minimum_push_lower_bounds(map);
            proof {
                assert forall|p: Vector2| #[trigger] entry_at(table@, map.size, p) == Some(0usize) implies flag_at(
                    map@,
                    p,
                    TARGET,
                ) by {
                    assert(pushes_to_target_bound(map@, p, table@[index_of(map.size, p)]));
                }
            }
            table
        },
        LowerBoundMethod::ManhattanDistance => {
            let table = manhattan_distance_lower_bounds(map);
            proof {
                lemma_manhattan_zero_on_targets(map, table@);
            }
            table
        },
    }
}

/// Whether `i` is the first index of a state of smallest priority in `heap`.
pub open spec fn is_best(heap: Seq<State>, i: int) -> bool {
    &&& 0 <= i < heap.len()
    &&& forall|j: int| 0 <= j < heap.len() ==> heap[i].heuristic <= #[trigger] heap[j].heuristic
    &&& forall|j: int| 0 <= j < i ==> #[trigger] heap[j].heuristic > heap[i].heuristic
}

/// The first index of a state of smallest priority in `heap`.
pub open spec fn best_at(heap: Seq<State>) -> int {
    choose|i: int| is_best(heap, i)
}

/// Only one index is the first of smallest priority.
proof fn lemma_best_unique(heap: Seq<State>, i: int)
    requires
        is_best(heap, i),
    ensures
        best_at(heap) == i,
{
    let j = best_at(heap);
    assert(is_best(heap, j));
    if j < i {
        assert(heap[j].heuristic > heap[i].heuristic);
        assert(heap[i].heuristic <= heap[j].heuristic);
    } else if i < j {
        assert(heap[i].heuristic > heap[j].heuristic);
        assert(heap[j].heuristic <= heap[i].heuristic);
    }
}

/// The hash by which the search tells states apart: of the grid with the
/// crates and the normalized player marked.
pub open spec fn state_hash(start: LevelView, s: State) -> u64 {
    tiles_sip_hash(
        state_key(
            start.size,
            area_anchor(open_fn(start, WALL, s.box_positions@.to_set()), s.player_position),
            s.box_positions@,
        ),
    )
}

/// The states of `ss`, in order, whose hash is new when they come: not in
/// `seen` nor the hash of an earlier state of `ss`.
pub open spec fn kept(start: LevelView, seen: Set<u64>, ss: Seq<State>) -> Seq<State>
    decreases ss.len(),
{
    if ss.len() == 0 {
        seq![]
    } else {
        let h = state_hash(start, ss[0]);
        if seen.contains(h) {
            kept(start, seen, ss.drop_first())
        } else {
            seq![ss[0]] + kept(start, seen.insert(h), ss.drop_first())
        }
    }
}

/// `seen` with the hashes of the states of `ss`.
pub open spec fn seen_after(start: LevelView, seen: Set<u64>, ss: Seq<State>) -> Set<u64>
    decreases ss.len(),
{
    if ss.len() == 0 {
        seen
    } else {
        seen_after(start, seen.insert(state_hash(start, ss[0])), ss.drop_first())
    }
}

/// Each state kept adds one hash.
proof fn lemma_kept_len(start: LevelView, seen: Set<u64>, ss: Seq<State>)
    requires
        seen.finite(),
    ensures
        seen_after(start, seen, ss).finite(),
        kept(start, seen, ss).len() + seen.len() == seen_after(start, seen, ss).len(),
    decreases ss.len(),
{
    if ss.len() > 0 {
        let h = state_hash(start, ss[0]);
        lemma_kept_len(start, seen.insert(h), ss.drop_first());
        if seen.contains(h) {
            assert(seen.insert(h) =~= seen);
        }
    }
}

/// Whether `succ` are the successors of state `s`, as `State::successors`
/// gives them.
pub open spec fn expands(solver: Solver, s: State, succ: Seq<State>) -> bool {
    &&& forall|j: int| 0 <= j < succ.len() ==> solver.state_ok(#[trigger] succ[j])
    &&& forall|j: int|
        0 <= j < succ.len() ==> (#[trigger] succ[j]).actions@.len() > s.actions@.len()
            && succ[j].actions@.subrange(0, s.actions@.len() as int) == s.actions@
            && succ[j].actions@.last() is Push
    &&& forall|j: int| 0 <= j < succ.len() ==> walk_then_push(s.actions@.len() as int, #[trigger] succ[j].actions@)
    &&& forall|j: int|
        0 <= j < succ.len() ==> shortest_walk_then_push(
            solver.start(),
            s.box_positions@,
            s.player_position,
            s.actions@.len() as int,
            #[trigger] succ[j].actions@,
        )
    &&& places(succ) == successors_upto(
        solver.start(),
        solver.bounds(),
        solver.wall_list(),
        s.player_position,
        s.box_positions@,
        s.box_positions@.len(),
    )
}

impl Solver {
    /// The index of the first state of smallest priority.
    fn best_index(&self) -> (r: usize)
        requires
            self.heap@.len() > 0,
        ensures
            r < self.heap@.len(),
            forall|j: int|
                0 <= j < self.heap@.len() ==> self.heap@[r as int].heuristic <= #[trigger] self.heap@[j].heuristic,
            forall|j: int| 0 <= j < r ==> #[trigger] self.heap@[j].heuristic > self.heap@[r as int].heuristic,
    {
        let mut best: usize = 0;
        let mut i: usize = 1;
        while i < self.heap.len()
            invariant
                1 <= i <= self.heap@.len(),
                best < i,
                forall|j: int|
                    0 <= j < i ==> self.heap@[best as int].heuristic <= #[trigger] self.heap@[j].heuristic,
                forall|j: int|
                    0 <= j < best ==> #[trigger] self.heap@[j].heuristic > self.heap@[best as int].heuristic,
            decreases self.heap@.len() - i,
        {
            if self.heap[i].heuristic < self.heap[best].heuristic {
                best = i;
            }
            i = i + 1;
        }
        best
    }

    /// The state of smallest priority still to look at, the first of them
    /// where several share it; `None` when none is left.
    pub fn best_state(&self) -> (r: Option<&State>)
        ensures
            r is None <==> self.frontier().len() == 0,
            r matches Some(s) ==> (self.frontier().contains(*s) && forall|j: int|
                0 <= j < self.frontier().len() ==> s.priority() <= #[trigger] self.frontier()[j].priority()),
            self.frontier().len() > 0 ==> is_best(self.frontier(), best_at(self.frontier())) && (r matches Some(s)
                && *s == self.frontier()[best_at(self.frontier())]),
    {
        if self.heap.len() == 0 {
            None
        } else {
            let i = self.best_index();
            proof {
                lemma_best_unique(self.heap@, i as int);
            }
            Some(&self.heap[i])
        }
    }

    /// Removes and returns the state that `best_state` gives.
    fn pop_best(&mut self) -> (r: Option<State>)
        requires
            old(self).wf(),
        ensures
            final(self).wf(),
            same_tables(*final(self), *old(self)),
            final(self).visited@ == old(self).visited@,
            old(self).heap@.len() == 0 ==> r is None && final(self).heap@.len() == 0,
            old(self).heap@.len() > 0 ==> (r matches Some(s) && old(self).state_ok(s)
                && final(self).heap@.len() == old(self).heap@.len() - 1),
            old(self).heap@.len() > 0 ==> is_best(old(self).heap@, best_at(old(self).heap@)),
            old(self).heap@.len() > 0 ==> r == Some(old(self).heap@[best_at(old(self).heap@)])
                && final(self).heap@ == old(self).heap@.remove(best_at(old(self).heap@)),
    {
        if self.heap.len() == 0 {
            None
        } else {
            let i = self.best_index();
            let ghost before = self.heap@;
            proof {
                lemma_best_unique(before, i as int);
            }
            let state = self.heap.remove(i);
            proof {
                assert(self.heap@ == before.remove(i as int));
                assert forall|j: int| 0 <= j < self.heap@.len() implies self.state_ok(
                    #[trigger] self.heap@[j],
                ) by {
                    if j < i {
                        assert(self.heap@[j] == before[j]);
                    } else {
                        assert(self.heap@[j] == before[j + 1]);
                    }
                }
            }
            Some(state)
        }
    }

    /// The strategy that orders the search.
    pub fn strategy(&self) -> (r: Strategy)
        ensures
            r == self.chosen_strategy(),
    {
        self.strategy
    }

    /// The lower bound of every cell, in row-major order: `None` where a crate
    /// cannot reach a target or is not considered.
    pub fn lower_bounds(&self) -> (r: &Vec<Option<usize>>)
        ensures
            r@ == self.bounds(),
    {
        &self.lower_bounds
    }

    /// For every cell, in row-major order, and every direction in the order
    /// up, down, left, right: whether a push from that cell enters a tunnel.
    pub fn tunnels(&self) -> (r: &Vec<[bool; 4]>)
        ensures
            r@ == self.tunnel_table(),
    {
        &self.tunnels
    }

    /// One step of the search, the time limit having passed or not: takes the
    /// first state of smallest priority off the frontier; with the time up,
    /// reports a timeout; with a solved state, returns its movements;
    /// otherwise adds to the frontier, in order, the successors of the state
    /// whose hash is new, taking their hashes in, and goes on (`None`). An
    /// empty frontier means no solution.
    pub fn search_step(&mut self, timed_out: bool) -> (r: Option<Result<Movements, SolveError>>)
        requires
            old(self).wf(),
        ensures
            final(self).wf(),
            same_tables(*final(self), *old(self)),
            final(self).start() == old(self).start(),
            old(self).frontier().len() == 0 ==> r == Some(Err::<Movements, SolveError>(SolveError::NoSolution))
                && final(self).frontier() == old(self).frontier() && final(self).seen() == old(self).seen(),
            r matches Some(Ok(ms)) ==> solves(old(self).start(), ms@),
            old(self).frontier().len() > 0 ==> is_best(old(self).frontier(), best_at(old(self).frontier())),
            old(self).frontier().len() > 0 ==> ({
                let i = best_at(old(self).frontier());
                let s = old(self).frontier()[i];
                let rest = old(self).frontier().remove(i);
                &&& timed_out ==> r == Some(Err::<Movements, SolveError>(SolveError::Timeout))
                    && final(self).frontier() == rest && final(self).seen() == old(self).seen()
                &&& !timed_out && s.bound() == 0 ==> (r matches Some(Ok(ms)) && ms@ == s.actions@)
                    && final(self).frontier() == rest && final(self).seen() == old(self).seen()
                &&& !timed_out && s.bound() != 0 ==> r is None && exists|succ: Seq<State>|
                    #[trigger] expands(*old(self), s, succ) && final(self).frontier() == rest + kept(
                        old(self).start(),
                        old(self).seen(),
                        succ,
                    ) && final(self).seen() == seen_after(old(self).start(), old(self).seen(), succ)
            }),
    {
        broadcast use vstd::std_specs::hash::group_hash_axioms;
        let state = match self.pop_best() {
            None => {
                return Some(Err(SolveError::NoSolution));
            },
            Some(state) => state,
        };
        if timed_out {
            return Some(Err(SolveError::Timeout));
        }
        if state.is_solved(self) {
            return Some(Ok(state.actions));
        }
        let mut successors = state.successors(self);
        let ghost startv = self.map@;
        let ghost succ0 = successors@;
        let ghost seen0 = self.visited@;
        let ghost base = self.heap@;
        let ghost tables = *self;
        proof {
            lemma_u64_set_len(self.visited@);
            assert(base + kept(startv, seen0, succ0) =~= self.heap@ + kept(startv, self.visited@, successors@));
        }
        while successors.len() > 0
            invariant
                self.wf(),
                same_tables(*self, tables),
                self.map@ == startv,
                forall|j: int| 0 <= j < successors@.len() ==> self.state_ok(#[trigger] successors@[j]),
                self.visited@.finite(),
                self.heap@ + kept(startv, self.visited@, successors@) == base + kept(startv, seen0, succ0),
                seen_after(startv, self.visited@, successors@) == seen_after(startv, seen0, succ0),
            decreases successors@.len(),
        {
            let ghost before = successors@;
            let ghost heap_before = self.heap@;
            let ghost vis_before = self.visited@;
            let successor = successors.remove(0);
            proof {
                assert(successors@ =~= before.drop_first());
                assert forall|j: int| 0 <= j < successors@.len() implies self.state_ok(
                    #[trigger] successors@[j],
                ) by {
                    assert(successors@[j] == before[j + 1]);
                }
            }
            let hash = successor.normalized_hash(self);
            assert(hash == state_hash(startv, before[0]));
            if self.visited.insert(hash) {
                self.heap.push(successor);
                proof {
                    assert(self.heap@ + kept(startv, self.visited@, successors@) =~= heap_before + kept(
                        startv,
                        vis_before,
                        before,
                    ));
                }
            } else {
                proof {
                    assert(self.visited@ =~= vis_before);
                }
            }
        }
        proof {
            assert(self.heap@ + kept(startv, self.visited@, successors@) =~= self.heap@);
            assert(expands(*old(self), state, succ0));
        }
        None
    }

    /// Searches for a solution until one is found, none is left to look at, or
    /// `timeout` has passed. A solution found is a list of movements that the
    /// board can make one after the other from the start of the level and
    /// that leaves every crate on a target. With `OptimalMovePush` it has the
    /// fewest moves of all solutions and the fewest pushes among those; with
    /// `OptimalPushMove` the fewest pushes, and the fewest moves among those;
    /// with either, `NoSolution` means that the level has no solution. These
    /// two search from the start of the level, cheapest position first; the
    /// others go best state first, each round reading the clock and making one
    /// `search_step`.
    pub fn search(&mut self, timeout: Duration) -> (r: Result<Movements, SolveError>)
        requires
            old(self).wf(),
        ensures
            final(self).wf(),
            final(self).start() == old(self).start(),
            r matches Ok(ms) ==> solves(old(self).start(), ms@),
            r == Err::<Movements, SolveError>(SolveError::NoSolution) ==> final(self).frontier().len()
                == 0,
            old(self).chosen_strategy() != Strategy::OptimalMovePush && old(self).chosen_strategy()
                != Strategy::OptimalPushMove && old(self).frontier().len() == 0 ==> r == Err::<
                Movements,
                SolveError,
            >(SolveError::NoSolution),
            old(self).chosen_strategy() == Strategy::OptimalMovePush ==> (r matches Ok(ms) ==> forall|q: Seq<Movement>|
                #[trigger] solves(old(self).start(), q) ==> ms@.len() < q.len() || (ms@.len() == q.len()
                    && count_pushes(ms@) <= count_pushes(q))),
            old(self).chosen_strategy() == Strategy::OptimalPushMove ==> (r matches Ok(ms) ==> forall|q: Seq<Movement>|
                #[trigger] solves(old(self).start(), q) ==> count_pushes(ms@) < count_pushes(q) || (count_pushes(ms@)
                    == count_pushes(q) && ms@.len() <= q.len())),
            (old(self).chosen_strategy() == Strategy::OptimalMovePush || old(self).chosen_strategy()
                == Strategy::OptimalPushMove) && r == Err::<Movements, SolveError>(SolveError::NoSolution)
                ==> forall|q: Seq<Movement>| !#[trigger] solves(old(self).start(), q),
    {
        broadcast use vstd::std_specs::hash::group_hash_axioms;
        if self.strategy == Strategy::OptimalMovePush || self.strategy == Strategy::OptimalPushMove {
            let r = optimal_search(&self.map, self.strategy, timeout);
            proof {
                match &r {
                    Ok(ms) => {
                        assert forall|q: Seq<Movement>| #[trigger] solves(self.map@, q) implies lex_le(
                            cost_of(self.strategy, ms@),
                            cost_of(self.strategy, q),
                        ) by {}
                    },
                    _ => {},
                }
            }
            if let Err(SolveError::NoSolution) = r {
                self.heap = Vec::new();
            }
            return r;
        }
        if self.heap.len() == 0 {
            return Err(SolveError::NoSolution);
        }
        let timer = now();
        let limit = as_nanos(timeout);
        let i = self.best_index();
        let hash = self.heap[i].normalized_hash(self);
        self.visited.insert(hash);
        let ghost start = self.map@;
        loop
            invariant
                self.wf(),
                self.map@ == start,
                start == old(self).map@,
                old(self).frontier().len() > 0,
                old(self).chosen_strategy() != Strategy::OptimalMovePush,
                old(self).chosen_strategy() != Strategy::OptimalPushMove,
            decreases 0x1_0000_0000_0000_0000 - self.visited@.len(), self.heap@.len(),
        {
            proof {
                lemma_u64_set_len(self.visited@);
            }
            let ghost pre = *self;
            let timed_out = as_nanos(elapsed(&timer)) >= limit;
            match self.search_step(timed_out) {
                Some(r) => {
                    return r;
                },
                None => {
                    proof {
                        let fr = pre.frontier();
                        let succ = choose|succ: Seq<State>|
                            #[trigger] expands(pre, fr[best_at(fr)], succ) && self.frontier() == fr.remove(
                                best_at(fr),
                            ) + kept(pre.start(), pre.seen(), succ) && self.seen() == seen_after(
                                pre.start(),
                                pre.seen(),
                                succ,
                            );
                        lemma_kept_len(pre.start(), pre.seen(), succ);
                        lemma_u64_set_len(self.visited@);
                    }
                },
            }
        }
    }
}

} // verus!
