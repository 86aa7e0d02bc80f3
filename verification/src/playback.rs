use vstd::prelude::*;
use crate::vector::Vector2;
use crate::direction::{Direction, step, step_back, steppable, lemma_step_back_step};
use crate::level::{LevelView, view_wf, open_fn, in_bounds_spec};
use crate::tile::WALL;
use crate::reach::{reachable, reach_within, adjacent, lemma_reachable_start, lemma_reachable_step, lemma_closed_contains_reachable};
use crate::path::{path_ok, player_open};
use crate::replay::{wall_at, same_ground, lemma_apply_keeps_ground};
use crate::board::{apply, action_of, BoardView, do_spec};
use crate::movement::Movement;
use crate::interaction::{
    paths_to, first_shortest, path_for, click_order,
    walk, shortest_walk, apply_all, do_dirs, lemma_walk_shape, push_plan, lemma_apply_all_split, direction_between,
};
use crate::pushable::{PushState, push_chain, push_edge, push_start, reached_along, push_path_ok};
use crate::solver::lemma_push_step;

verus! {

/// Playing steps on a board plays them on its level.
pub proof fn lemma_do_dirs_map(b: BoardView, ds: Seq<Direction>)
    ensures
        do_dirs(b, ds).map == apply_all(b.map, ds),
    decreases ds.len(),
{
    if ds.len() > 0 {
        lemma_do_dirs_map(b, ds.drop_last());
    }
}

/// Steps keep a level well formed and its ground unchanged.
pub proof fn lemma_apply_all_ground(v: LevelView, ds: Seq<Direction>)
    requires
        view_wf(v),
    ensures
        view_wf(apply_all(v, ds)),
        same_ground(v, apply_all(v, ds)),
    decreases ds.len(),
{
    if ds.len() > 0 {
        lemma_apply_all_ground(v, ds.drop_last());
        lemma_apply_keeps_ground(apply_all(v, ds.drop_last()), ds.last());
    }
}

/// A cell reached through cells free of walls and of `boxes` is the end of a
/// path through such cells.
proof fn lemma_reach_within_path(v: LevelView, boxes: Set<Vector2>, a: Vector2, n: nat, p: Vector2)
    requires
        reach_within(open_fn(v, WALL, boxes), a, n).contains(p),
    ensures
        exists|q: Seq<Vector2>| path_ok(v, boxes, a, p, q),
    decreases n,
{
    let open = open_fn(v, WALL, boxes);
    if n == 0 {
        assert(path_ok(v, boxes, a, p, seq![a]));
    } else {
        let r = reach_within(open, a, (n - 1) as nat);
        if r.contains(p) {
            lemma_reach_within_path(v, boxes, a, (n - 1) as nat, p);
        } else {
            let q0 = choose|q: Vector2| #[trigger] r.contains(q) && adjacent(q, p);
            lemma_reach_within_path(v, boxes, a, (n - 1) as nat, q0);
            let q = choose|q: Seq<Vector2>| path_ok(v, boxes, a, q0, q);
            let q2 = q.push(p);
            assert forall|k: int| 1 <= k < q2.len() implies adjacent(q2[k - 1], #[trigger] q2[k]) && player_open(
                v,
                boxes,
                q2[k],
            ) by {
                if k < q.len() {
                    assert(q2[k] == q[k] && q2[k - 1] == q[k - 1]);
                }
            }
            assert(path_ok(v, boxes, a, p, q2));
        }
    }
}

/// A reachable cell is the end of a path.
pub proof fn lemma_reachable_path(v: LevelView, boxes: Set<Vector2>, a: Vector2, p: Vector2)
    requires
        reachable(open_fn(v, WALL, boxes), a, p),
    ensures
        exists|q: Seq<Vector2>| path_ok(v, boxes, a, p, q),
{
    let n = choose|n: nat| #[trigger] reach_within(open_fn(v, WALL, boxes), a, n).contains(p);
    lemma_reach_within_path(v, boxes, a, n, p);
}

/// Walking the player along a path through cells free of walls and crates
/// brings it to the end of the path and moves no crate.
pub proof fn lemma_walk_moves(v: LevelView, target: Vector2, ds: Seq<Direction>)
    requires
        view_wf(v),
        path_ok(v, v.crates, v.player, target, walk(v.player, ds)),
    ensures
        apply_all(v, ds).player == target,
        apply_all(v, ds).crates == v.crates,
        view_wf(apply_all(v, ds)),
        same_ground(v, apply_all(v, ds)),
    decreases ds.len(),
{
    lemma_walk_shape(v.player, ds);
    lemma_apply_all_ground(v, ds);
    if ds.len() > 0 {
        let pre = ds.drop_last();
        let wk = walk(v.player, ds);
        let wp = walk(v.player, pre);
        lemma_walk_shape(v.player, pre);
        assert(wk == wp.push(step(wp.last(), ds.last())));
        let mid = wp.last();
        assert forall|k: int| 1 <= k < wp.len() implies adjacent(wp[k - 1], #[trigger] wp[k]) && player_open(
            v,
            v.crates,
            wp[k],
        ) by {
            assert(wp[k] == wk[k] && wp[k - 1] == wk[k - 1]);
        }
        assert(path_ok(v, v.crates, v.player, mid, wp));
        lemma_walk_moves(v, mid, pre);
        let w = apply_all(v, pre);
        let d = ds.last();
        let next = step(w.player, d);
        assert(next == wk[wk.len() - 1]);
        assert(player_open(v, v.crates, wk[wk.len() - 1]));
        assert(!wall_at(w, next));
        assert(action_of(w, d) == Some(Movement::Move(d)));
    }
}

/// The direction from a cell to the next one in direction `d` is `d`.
pub proof fn lemma_direction_of_step(p: Vector2, d: Direction)
    requires
        steppable(p),
    ensures
        direction_between(p, step(p, d)) == d,
{
}

/// What the player reaches depends only on the ground and the obstacles.
proof fn lemma_reach_same_ground(v0: LevelView, w: LevelView, boxes: Set<Vector2>, a: Vector2, c: Vector2)
    requires
        same_ground(v0, w),
        reachable(open_fn(v0, WALL, boxes), a, c),
    ensures
        reachable(open_fn(w, WALL, boxes), a, c),
{
    let ov = open_fn(v0, WALL, boxes);
    let ow = open_fn(w, WALL, boxes);
    let f = Set::new(|x: Vector2| reachable(ow, a, x));
    lemma_reachable_start(ow, a);
    assert forall|q: Vector2, r: Vector2| #[trigger] f.contains(q) && adjacent(q, r) && ov(r) implies #[trigger] f.contains(r) by {
        assert(wall_at(w, r) == wall_at(v0, r));
        lemma_reachable_step(ow, a, q, r);
    }
    lemma_closed_contains_reachable(ov, a, f, c);
}

/// The first step of a plan: a shortest walk behind the crate, the push,
/// and the plan for the rest of the path.
proof fn lemma_plan_head(w: LevelView, p: Seq<Vector2>, ds: Seq<Direction>, lens: Seq<nat>)
    requires
        p.len() >= 2,
        push_plan(w, p, ds, lens),
    ensures
        lens.len() >= 1,
        lens[0] < ds.len(),
        shortest_walk(w, step_back(p[0], direction_between(p[0], p[1])), ds.take(lens[0] as int)),
        ds[lens[0] as int] == direction_between(p[0], p[1]),
        push_plan(
            apply_all(w, ds.take(lens[0] as int + 1)),
            p.drop_first(),
            ds.skip(lens[0] as int + 1),
            lens.drop_first(),
        ),
{
}

/// A shortest walk to a cell the player reaches brings it there, moving no
/// crate.
proof fn lemma_walk_to(w: LevelView, behind: Vector2, ws: Seq<Direction>)
    requires
        view_wf(w),
        reachable(open_fn(w, WALL, w.crates), w.player, behind),
        shortest_walk(w, behind, ws),
    ensures
        apply_all(w, ws).player == behind,
        apply_all(w, ws).crates == w.crates,
        view_wf(apply_all(w, ws)),
        same_ground(w, apply_all(w, ws)),
{
    lemma_reachable_path(w, w.crates, w.player, behind);
    reveal(shortest_walk);
    lemma_walk_moves(w, behind, ws);
}

/// One step of a plan: the walk behind the crate and the push move the
/// crate from the `i`-th cell of the run to the next, the player to where
/// the crate was.
proof fn lemma_plan_window(
    v0: LevelView,
    init: Set<Vector2>,
    start: Vector2,
    ss: Seq<PushState>,
    path: Seq<Vector2>,
    i: int,
    w: LevelView,
    ds: Seq<Direction>,
    lens: Seq<nat>,
)
    requires
        view_wf(w),
        same_ground(v0, w),
        push_chain(v0, init, start, ss),
        ss.len() == path.len(),
        forall|k: int| 0 <= k < ss.len() ==> (#[trigger] ss[k]).box_position == path[k],
        0 <= i,
        i + 1 < path.len(),
        w.crates == init.remove(start).insert(path[i]),
        reachable(open_fn(v0, WALL, w.crates), w.player, step_back(path[i], ss[i + 1].push_direction)),
        push_plan(w, path.subrange(i, path.len() as int), ds, lens),
    ensures
        lens.len() >= 1,
        lens[0] < ds.len(),
        view_wf(apply_all(w, ds.take(lens[0] as int + 1))),
        same_ground(v0, apply_all(w, ds.take(lens[0] as int + 1))),
        apply_all(w, ds.take(lens[0] as int + 1)).crates == init.remove(start).insert(path[i + 1]),
        apply_all(w, ds.take(lens[0] as int + 1)).player == step_back(path[i + 1], ss[i + 1].push_direction),
        push_plan(
            apply_all(w, ds.take(lens[0] as int + 1)),
            path.subrange(i + 1, path.len() as int),
            ds.skip(lens[0] as int + 1),
            lens.drop_first(),
        ),
{
    let p = path.subrange(i, path.len() as int);
    let t = ss[i + 1];
    let d = t.push_direction;
    assert(push_edge(v0, init, start, ss[i + 1 - 1], ss[i + 1]));
    assert(ss[i].box_position == path[i] && t.box_position == path[i + 1]);
    assert(p[0] == path[i] && p[1] == path[i + 1]);
    assert(w.crates.contains(path[i]));
    assert(steppable(path[i]));
    lemma_direction_of_step(path[i], d);
    lemma_plan_head(w, p, ds, lens);
    let n = lens[0] as int;
    let ws = ds.take(n);
    let behind = step_back(path[i], d);
    lemma_reach_same_ground(v0, w, w.crates, w.player, behind);
    lemma_walk_to(w, behind, ws);
    let w1 = apply_all(w, ws);
    lemma_step_back_step(path[i], d);
    assert(same_ground(v0, w1)) by {
        assert forall|q: Vector2| #[trigger] wall_at(w1, q) == wall_at(v0, q) by {
            assert(wall_at(w1, q) == wall_at(w, q));
        }
    }
    lemma_push_step(v0, w1, d);
    let w2 = apply(w1, d);
    assert(w2.crates =~= init.remove(start).insert(path[i + 1]));
    assert(ds.take(n + 1).drop_last() =~= ws);
    assert(apply_all(w, ds.take(n + 1)) == w2);
    assert(p.drop_first() =~= path.subrange(i + 1, path.len() as int));
}

/// Playing a plan that pushes a crate along a run of pushes found for it,
/// from the `i`-th cell of the run on, moves that crate, and no other, to
/// the end of the run.
proof fn lemma_plan_moves(
    v0: LevelView,
    init: Set<Vector2>,
    start: Vector2,
    ss: Seq<PushState>,
    path: Seq<Vector2>,
    i: int,
    w: LevelView,
    ds: Seq<Direction>,
    lens: Seq<nat>,
)
    requires
        view_wf(w),
        same_ground(v0, w),
        push_chain(v0, init, start, ss),
        ss.len() == path.len(),
        forall|k: int| 0 <= k < ss.len() ==> (#[trigger] ss[k]).box_position == path[k],
        0 <= i < path.len(),
        w.crates == init.remove(start).insert(path[i]),
        i + 1 < path.len() ==> reachable(
            open_fn(v0, WALL, w.crates),
            w.player,
            step_back(path[i], ss[i + 1].push_direction),
        ),
        push_plan(w, path.subrange(i, path.len() as int), ds, lens),
    ensures
        apply_all(w, ds).crates == init.remove(start).insert(path.last()),
    decreases path.len() - i,
{
    if i + 1 == path.len() {
        assert(path.subrange(i, path.len() as int).len() == 1);
        assert(ds.len() == 0);
        assert(apply_all(w, ds) == w);
    } else {
        lemma_plan_window(v0, init, start, ss, path, i, w, ds, lens);
        let n = lens[0] as int;
        let w2 = apply_all(w, ds.take(n + 1));
        if i + 2 < path.len() {
            assert(push_edge(v0, init, start, ss[i + 2 - 1], ss[i + 2]));
            assert(ss[i + 1].box_position == path[i + 1]);
        }
        lemma_plan_moves(v0, init, start, ss, path, i + 1, w2, ds.skip(n + 1), lens.drop_first());
        lemma_apply_all_split(w, ds, n + 1);
    }
}

/// Playing a plan that pushes a crate along a path found for it moves that
/// crate, and no other, to the end of the path.
pub proof fn law_push_plan_moves_crate(
    b: BoardView,
    position: Vector2,
    t: PushState,
    path: Seq<Vector2>,
    ds: Seq<Direction>,
    lens: Seq<nat>,
)
    requires
        view_wf(b.map),
        b.map.crates.contains(position),
        reached_along(b.map, b.map.crates, position, t, path),
        push_plan(b.map, path, ds, lens),
    ensures
        do_dirs(b, ds).map.crates == b.map.crates.remove(position).insert(path.last()),
{
    let v = b.map;
    let init = v.crates;
    let ss = choose|ss: Seq<PushState>|
        push_chain(v, init, position, ss) && ss.last() == t && ss.len() == path.len() && forall|k: int|
            0 <= k < ss.len() ==> (#[trigger] ss[k]).box_position == path[k];
    assert(push_start(v, init, position, ss[0]));
    assert(path[0] == position);
    assert(init.remove(position).insert(position) =~= init);
    if 1 < path.len() {
        assert(push_edge(v, init, position, ss[1 - 1], ss[1]));
        let x = step_back(position, ss[0].push_direction);
        assert(reachable(open_fn(v, WALL, init), v.player, x));
        assert(reachable(open_fn(v, WALL, init), x, step_back(path[0], ss[1].push_direction)));
        crate::similar::lemma_reach_trans(open_fn(v, WALL, init), v.player, x, step_back(path[0], ss[1].push_direction));
    }
    assert(path.subrange(0, path.len() as int) =~= path);
    assert(same_ground(v, v));
    assert(v.crates == init.remove(position).insert(path[0]));
    lemma_plan_moves(v, init, position, ss, path, 0, v, ds, lens);
    lemma_do_dirs_map(b, ds);
}

/// Walking the player along a shortest walk to a cell it can reach brings it
/// there and moves no crate.
pub proof fn law_walk_reaches_target(b: BoardView, target: Vector2, ds: Seq<Direction>)
    requires
        view_wf(b.map),
        reachable(open_fn(b.map, WALL, b.map.crates), b.map.player, target),
        shortest_walk(b.map, target, ds),
    ensures
        do_dirs(b, ds).map.player == target,
        do_dirs(b, ds).map.crates == b.map.crates,
{
    lemma_reachable_path(b.map, b.map.crates, b.map.player, target);
    reveal(shortest_walk);
    lemma_walk_moves(b.map, target, ds);
    lemma_do_dirs_map(b, ds);
}

/// The first of the shortest paths of a non-empty list is one of them.
proof fn lemma_first_shortest_in(cs: Seq<Seq<Vector2>>)
    requires
        cs.len() > 0,
    ensures
        exists|j: int| 0 <= j < cs.len() && cs[j] == first_shortest(cs),
    decreases cs.len(),
{
    if cs.len() > 1 {
        lemma_first_shortest_in(cs.drop_last());
        let j = choose|j: int| 0 <= j < cs.drop_last().len() && cs.drop_last()[j] == first_shortest(cs.drop_last());
        assert(cs[j] == cs.drop_last()[j]);
        assert(cs[cs.len() - 1] == cs.last());
    } else {
        assert(cs[0] == first_shortest(cs));
    }
}

/// Each path that brings a crate to `p` is the path of an entry for `p`.
proof fn lemma_paths_to_entries(paths: Seq<(PushState, Vec<Vector2>)>, p: Vector2, n: nat, j: int)
    requires
        0 <= j < paths_to(paths, p, n).len(),
    ensures
        exists|i: int| 0 <= i < paths.len() && paths[i].0.box_position == p && paths[i].1@ == paths_to(paths, p, n)[j],
    decreases n,
{
    if n > 0 {
        let prev = paths_to(paths, p, (n - 1) as nat);
        let s = PushState { box_position: p, push_direction: click_order()[n - 1] };
        if j < prev.len() {
            match path_for(paths, s) {
                Some(q) => {
                    assert(paths_to(paths, p, n)[j] == prev[j]);
                },
                None => {},
            }
            lemma_paths_to_entries(paths, p, (n - 1) as nat, j);
        } else {
            assert(path_for(paths, s) is Some);
            let i = choose|i: int| 0 <= i < paths.len() && (#[trigger] paths[i]).0 == s;
            assert(paths[i].0.box_position == p);
        }
    }
}

/// A click on a cell to which the selected crate can be pushed pushes that
/// crate, and only it, onto the cell: the steps that the click gives, played
/// on the board, leave the crate there and the other crates where they were.
pub proof fn law_click_pushes_crate(
    b: BoardView,
    position: Vector2,
    paths: Seq<(PushState, Vec<Vector2>)>,
    grid: Vector2,
    ds: Seq<Direction>,
)
    requires
        view_wf(b.map),
        b.map.crates.contains(position),
        forall|i: int|
            0 <= i < paths.len() ==> push_path_ok(b.map, position, (#[trigger] paths[i]).0, paths[i].1@) && reached_along(
                b.map,
                b.map.crates,
                position,
                paths[i].0,
                paths[i].1@,
            ),
        paths_to(paths, grid, 4).len() > 0,
        exists|lens: Seq<nat>| push_plan(b.map, first_shortest(paths_to(paths, grid, 4)), ds, lens),
    ensures
        do_dirs(b, ds).map.crates == b.map.crates.remove(position).insert(grid),
{
    let cs = paths_to(paths, grid, 4);
    lemma_first_shortest_in(cs);
    let j = choose|j: int| 0 <= j < cs.len() && cs[j] == first_shortest(cs);
    lemma_paths_to_entries(paths, grid, 4, j);
    let i = choose|i: int| 0 <= i < paths.len() && paths[i].0.box_position == grid && paths[i].1@ == cs[j];
    assert(push_path_ok(b.map, position, paths[i].0, paths[i].1@));
    let lens = choose|lens: Seq<nat>| push_plan(b.map, first_shortest(cs), ds, lens);
    law_push_plan_moves_crate(b, position, paths[i].0, paths[i].1@, ds, lens);
}

} // verus!
