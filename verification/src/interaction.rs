use vstd::prelude::*;
use crate::vector::{Vector2, vsub};
use crate::direction::{Direction, step, step_back, step_exec, dir_of_vec, steppable, all_directions};
use crate::solver::{flag_at, cells_with_flag, has_flag_at};
use crate::deadlock::{interior, floor_enclosed, static_dead_cells, static_deadlocks};
use crate::level::in_bounds_spec;
use crate::board::Board;
use crate::pushable::{PushState, push_path_ok, box_pushable_paths, push_reachable, listed, reached_along};
use crate::reach::reachable;
use crate::level::open_fn;
use crate::tile::Tile;
use crate::positions::contains_position;
use crate::level::{Level, LevelView};
use crate::tile::{has_flag, PLAYER, CRATE, TARGET, WALL, FLOOR};
use crate::reach::adjacent;
use crate::path::path_ok;
use crate::board::{apply, BoardView, do_spec, solved_spec};
use crate::movement::{Movement, Movements, movement_direction};
use crate::replay::{do_all, law_solution_solves_board};
use crate::solver::{Solver, SolveError, Strategy, solves, best_at};
use std::time::Duration;
use crate::replay::wall_at;

verus! {

/// The cells visited by walking the directions `ds` from `start`, `start` first.
pub open spec fn walk(start: Vector2, ds: Seq<Direction>) -> Seq<Vector2>
    decreases ds.len(),
{
    if ds.len() == 0 {
        seq![start]
    } else {
        let prev = walk(start, ds.drop_last());
        prev.push(step(prev.last(), ds.last()))
    }
}

/// Whether `ds` walks the player of `v` to `target` along a shortest path
/// through cells holding no wall and no crate, or is empty where no path
/// leads there.
#[verifier::opaque]
pub open spec fn shortest_walk(v: LevelView, target: Vector2, ds: Seq<Direction>) -> bool {
    if exists|q: Seq<Vector2>| path_ok(v, v.crates, v.player, target, q) {
        &&& path_ok(v, v.crates, v.player, target, walk(v.player, ds))
        &&& forall|q: Seq<Vector2>| path_ok(v, v.crates, v.player, target, q) ==> ds.len() + 1 <= q.len()
    } else {
        ds.len() == 0
    }
}

/// A walk is one cell longer than its directions and starts where it starts.
pub(crate) proof fn lemma_walk_shape(start: Vector2, ds: Seq<Direction>)
    ensures
        walk(start, ds).len() == ds.len() + 1,
        walk(start, ds)[0] == start,
    decreases ds.len(),
{
    if ds.len() > 0 {
        lemma_walk_shape(start, ds.drop_last());
    }
}

/// The direction of the step between two adjacent cells.
proof fn lemma_adjacent_direction(p: Vector2, q: Vector2)
    requires
        adjacent(p, q),
    ensures
        dir_of_vec(vsub(q, p)) is Some,
        step(p, dir_of_vec(vsub(q, p)).unwrap()) == q,
{
}

/// The directions of the steps of a path of adjacent cells.
pub(crate) fn path_directions(path: &Vec<Vector2>) -> (r: Vec<Direction>)
    requires
        path@.len() >= 1,
        forall|k: int| 1 <= k < path@.len() ==> adjacent(path@[k - 1], #[trigger] path@[k]),
    ensures
        walk(path@[0], r@) == path@,
{
    let mut r: Vec<Direction> = Vec::new();
    let mut i: usize = 1;
    proof {
        assert(walk(path@[0], r@) =~= path@.take(1));
    }
    while i < path.len()
        invariant
            1 <= i <= path@.len(),
            forall|k: int| 1 <= k < path@.len() ==> adjacent(path@[k - 1], #[trigger] path@[k]),
            walk(path@[0], r@) == path@.take(i as int),
        decreases path@.len() - i,
    {
        let p = path[i - 1];
        let q = path[i];
        proof {
            assert(adjacent(path@[i - 1], path@[i as int]));
            lemma_adjacent_direction(p, q);
        }
        let d = Direction::from_vector(q.sub(&p)).unwrap();
        let ghost before = r@;
        r.push(d);
        proof {
            assert(r@.drop_last() == before);
            lemma_walk_shape(path@[0], before);
            assert(walk(path@[0], before).last() == p);
            assert(walk(path@[0], r@) =~= path@.take(i + 1));
        }
        i = i + 1;
    }
    proof {
        assert(path@.take(path@.len() as int) =~= path@);
    }
    r
}

/// The level after the steps `ds`, each moving the player or pushing a crate
/// where it can.
pub open spec fn apply_all(v: LevelView, ds: Seq<Direction>) -> LevelView
    decreases ds.len(),
{
    if ds.len() == 0 {
        v
    } else {
        apply(apply_all(v, ds.drop_last()), ds.last())
    }
}

/// The direction of the step from a cell to an adjacent one.
pub open spec fn direction_between(p: Vector2, q: Vector2) -> Direction {
    dir_of_vec(vsub(q, p)).unwrap()
}

/// Whether `ds` pushes a crate along `path` on `v`, `lens` giving the lengths
/// of the walks: for each step of the path, a shortest walk of the player to
/// the cell behind the crate (none where no walk leads there), then a step
/// in the direction of the push.
pub open spec fn push_plan(v: LevelView, path: Seq<Vector2>, ds: Seq<Direction>, lens: Seq<nat>) -> bool
    decreases path.len(),
{
    if path.len() <= 1 {
        ds.len() == 0 && lens.len() == 0
    } else {
        let d = direction_between(path[0], path[1]);
        let n = lens[0] as int;
        &&& lens.len() >= 1
        &&& n < ds.len()
        &&& shortest_walk(v, step_back(path[0], d), ds.take(n))
        &&& ds[n] == d
        &&& push_plan(apply_all(v, ds.take(n + 1)), path.drop_first(), ds.skip(n + 1), lens.drop_first())
    }
}

/// A level without its metadata.
pub open spec fn without_metadata(v: LevelView) -> LevelView {
    LevelView { metadata: Seq::empty(), ..v }
}

/// Steps taken one after another are taken from where the first ones left off.
pub(crate) proof fn lemma_apply_all_split(v: LevelView, ds: Seq<Direction>, k: int)
    requires
        0 <= k <= ds.len(),
    ensures
        apply_all(apply_all(v, ds.take(k)), ds.skip(k)) == apply_all(v, ds),
    decreases ds.len(),
{
    if k == ds.len() {
        assert(ds.take(k) =~= ds);
        assert(ds.skip(k) =~= Seq::<Direction>::empty());
    } else {
        let s = ds.drop_last();
        lemma_apply_all_split(v, s, k);
        assert(ds.take(k) =~= s.take(k));
        assert(ds.skip(k).drop_last() =~= s.skip(k));
        assert(ds.skip(k).last() == ds.last());
    }
}

/// Metadata plays no part in the steps.
proof fn lemma_apply_all_metadata(v: LevelView, ds: Seq<Direction>)
    ensures
        apply_all(without_metadata(v), ds) == without_metadata(apply_all(v, ds)),
    decreases ds.len(),
{
    if ds.len() > 0 {
        lemma_apply_all_metadata(v, ds.drop_last());
    }
}

/// Metadata plays no part in the walks.
proof fn lemma_shortest_walk_metadata(v: LevelView, t: Vector2, ws: Seq<Direction>)
    ensures
        shortest_walk(without_metadata(v), t, ws) == shortest_walk(v, t, ws),
{
    reveal(shortest_walk);
    let w = without_metadata(v);
    assert forall|q: Seq<Vector2>| path_ok(w, w.crates, w.player, t, q) == path_ok(v, v.crates, v.player, t, q) by {
        assert forall|k: int| 0 <= k < q.len() implies wall_at(w, q[k]) == wall_at(v, q[k]) by {}
    }
}

/// A plan made on a level without its metadata is a plan on the level.
pub(crate) proof fn lemma_plan_metadata(v: LevelView, path: Seq<Vector2>, ds: Seq<Direction>, lens: Seq<nat>)
    requires
        push_plan(without_metadata(v), path, ds, lens),
    ensures
        push_plan(v, path, ds, lens),
    decreases path.len(),
{
    if path.len() > 1 {
        let d = direction_between(path[0], path[1]);
        let n = lens[0] as int;
        lemma_shortest_walk_metadata(v, step_back(path[0], d), ds.take(n));
        lemma_apply_all_metadata(v, ds.take(n + 1));
        lemma_plan_metadata(apply_all(v, ds.take(n + 1)), path.drop_first(), ds.skip(n + 1), lens.drop_first());
    }
}

/// A plan grows by one more step of the path: a walk behind the crate, then the push.
pub(crate) proof fn lemma_plan_extend(
    v: LevelView,
    path: Seq<Vector2>,
    ds: Seq<Direction>,
    lens: Seq<nat>,
    x: Vector2,
    ws: Seq<Direction>,
)
    requires
        path.len() >= 1,
        push_plan(v, path, ds, lens),
        shortest_walk(apply_all(v, ds), step_back(path.last(), direction_between(path.last(), x)), ws),
    ensures
        push_plan(
            v,
            path.push(x),
            ds + ws + seq![direction_between(path.last(), x)],
            lens.push(ws.len()),
        ),
    decreases path.len(),
{
    let d = direction_between(path.last(), x);
    let nds = ds + ws + seq![d];
    let np = path.push(x);
    let nl = lens.push(ws.len());
    if path.len() == 1 {
        assert(ds =~= Seq::<Direction>::empty());
        assert(nds.take(ws.len() as int) =~= ws);
        assert(nds.skip(ws.len() as int + 1) =~= Seq::<Direction>::empty());
        assert(np.drop_first() =~= seq![x]);
        assert(nl.drop_first() =~= Seq::<nat>::empty());
        assert(apply_all(v, ds) == v);
        assert(np[0] == path.last() && np[1] == x);
        assert(nl[0] == ws.len());
        assert(nds[ws.len() as int] == d);
        assert(push_plan(apply_all(v, nds.take(ws.len() as int + 1)), np.drop_first(), nds.skip(ws.len() as int + 1), nl.drop_first()));
        assert(shortest_walk(v, step_back(np[0], d), nds.take(ws.len() as int)));
    } else {
        let n = lens[0] as int;
        let rest = ds.skip(n + 1);
        let v1 = apply_all(v, ds.take(n + 1));
        lemma_apply_all_split(v, ds, n + 1);
        assert(path.drop_first().last() == path.last());
        lemma_plan_extend(v1, path.drop_first(), rest, lens.drop_first(), x, ws);
        assert(nds.take(n) =~= ds.take(n));
        assert(nds.take(n + 1) =~= ds.take(n + 1));
        assert(nds.skip(n + 1) =~= rest + ws + seq![d]);
        assert(np.drop_first() =~= path.drop_first().push(x));
        assert(nl.drop_first() =~= lens.drop_first().push(ws.len()));
        assert(np[0] == path[0] && np[1] == path[1]);
        assert(nl[0] == lens[0]);
        assert(nds[n] == ds[n]);
        assert(push_plan(apply_all(v, nds.take(n + 1)), np.drop_first(), nds.skip(n + 1), nl.drop_first()));
        assert(shortest_walk(v, step_back(np[0], direction_between(np[0], np[1])), nds.take(n)));
    }
}

/// A copy of a level without its metadata.
pub(crate) fn grid_copy(map: &Level) -> (r: Level)
    requires
        map.wf(),
    ensures
        r.wf(),
        r@ == without_metadata(map@),
{
    let r = Level {
        data: map.data.clone(),
        size: map.size,
        metadata: Vec::new(),
        player_position: map.player_position,
        crate_positions: map.crate_positions.clone(),
        target_positions: map.target_positions.clone(),
    };
    assert(r.data@ =~= map.data@);
    assert(r.crate_positions@ =~= map.crate_positions@);
    assert(r.target_positions@ =~= map.target_positions@);
    assert forall|p: Vector2| #![trigger r.tile(p)] r.in_bounds_spec(p) implies {
        &&& has_flag(r.tile(p), PLAYER) == (p == r.player_position)
        &&& has_flag(r.tile(p), CRATE) == r.crate_positions@.contains(p)
        &&& has_flag(r.tile(p), TARGET) == r.target_positions@.contains(p)
        &&& has_flag(r.tile(p), WALL) ==> !has_flag(r.tile(p), PLAYER) && !has_flag(r.tile(p), CRATE)
    } by {
        assert(r.tile(p) == map.tile(p));
    }
    r
}

/// The screens of the game.
#[derive(Clone, Copy, PartialEq, Eq, Debug, Structural)]
pub enum AppState {
    Main,
    AutoMove,
    AutoSolve,
}

/// What an automatic move is about: the player, or a crate with the paths
/// along which it can be pushed.
pub enum AutoMoveState {
    Player,
    Box { position: Vector2, paths: Vec<(PushState, Vec<Vector2>)> },
}

/// What a click leads to: the next screen, the automatic move in progress
/// and the steps for the player to take, first step first.
pub struct ClickOutcome {
    pub state: AppState,
    pub auto_move: AutoMoveState,
    pub directions: Vec<Direction>,
}

/// The order in which a click tries the directions of a push.
pub open spec fn click_order() -> Seq<Direction> {
    seq![Direction::Up, Direction::Right, Direction::Down, Direction::Left]
}

/// The path of the entry of `paths` for the push state `s`, if any.
pub open spec fn path_for(paths: Seq<(PushState, Vec<Vector2>)>, s: PushState) -> Option<Seq<Vector2>> {
    if exists|i: int| 0 <= i < paths.len() && (#[trigger] paths[i]).0 == s {
        Some(paths[choose|i: int| 0 <= i < paths.len() && (#[trigger] paths[i]).0 == s].1@)
    } else {
        None
    }
}

/// The paths of `paths` that bring the crate to `p`, taken in the order of
/// the first `n` directions of `click_order`.
pub open spec fn paths_to(paths: Seq<(PushState, Vec<Vector2>)>, p: Vector2, n: nat) -> Seq<Seq<Vector2>>
    decreases n,
{
    if n == 0 {
        Seq::empty()
    } else {
        let prev = paths_to(paths, p, (n - 1) as nat);
        match path_for(paths, PushState { box_position: p, push_direction: click_order()[n - 1] }) {
            Some(q) => prev.push(q),
            None => prev,
        }
    }
}

/// The first of the shortest paths of a list.
pub open spec fn first_shortest(cs: Seq<Seq<Vector2>>) -> Seq<Vector2>
    decreases cs.len(),
{
    if cs.len() <= 1 {
        cs[0]
    } else {
        let r = first_shortest(cs.drop_last());
        if cs.last().len() < r.len() {
            cs.last()
        } else {
            r
        }
    }
}

/// Whether the entries of `paths` have distinct push states and paths of
/// adjacent cells.
pub open spec fn paths_ok(paths: Seq<(PushState, Vec<Vector2>)>) -> bool {
    &&& forall|a: int, b: int| 0 <= a < b < paths.len() ==> (#[trigger] paths[a]).0 != (#[trigger] paths[b]).0
    &&& forall|i: int, k: int|
        0 <= i < paths.len() && 1 <= k < paths[i].1@.len() ==> adjacent(
            paths[i].1@[k - 1],
            #[trigger] paths[i].1@[k],
        )
    &&& forall|i: int, k: int| 0 <= i < paths.len() && 0 <= k < paths[i].1@.len() ==> steppable(#[trigger] paths[i].1@[k])
}

/// The index of the entry of `paths` for the push state `s`, if any.
fn find_entry(paths: &Vec<(PushState, Vec<Vector2>)>, s: &PushState) -> (r: Option<usize>)
    requires
        paths_ok(paths@),
    ensures
        match r {
            Some(i) => i < paths@.len() && paths@[i as int].0 == *s && path_for(paths@, *s) == Some(paths@[i as int].1@),
            None => path_for(paths@, *s) is None,
        },
{
    let mut i: usize = 0;
    while i < paths.len()
        invariant
            i <= paths@.len(),
            paths_ok(paths@),
            forall|k: int| 0 <= k < i ==> (#[trigger] paths@[k]).0 != *s,
        decreases paths@.len() - i,
    {
        if paths[i].0 == *s {
            proof {
                let j = choose|j: int| 0 <= j < paths@.len() && (#[trigger] paths@[j]).0 == *s;
                if j != i {
                    if j < i {
                        assert(paths@[j].0 != *s);
                    } else {
                        assert((paths@[i as int]).0 != (paths@[j]).0);
                    }
                }
            }
            return Some(i);
        }
        i = i + 1;
    }
    None
}

/// Where a click on cell `grid_position` leads. On the main screen a click
/// on a crate starts an automatic move of that crate, a click on the player
/// an automatic move of the player, and a click elsewhere walks the player
/// there. During an automatic move of the player a click walks the player
/// there; during one of a crate a click on a cell to which the crate can be
/// pushed pushes it along the first of the shortest such paths, unless the
/// crate is already there. Every click of an automatic move ends it.
pub fn mouse_click(board: &Board, state: AppState, auto_move: AutoMoveState, grid_position: Vector2) -> (r:
    ClickOutcome)
    requires
        board.wf(),
        state != AppState::AutoSolve,
        state == AppState::AutoMove ==> (auto_move matches AutoMoveState::Box { paths, .. } ==> paths_ok(paths@)),
    ensures
        state == AppState::Main && board@.map.crates.contains(grid_position) ==> r.state
            == AppState::AutoMove && r.directions@.len() == 0 && (r.auto_move matches AutoMoveState::Box { position, paths } && position == grid_position && paths@.len() == 0),
        state == AppState::Main && !board@.map.crates.contains(grid_position) && board@.map.player == grid_position
            ==> r.state == AppState::AutoMove && r.directions@.len() == 0 && r.auto_move is Player,
        state == AppState::Main && !board@.map.crates.contains(grid_position) && board@.map.player != grid_position
            ==> r.state == AppState::Main && r.auto_move == auto_move && shortest_walk(board@.map, grid_position, r.directions@),
        state == AppState::AutoMove && auto_move is Player ==> r.state == AppState::Main && r.auto_move == auto_move
            && shortest_walk(board@.map, grid_position, r.directions@),
        state == AppState::AutoMove ==> (auto_move matches AutoMoveState::Box { position, paths } ==> {
            let cs = paths_to(paths@, grid_position, 4);
            &&& r.state == AppState::Main
            &&& r.auto_move == auto_move
            &&& (cs.len() == 0 || position == grid_position) ==> r.directions@.len() == 0
            &&& cs.len() > 0 && position != grid_position ==> exists|lens: Seq<nat>|
                push_plan(board@.map, first_shortest(cs), r.directions@, lens)
        }),
{
    let map = board.map();
    match state {
        AppState::Main => {
            if contains_position(&map.crate_positions, &grid_position) {
                return ClickOutcome {
                    state: AppState::AutoMove,
                    auto_move: AutoMoveState::Box { position: grid_position, paths: Vec::new() },
                    directions: Vec::new(),
                };
            } else if map.player_position == grid_position {
                return ClickOutcome {
                    state: AppState::AutoMove,
                    auto_move: AutoMoveState::Player,
                    directions: Vec::new(),
                };
            }
            let directions = board.directions_to(&grid_position);
            ClickOutcome { state: AppState::Main, auto_move, directions }
        },
        _ => {
            match auto_move {
                AutoMoveState::Player => {
                    let directions = board.directions_to(&grid_position);
                    ClickOutcome { state: AppState::Main, auto_move: AutoMoveState::Player, directions }
                },
                AutoMoveState::Box { position, paths } => {
                    let directions = push_click(board, position, &paths, grid_position);
                    let r = ClickOutcome {
                        state: AppState::Main,
                        auto_move: AutoMoveState::Box { position, paths },
                        directions,
                    };
                    assert(r.auto_move == auto_move);
                    assert(r.directions@ == directions@);
                    r
                },
            }
        },
    }
}

/// The steps of a click on `grid_position` while the crate at `position` is
/// selected, the paths it can be pushed along being `paths`.
fn push_click(board: &Board, position: Vector2, paths: &Vec<(PushState, Vec<Vector2>)>, grid_position: Vector2) -> (r:
    Vec<Direction>)
    requires
        board.wf(),
        paths_ok(paths@),
    ensures
        ({
            let cs = paths_to(paths@, grid_position, 4);
            &&& (cs.len() == 0 || position == grid_position) ==> r@.len() == 0
            &&& cs.len() > 0 && position != grid_position ==> exists|lens: Seq<nat>|
                push_plan(board@.map, first_shortest(cs), r@, lens)
        }),
{
    let order = [Direction::Up, Direction::Right, Direction::Down, Direction::Left];
    let mut best: Option<usize> = None;
    let mut k: usize = 0;
    while k < 4
        invariant
            k <= 4,
            order@ == click_order(),
            paths_ok(paths@),
            match best {
                None => paths_to(paths@, grid_position, k as nat).len() == 0,
                Some(i) => i < paths@.len() && paths_to(paths@, grid_position, k as nat).len() > 0
                    && paths@[i as int].1@ == first_shortest(paths_to(paths@, grid_position, k as nat)),
            },
            paths_to(paths@, grid_position, k as nat).len() > 0 ==> position != grid_position,
        decreases 4 - k,
    {
        let s = PushState { box_position: grid_position, push_direction: order[k] };
        let ghost prev = paths_to(paths@, grid_position, k as nat);
        match find_entry(paths, &s) {
            Some(i) => {
                if position == grid_position {
                    proof {
                        lemma_paths_to_monotone(paths@, grid_position, (k + 1) as nat, 4);
                    }
                    return Vec::new();
                }
                proof {
                    assert(paths_to(paths@, grid_position, (k + 1) as nat) == prev.push(paths@[i as int].1@));
                    assert(prev.push(paths@[i as int].1@).drop_last() == prev);
                }
                match best {
                    None => {
                        best = Some(i);
                    },
                    Some(b) => {
                        if paths[i].1.len() < paths[b].1.len() {
                            best = Some(i);
                        }
                    },
                }
            },
            None => {
                proof {
                    assert(paths_to(paths@, grid_position, (k + 1) as nat) == prev);
                }
            },
        }
        k = k + 1;
    }
    match best {
        None => Vec::new(),
        Some(i) => {
            board.push_directions(&paths[i].1)
        },
    }
}

/// Once a path to a cell is found, later directions keep it found.
proof fn lemma_paths_to_monotone(paths: Seq<(PushState, Vec<Vector2>)>, p: Vector2, m: nat, n: nat)
    requires
        m <= n,
    ensures
        paths_to(paths, p, m).len() <= paths_to(paths, p, n).len(),
    decreases n - m,
{
    if m < n {
        lemma_paths_to_monotone(paths, p, m, (n - 1) as nat);
    }
}

/// Whether a step brought a crate onto a target, took one off, or neither.
#[derive(Clone, Copy, PartialEq, Eq, Debug, Structural)]
pub enum GoalChange {
    Entered,
    Left,
    Unchanged,
}

/// The number of targets of a level that hold a crate.
pub open spec fn occupied_targets(v: LevelView) -> nat {
    v.crates.intersect(v.targets).len()
}

/// How the number of targets holding a crate changes from `a` to `b`.
pub open spec fn goal_change(a: LevelView, b: LevelView) -> GoalChange {
    if occupied_targets(b) > occupied_targets(a) {
        GoalChange::Entered
    } else if occupied_targets(b) < occupied_targets(a) {
        GoalChange::Left
    } else {
        GoalChange::Unchanged
    }
}

/// What a step reports: how the targets holding a crate changed, and whether
/// the level is then solved.
pub struct StepReport {
    pub goal_change: GoalChange,
    pub solved: bool,
}

/// The board after the steps `ds`, first step first.
pub open spec fn do_dirs(b: BoardView, ds: Seq<Direction>) -> BoardView
    decreases ds.len(),
{
    if ds.len() == 0 {
        b
    } else {
        do_spec(do_dirs(b, ds.drop_last()), ds.last())
    }
}

/// The number of cells of `s` that lie in `t`.
pub open spec fn count_in(s: Seq<Vector2>, t: Set<Vector2>) -> nat
    decreases s.len(),
{
    if s.len() == 0 {
        0
    } else {
        count_in(s.drop_last(), t) + if t.contains(s.last()) {
            1nat
        } else {
            0nat
        }
    }
}

/// Counting the cells of a list without repeats that lie in a set counts the
/// cells of both.
proof fn lemma_count_in(s: Seq<Vector2>, t: Set<Vector2>)
    requires
        s.no_duplicates(),
    ensures
        s.to_set().intersect(t).finite(),
        s.to_set().intersect(t).len() == count_in(s, t),
    decreases s.len(),
{
    if s.len() == 0 {
        assert(s.to_set().intersect(t) =~= Set::empty());
    } else {
        let p = s.drop_last();
        let x = s.last();
        assert(p.no_duplicates()) by {
            assert forall|i: int, j: int| 0 <= i < p.len() && 0 <= j < p.len() && i != j implies p[i] != p[j] by {
                assert(s[i] != s[j]);
            }
        }
        lemma_count_in(p, t);
        assert(s.to_set() =~= p.to_set().insert(x)) by {
            assert forall|y: Vector2| s.to_set().contains(y) implies p.to_set().insert(x).contains(y) by {
                let i = choose|i: int| 0 <= i < s.len() && s[i] == y;
                if i < s.len() - 1 {
                    assert(p[i] == y);
                }
            }
            assert forall|y: Vector2| p.to_set().insert(x).contains(y) implies s.to_set().contains(y) by {
                if y != x {
                    let i = choose|i: int| 0 <= i < p.len() && p[i] == y;
                    assert(s[i] == y);
                } else {
                    assert(s[s.len() - 1] == y);
                }
            }
        }
        assert(!p.to_set().contains(x)) by {
            if p.to_set().contains(x) {
                let i = choose|i: int| 0 <= i < p.len() && p[i] == x;
                assert(s[i] == s[s.len() - 1]);
            }
        }
        if t.contains(x) {
            assert(s.to_set().intersect(t) =~= p.to_set().intersect(t).insert(x));
        } else {
            assert(s.to_set().intersect(t) =~= p.to_set().intersect(t));
        }
    }
}

/// The number of targets of a level that hold a crate.
fn count_occupied(map: &Level) -> (r: usize)
    requires
        map.wf(),
    ensures
        r == occupied_targets(map@),
{
    let crates = &map.crate_positions;
    let mut count: usize = 0;
    let mut i: usize = 0;
    while i < crates.len()
        invariant
            i <= crates@.len(),
            count <= i,
            count == count_in(crates@.take(i as int), map@.targets),
            map@.targets == map.target_positions@.to_set(),
        decreases crates@.len() - i,
    {
        let found = contains_position(&map.target_positions, &crates[i]);
        proof {
            assert(crates@.take(i + 1).drop_last() =~= crates@.take(i as int));
            assert(crates@.take(i + 1).last() == crates@[i as int]);
        }
        if found {
            count = count + 1;
        }
        i = i + 1;
    }
    proof {
        assert(crates@.take(crates@.len() as int) =~= crates@);
        lemma_count_in(crates@, map@.targets);
    }
    count
}

/// Takes one step, as the animated walk does: moves or pushes, and reports
/// whether a crate came onto a target or left one, and whether the level is
/// then solved.
pub fn take_step(board: &mut Board, direction: Direction) -> (r: StepReport)
    requires
        old(board).wf(),
    ensures
        final(board).wf(),
        final(board)@ == do_spec(old(board)@, direction),
        r.goal_change == goal_change(old(board)@.map, final(board)@.map),
        r.solved == solved_spec(final(board)@.map),
{
    let before = count_occupied(board.map());
    board.do_action(direction);
    let after = count_occupied(board.map());
    let goal_change = if after > before {
        GoalChange::Entered
    } else if after < before {
        GoalChange::Left
    } else {
        GoalChange::Unchanged
    };
    StepReport { goal_change, solved: board.is_solved() }
}

/// Takes all the steps at once, first step first, as the instant walk does,
/// and tells whether the level is then solved.
pub fn take_all_steps(board: &mut Board, directions: &Vec<Direction>) -> (r: bool)
    requires
        old(board).wf(),
    ensures
        final(board).wf(),
        final(board)@ == do_dirs(old(board)@, directions@),
        r == solved_spec(final(board)@.map),
{
    let ghost b0 = board@;
    let mut i: usize = 0;
    while i < directions.len()
        invariant
            i <= directions@.len(),
            board.wf(),
            board@ == do_dirs(b0, directions@.take(i as int)),
        decreases directions@.len() - i,
    {
        board.do_action(directions[i]);
        proof {
            assert(directions@.take(i + 1).drop_last() =~= directions@.take(i as int));
        }
        i = i + 1;
    }
    proof {
        assert(directions@.take(directions@.len() as int) =~= directions@);
    }
    board.is_solved()
}

/// The directions of a list of movements.
pub open spec fn directions_of(ms: Seq<Movement>) -> Seq<Direction> {
    ms.map_values(|m: Movement| movement_direction(m))
}

/// Stepping in the directions of movements is stepping along the movements.
proof fn lemma_do_dirs_movements(b: BoardView, ms: Seq<Movement>)
    ensures
        do_dirs(b, directions_of(ms)) == do_all(b, ms),
    decreases ms.len(),
{
    if ms.len() > 0 {
        lemma_do_dirs_movements(b, ms.drop_last());
        assert(directions_of(ms).drop_last() =~= directions_of(ms.drop_last()));
    }
}

/// The directions of the movements of a list.
fn movement_directions(ms: &Movements) -> (r: Vec<Direction>)
    ensures
        r@ == directions_of(ms@),
{
    let mut r: Vec<Direction> = Vec::new();
    let mut i: usize = 0;
    while i < ms.0.len()
        invariant
            i <= ms@.len(),
            ms@ == ms.0@,
            r@ == directions_of(ms@.take(i as int)),
        decreases ms@.len() - i,
    {
        r.push(ms.0[i].direction());
        proof {
            assert(directions_of(ms@.take(i + 1)) =~= directions_of(ms@.take(i as int)).push(
                movement_direction(ms@[i as int]),
            ));
        }
        i = i + 1;
    }
    proof {
        assert(ms@.take(ms@.len() as int) =~= ms@);
    }
    r
}

/// How automatic solving stands after a frame.
#[derive(Clone, Copy, PartialEq, Eq, Debug, Structural)]
pub enum SolveStatus {
    Solved,
    NoSolution,
    Searching,
}

/// What a frame of automatic solving leads to: how the search stands, the
/// next screen, the board to show and the steps for the player to take.
pub struct AutoSolveStep {
    pub status: SolveStatus,
    pub state: AppState,
    pub board: Board,
    pub directions: Vec<Direction>,
}

/// A board fresh at a level: no movement made or undone yet.
pub open spec fn fresh_board(v: LevelView) -> BoardView {
    BoardView { map: v, actions: Seq::empty(), undone_actions: Seq::empty() }
}

/// What a frame of automatic solving of the level `origin` leads to, given
/// what the search answered. On a solution, the player is to take its steps
/// from a fresh board of the level and the game returns to the main screen;
/// where there is none, it returns to the main screen; on a timeout the board
/// shows the first state of smallest priority on the frontier, the movements
/// of that state made from the start, and solving goes on.
pub fn auto_solve_outcome(solver: &Solver, origin: Level, outcome: Result<Movements, SolveError>) -> (r:
    AutoSolveStep)
    requires
        solver.wf(),
        origin.wf(),
        solver.start() == origin@,
        outcome matches Ok(ms) ==> solves(origin@, ms@),
    ensures
        r.board.wf(),
        outcome matches Ok(ms) ==> {
            &&& r.status == SolveStatus::Solved
            &&& r.state == AppState::Main
            &&& r.board@ == fresh_board(origin@)
            &&& r.directions@ == directions_of(ms@)
            &&& origin@.crates.len() == origin@.targets.len() ==> solved_spec(
                do_dirs(r.board@, r.directions@).map,
            )
        },
        outcome == Err::<Movements, SolveError>(SolveError::NoSolution) ==> {
            &&& r.status == SolveStatus::NoSolution
            &&& r.state == AppState::Main
            &&& r.board@ == fresh_board(origin@)
            &&& r.directions@.len() == 0
        },
        outcome == Err::<Movements, SolveError>(SolveError::Timeout) ==> {
            &&& r.status == SolveStatus::Searching
            &&& r.state == AppState::AutoSolve
            &&& r.directions@.len() == 0
            &&& solver.frontier().len() == 0 ==> r.board@ == fresh_board(origin@)
            &&& solver.frontier().len() > 0 ==> r.board@ == do_dirs(
                fresh_board(origin@),
                directions_of(solver.frontier()[best_at(solver.frontier())].actions@),
            )
        },
{
    let ghost v = origin@;
    proof {
        origin.lemma_wf_view();
    }
    let mut board = Board::with_map(origin);
    match outcome {
        Ok(solution) => {
            let directions = movement_directions(&solution);
            proof {
                lemma_do_dirs_movements(board@, solution@);
                if v.crates.len() == v.targets.len() {
                    law_solution_solves_board(board@, solution@);
                }
            }
            AutoSolveStep { status: SolveStatus::Solved, state: AppState::Main, board, directions }
        },
        Err(SolveError::NoSolution) => {
            AutoSolveStep {
                status: SolveStatus::NoSolution,
                state: AppState::Main,
                board,
                directions: Vec::new(),
            }
        },
        Err(SolveError::Timeout) => {
            match solver.best_state() {
                Some(best) => {
                    let steps = movement_directions(&best.actions);
                    take_all_steps(&mut board, &steps);
                },
                None => {},
            }
            AutoSolveStep {
                status: SolveStatus::Searching,
                state: AppState::AutoSolve,
                board,
                directions: Vec::new(),
            }
        },
    }
}

/// One frame of automatic solving of the level `origin`: searches for at
/// most `timeout`, then does what `auto_solve_outcome` says of the answer.
pub fn auto_solve_step(solver: &mut Solver, origin: Level, timeout: Duration) -> (r: AutoSolveStep)
    requires
        old(solver).wf(),
        origin.wf(),
        old(solver).start() == origin@,
    ensures
        final(solver).wf(),
        r.board.wf(),
        r.status == SolveStatus::Solved ==> {
            &&& r.state == AppState::Main
            &&& r.board@ == fresh_board(origin@)
            &&& exists|ms: Seq<Movement>| solves(origin@, ms) && r.directions@ == directions_of(ms)
            &&& origin@.crates.len() == origin@.targets.len() ==> solved_spec(
                do_dirs(r.board@, r.directions@).map,
            )
        },
        r.status == SolveStatus::NoSolution ==> {
            &&& r.state == AppState::Main
            &&& r.board@ == fresh_board(origin@)
            &&& r.directions@.len() == 0
            &&& final(solver).frontier().len() == 0
        },
        r.status == SolveStatus::Searching ==> {
            &&& r.state == AppState::AutoSolve
            &&& r.directions@.len() == 0
            &&& final(solver).frontier().len() == 0 ==> r.board@ == fresh_board(origin@)
            &&& final(solver).frontier().len() > 0 ==> r.board@ == do_dirs(
                fresh_board(origin@),
                directions_of(final(solver).frontier()[best_at(final(solver).frontier())].actions@),
            )
        },
        old(solver).chosen_strategy() != Strategy::OptimalMovePush && old(solver).chosen_strategy()
            != Strategy::OptimalPushMove && old(solver).frontier().len() == 0 ==> r.status
            == SolveStatus::NoSolution,
{
    let outcome = solver.search(timeout);
    let ghost o = outcome;
    let ghost v = origin@;
    let r = auto_solve_outcome(solver, origin, outcome);
    proof {
        match o {
            Ok(ms) => {
                assert(solves(v, ms@) && r.directions@ == directions_of(ms@));
            },
            Err(SolveError::NoSolution) => {},
            Err(SolveError::Timeout) => {},
        }
    }
    r
}

/// The cells of a level that hold flag `f`.
pub open spec fn flag_cells(v: LevelView, f: u8) -> Set<Vector2> {
    Set::new(|p: Vector2| flag_at(v, p, f))
}

/// Whether every floor cell of a level lies inside its border and each of
/// its four neighbours is floor or wall.
pub open spec fn enclosed(v: LevelView) -> bool {
    floor_enclosed(v.size, flag_cells(v, WALL), flag_cells(v, FLOOR))
}

/// The cells of a level that hold flag `f`, as a list.
fn flag_list(map: &Level, f: u8) -> (r: Vec<Vector2>)
    requires
        map.grid_wf(),
    ensures
        r@.to_set() == flag_cells(map@, f),
        forall|i: int| 0 <= i < r@.len() ==> in_bounds_spec(map.size, #[trigger] r@[i]),
{
    let r = cells_with_flag(map, f);
    assert(r@.to_set() =~= flag_cells(map@, f)) by {
        assert forall|p: Vector2| r@.to_set().contains(p) implies flag_cells(map@, f).contains(p) by {
            let i = choose|i: int| 0 <= i < r@.len() && r@[i] == p;
            assert(flag_at(map@, r@[i], f));
        }
    }
    assert forall|i: int| 0 <= i < r@.len() implies in_bounds_spec(map.size, #[trigger] r@[i]) by {
        assert(flag_at(map@, r@[i], f));
    }
    r
}

/// Whether every floor cell of a level lies inside its border and each of
/// its four neighbours is floor or wall.
fn is_enclosed(map: &Level) -> (r: bool)
    requires
        map.grid_wf(),
    ensures
        r == enclosed(map@),
{
    let w = map.size.x;
    let h = map.size.y;
    let dirs = Direction::all();
    let mut y: i32 = 0;
    while y < h
        invariant
            map.grid_wf(),
            w == map.size.x,
            h == map.size.y,
            0 <= y <= h,
            dirs@ == all_directions(),
            forall|p: Vector2| #[trigger] flag_at(map@, p, FLOOR) && p.y < y ==> interior(map.size, p)
                && forall|d: Direction| flag_at(map@, #[trigger] step(p, d), FLOOR) || flag_at(map@, step(p, d), WALL),
        decreases h - y,
    {
        let mut x: i32 = 0;
        while x < w
            invariant
                map.grid_wf(),
                w == map.size.x,
                h == map.size.y,
                0 <= y < h,
                0 <= x <= w,
                dirs@ == all_directions(),
                forall|p: Vector2| #[trigger] flag_at(map@, p, FLOOR) && (p.y < y || (p.y == y && p.x < x))
                    ==> interior(map.size, p) && forall|d: Direction|
                    flag_at(map@, #[trigger] step(p, d), FLOOR) || flag_at(map@, step(p, d), WALL),
            decreases w - x,
        {
            let p = Vector2::new(x, y);
            if has_flag_at(map, &p, FLOOR) {
                if !(1 <= x && x < w - 1 && 1 <= y && y < h - 1) {
                    proof {
                        assert(flag_cells(map@, FLOOR).contains(p));
                    }
                    return false;
                }
                let mut k: usize = 0;
                while k < 4
                    invariant
                        map.grid_wf(),
                        k <= 4,
                        dirs@ == all_directions(),
                        1 <= p.x < map.size.x - 1,
                        1 <= p.y < map.size.y - 1,
                        flag_at(map@, p, FLOOR),
                        forall|j: int| 0 <= j < k ==> flag_at(map@, #[trigger] step(p, all_directions()[j]), FLOOR)
                            || flag_at(map@, step(p, all_directions()[j]), WALL),
                    decreases 4 - k,
                {
                    let q = step_exec(&p, dirs[k]);
                    if !has_flag_at(map, &q, FLOOR) && !has_flag_at(map, &q, WALL) {
                        proof {
                            assert(flag_cells(map@, FLOOR).contains(p));
                            assert(!flag_cells(map@, FLOOR).contains(step(p, dirs@[k as int])));
                        }
                        return false;
                    }
                    k = k + 1;
                }
                proof {
                    assert forall|d: Direction| flag_at(map@, #[trigger] step(p, d), FLOOR) || flag_at(
                        map@,
                        step(p, d),
                        WALL,
                    ) by {
                        let j = crate::direction::dir_index(d);
                        assert(all_directions()[j] == d);
                    }
                }
            }
            x = x + 1;
        }
        y = y + 1;
    }
    proof {
        assert forall|p: Vector2| #[trigger] flag_cells(map@, FLOOR).contains(p) implies interior(map.size, p)
            && forall|d: Direction| flag_cells(map@, FLOOR).contains(#[trigger] step(p, d)) || flag_cells(
            map@,
            WALL,
        ).contains(step(p, d)) by {
            assert(flag_at(map@, p, FLOOR));
            assert forall|d: Direction| flag_cells(map@, FLOOR).contains(#[trigger] step(p, d)) || flag_cells(
                map@,
                WALL,
            ).contains(step(p, d)) by {
                assert(flag_at(map@, step(p, d), FLOOR) || flag_at(map@, step(p, d), WALL));
            }
        }
    }
    true
}

/// What entering an automatic move shows: the screen to be on, the
/// automatic move with the paths of its crate, and the cells to mark.
pub struct AutoMoveMarks {
    pub state: AppState,
    pub auto_move: AutoMoveState,
    pub marks: Vec<Vector2>,
}

/// The cells where the crate of some entry of `paths` ends.
pub open spec fn path_ends(paths: Seq<(PushState, Vec<Vector2>)>) -> Set<Vector2> {
    Set::new(|q: Vector2| exists|i: int| 0 <= i < paths.len() && (#[trigger] paths[i]).0.box_position == q)
}

/// Entering an automatic move. For a crate: the paths along which it can be
/// pushed, without those that end on a cell where a crate is stuck whatever
/// the player does (as far as the level's floor is enclosed by walls, which
/// that computation needs), and a mark at each cell where such a path ends;
/// with no such path the game returns to the main screen. For the player: a
/// mark at each cell it can walk to, other than its own.
pub fn auto_move_marks(board: &Board, auto_move: AutoMoveState) -> (r: AutoMoveMarks)
    requires
        board.wf(),
        auto_move matches AutoMoveState::Box { position, .. } ==> board@.map.crates.contains(position),
    ensures
        r.marks@.no_duplicates(),
        auto_move is Player ==> {
            &&& r.state == AppState::AutoMove
            &&& r.auto_move is Player
            &&& forall|q: Vector2| #[trigger]
                r.marks@.contains(q) <==> q != board@.map.player && reachable(
                    open_fn(board@.map, WALL | CRATE, Set::empty()),
                    board@.map.player,
                    q,
                )
        },
        auto_move matches AutoMoveState::Box { position, .. } ==> (r.auto_move matches AutoMoveState::Box {
            position: kept,
            paths,
        } && {
            let v = board@.map;
            &&& kept == position
            &&& paths_ok(paths@)
            &&& forall|i: int|
                0 <= i < paths@.len() ==> (#[trigger] paths@[i]).0.box_position != position && push_path_ok(
                    v,
                    position,
                    paths@[i].0,
                    paths@[i].1@,
                ) && paths@[i].1@.len() >= 2 && reached_along(v, v.crates, position, paths@[i].0, paths@[i].1@)
            &&& enclosed(v) ==> forall|i: int|
                0 <= i < paths@.len() ==> !static_dead_cells(
                    v.size,
                    flag_cells(v, WALL),
                    flag_cells(v, FLOOR),
                    flag_cells(v, TARGET),
                ).contains((#[trigger] paths@[i]).0.box_position)
            &&& 4 * v.tiles.len() <= usize::MAX ==> forall|t: PushState|
                #[trigger] push_reachable(v, v.crates, position, t) && t.box_position != position && !(enclosed(v)
                    && static_dead_cells(
                    v.size,
                    flag_cells(v, WALL),
                    flag_cells(v, FLOOR),
                    flag_cells(v, TARGET),
                ).contains(t.box_position)) ==> listed(paths@, t)
            &&& r.marks@.to_set() == path_ends(paths@)
            &&& (r.state == AppState::Main) == (paths@.len() == 0)
            &&& r.state == AppState::Main || r.state == AppState::AutoMove
        }),
{
    let map = board.map();
    proof {
        map.lemma_wf_view();
    }
    match auto_move {
        AutoMoveState::Player => {
            let area = map.reachable_area(&map.player_position, Tile(WALL | CRATE));
            let mut marks: Vec<Vector2> = Vec::new();
            let mut i: usize = 0;
            while i < area.len()
                invariant
                    i <= area@.len(),
                    area@.no_duplicates(),
                    marks@.no_duplicates(),
                    forall|q: Vector2| #[trigger]
                        marks@.contains(q) <==> (q != map.player_position && exists|k: int|
                            0 <= k < i && area@[k] == q),
                decreases area@.len() - i,
            {
                let q = area[i];
                let ghost marks_before = marks@;
                if q != map.player_position {
                    proof {
                        assert(!marks@.contains(q)) by {
                            if marks@.contains(q) {
                                let k = choose|k: int| 0 <= k < i && area@[k] == q;
                                assert(area@[k] == area@[i as int]);
                            }
                        }
                    }
                    marks.push(q);
                }
                proof {
                    assert forall|p: Vector2| #[trigger] marks@.contains(p) <==> (p != map.player_position
                        && exists|k: int| 0 <= k < i + 1 && area@[k] == p) by {
                        if marks@.contains(p) {
                            if marks_before.contains(p) {
                                let k = choose|k: int| 0 <= k < i && area@[k] == p;
                                assert(0 <= k < i + 1 && area@[k] == p);
                            } else {
                                let k = choose|k: int| 0 <= k < marks@.len() && marks@[k] == p;
                                assert(k == marks@.len() - 1);
                                assert(p == q);
                                assert(area@[i as int] == p);
                            }
                        }
                        if p != map.player_position && exists|k: int| 0 <= k < i + 1 && area@[k] == p {
                            let k = choose|k: int| 0 <= k < i + 1 && area@[k] == p;
                            if k < i {
                                assert(marks_before.contains(p));
                                let m = choose|m: int| 0 <= m < marks_before.len() && marks_before[m] == p;
                                assert(marks@[m] == p);
                            } else {
                                assert(marks@[marks@.len() - 1] == p);
                            }
                        }
                    }
                }
                i = i + 1;
            }
            proof {
                assert forall|q: Vector2| #[trigger] marks@.contains(q) <==> q != map.player_position
                    && reachable(open_fn(map@, WALL | CRATE, Set::empty()), map.player_position, q) by {
                    if area@.contains(q) {
                        let k = choose|k: int| 0 <= k < area@.len() && area@[k] == q;
                        assert(area@[k] == q);
                    }
                }
            }
            AutoMoveMarks { state: AppState::AutoMove, auto_move: AutoMoveState::Player, marks }
        },
        AutoMoveState::Box { position, paths: _ } => {
            let all = box_pushable_paths(map, &position);
            let walls = flag_list(map, WALL);
            let floors = flag_list(map, FLOOR);
            let goals = flag_list(map, TARGET);
            let enclosed_floor = is_enclosed(map);
            let dead: Vec<Vector2> = if enclosed_floor {
                static_deadlocks(map.size, &walls, &floors, &goals)
            } else {
                Vec::new()
            };
            let ghost dead_set = static_dead_cells(
                map@.size,
                flag_cells(map@, WALL),
                flag_cells(map@, FLOOR),
                flag_cells(map@, TARGET),
            );
            let mut paths: Vec<(PushState, Vec<Vector2>)> = Vec::new();
            let mut marks: Vec<Vector2> = Vec::new();
            let ghost mut src: Seq<int> = Seq::empty();
            let mut i: usize = 0;
            while i < all.len()
                invariant
                    map.wf(),
                    i <= all@.len(),
                    forall|a: int, b: int| 0 <= a < b < all@.len() ==> (#[trigger] all@[a]).0 != (#[trigger] all@[b]).0,
                    forall|j: int|
                        0 <= j < all@.len() ==> (#[trigger] all@[j]).0.box_position != position && push_path_ok(
                            map@,
                            position,
                            all@[j].0,
                            all@[j].1@,
                        ) && all@[j].1@.len() >= 2,
                    enclosed_floor ==> dead@.to_set() == dead_set,
                    src.len() == paths@.len(),
                    forall|k: int| 0 <= k < src.len() ==> 0 <= #[trigger] src[k] < i && paths@[k].0 == all@[src[k]].0
                        && paths@[k].1@ == all@[src[k]].1@,
                    forall|a: int, b: int| 0 <= a < b < src.len() ==> src[a] < src[b],
                    forall|k: int| 0 <= k < paths@.len() ==> !dead@.contains((#[trigger] paths@[k]).0.box_position),
                    marks@.no_duplicates(),
                    marks@.to_set() == path_ends(paths@),
                    forall|e: int| 0 <= e < i && !dead@.contains((#[trigger] all@[e]).0.box_position) ==> listed(paths@, all@[e].0),
                    !enclosed_floor ==> dead@.len() == 0,
                decreases all@.len() - i,
            {
                let b = all[i].0.box_position;
                let ghost paths0 = paths@;
                if !contains_position(&dead, &b) {
                    let ghost before = paths@;
                    let entry = (all[i].0, all[i].1.clone());
                    proof {
                        assert(entry.1@ =~= all@[i as int].1@);
                    }
                    paths.push(entry);
                    proof {
                        src = src.push(i as int);
                        assert(paths@[paths@.len() - 1] == entry);
                    }
                    let ghost marks_before = marks@;
                    if !contains_position(&marks, &b) {
                        marks.push(b);
                    }
                    proof {
                        assert(marks@.contains(b)) by {
                            if marks_before.contains(b) {
                                let m = choose|m: int| 0 <= m < marks_before.len() && marks_before[m] == b;
                                assert(marks@[m] == b);
                            } else {
                                assert(marks@[marks@.len() - 1] == b);
                            }
                        }
                        assert forall|q: Vector2| marks_before.contains(q) implies marks@.contains(q) by {
                            let m = choose|m: int| 0 <= m < marks_before.len() && marks_before[m] == q;
                            assert(marks@[m] == q);
                        }
                        assert forall|q: Vector2| marks@.contains(q) implies q == b || marks_before.contains(q) by {
                            let m = choose|m: int| 0 <= m < marks@.len() && marks@[m] == q;
                            if m < marks_before.len() {
                                assert(marks_before[m] == q);
                            }
                        }
                    }
                    proof {
                        assert(marks@.to_set() =~= path_ends(paths@)) by {
                            assert forall|q: Vector2| path_ends(paths@).contains(q) implies marks@.to_set().contains(q) by {
                                let j = choose|j: int| 0 <= j < paths@.len() && (#[trigger] paths@[j]).0.box_position == q;
                                if j < before.len() {
                                    assert(before[j] == paths@[j]);
                                    assert(path_ends(before).contains(q));
                                    assert(marks_before.to_set().contains(q));
                                } else {
                                    assert(q == b);
                                }
                            }
                            assert forall|q: Vector2| marks@.to_set().contains(q) implies path_ends(paths@).contains(q) by {
                                if q == b {
                                    assert(paths@[paths@.len() - 1].0.box_position == q);
                                } else {
                                    assert(marks_before.to_set().contains(q));
                                    assert(path_ends(before).contains(q));
                                    let j = choose|j: int| 0 <= j < before.len() && (#[trigger] before[j]).0.box_position == q;
                                    assert(paths@[j] == before[j]);
                                }
                            }
                        }
                    }
                }
                proof {
                    assert forall|e: int| 0 <= e < i + 1 && !dead@.contains((#[trigger] all@[e]).0.box_position) implies listed(paths@, all@[e].0) by {
                        if e < i {
                            let j = choose|j: int| 0 <= j < paths0.len() && (#[trigger] paths0[j]).0 == all@[e].0;
                            assert(paths@[j] == paths0[j]);
                        } else {
                            assert(paths@[paths@.len() - 1].0 == all@[i as int].0);
                        }
                    }
                }
                i = i + 1;
            }
            proof {
                if 4 * map@.tiles.len() <= usize::MAX {
                    assert forall|t: PushState|
                        #[trigger] push_reachable(map@, map@.crates, position, t) && t.box_position != position && !(enclosed(map@)
                            && dead_set.contains(t.box_position)) implies listed(paths@, t) by {
                        assert(listed(all@, t));
                        let e = choose|e: int| 0 <= e < all@.len() && (#[trigger] all@[e]).0 == t;
                        if enclosed_floor {
                            assert(!dead@.to_set().contains(t.box_position));
                            assert(!dead@.contains(t.box_position));
                        }
                        assert(!dead@.contains(all@[e].0.box_position));
                    }
                }
                assert forall|a: int, b: int| 0 <= a < b < paths@.len() implies (#[trigger] paths@[a]).0 != (#[trigger] paths@[b]).0 by {
                    assert(src[a] < src[b]);
                }
                assert forall|j: int, k: int|
                    0 <= j < paths@.len() && 1 <= k < paths@[j].1@.len() implies adjacent(
                    paths@[j].1@[k - 1],
                    #[trigger] paths@[j].1@[k],
                ) by {
                    assert(paths@[j].0 == all@[src[j]].0 && paths@[j].1@ == all@[src[j]].1@);
                }
                assert forall|j: int, k: int|
                    0 <= j < paths@.len() && 0 <= k < paths@[j].1@.len() implies steppable(#[trigger] paths@[j].1@[k]) by {
                    assert(paths@[j].0 == all@[src[j]].0 && paths@[j].1@ == all@[src[j]].1@);
                    assert(!wall_at(map@, paths@[j].1@[k]));
                }
                assert forall|j: int| 0 <= j < paths@.len() implies (#[trigger] paths@[j]).0.box_position != position
                    && push_path_ok(map@, position, paths@[j].0, paths@[j].1@) && paths@[j].1@.len() >= 2
                    && reached_along(map@, map@.crates, position, paths@[j].0, paths@[j].1@) by {
                    assert(paths@[j].0 == all@[src[j]].0 && paths@[j].1@ == all@[src[j]].1@);
                }
                if enclosed_floor {
                    assert forall|j: int| 0 <= j < paths@.len() implies !dead_set.contains((#[trigger] paths@[j]).0.box_position) by {
                        assert(!dead@.contains(paths@[j].0.box_position));
                    }
                }
            }
            let state = if paths.len() == 0 {
                AppState::Main
            } else {
                AppState::AutoMove
            };
            AutoMoveMarks { state, auto_move: AutoMoveState::Box { position, paths }, marks }
        },
    }
}

} // verus!
