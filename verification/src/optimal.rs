use vstd::prelude::*;
use std::time::Duration;
use crate::vector::Vector2;
use crate::direction::{Direction, step, steppable, step_exec};
use crate::movement::{Movement, Movements, count_pushes, movement_direction};
use crate::tile::{Tile, has_flag, WALL, TARGET};
use crate::level::{Level, LevelView, vtile, view_wf, in_bounds_spec};
use crate::board::{action_of, apply};
use crate::replay::{replay, wall_at, same_ground, lemma_apply_keeps_ground};
use crate::positions::{contains_position, remove_position};
use crate::clock::{now, elapsed, as_nanos};
use crate::solver::{Strategy, SolveError, solves};

verus! {

/// Where the player and the crates of a level stand: all that a step depends
/// on besides the walls, which no step changes.
pub open spec fn key_of(w: LevelView) -> (Vector2, Set<Vector2>) {
    (w.player, w.crates)
}

/// The movement that a step in direction `d` makes with the player and the
/// crates at `k`, on the walls of `g`; `None` where the step is blocked.
pub open spec fn key_action(g: LevelView, k: (Vector2, Set<Vector2>), d: Direction) -> Option<Movement> {
    let next = step(k.0, d);
    if wall_at(g, next) {
        None
    } else if k.1.contains(next) {
        let beyond = step(next, d);
        if wall_at(g, beyond) || k.1.contains(beyond) {
            None
        } else {
            Some(Movement::Push(d))
        }
    } else {
        Some(Movement::Move(d))
    }
}

/// Where the player and the crates stand after movement `m` in direction `d`.
pub open spec fn key_apply(k: (Vector2, Set<Vector2>), d: Direction, m: Movement) -> (Vector2, Set<Vector2>) {
    let next = step(k.0, d);
    match m {
        Movement::Move(_) => (next, k.1),
        Movement::Push(_) => (next, k.1.remove(next).insert(step(next, d))),
    }
}

/// Where the player and the crates stand after the movements `ms`, made one
/// after the other from the start of `g`; `None` where one cannot be made.
pub open spec fn key_replay(g: LevelView, ms: Seq<Movement>) -> Option<(Vector2, Set<Vector2>)>
    decreases ms.len(),
{
    if ms.len() == 0 {
        Some(key_of(g))
    } else {
        match key_replay(g, ms.drop_last()) {
            None => None,
            Some(k) => {
                let m = ms.last();
                let d = movement_direction(m);
                if key_action(g, k, d) == Some(m) {
                    Some(key_apply(k, d, m))
                } else {
                    None
                }
            },
        }
    }
}

/// One step on a level decided by where the player and the crates stand.
proof fn lemma_key_step(g: LevelView, w: LevelView, d: Direction)
    requires
        view_wf(w),
        same_ground(g, w),
    ensures
        action_of(w, d) == key_action(g, key_of(w), d),
        action_of(w, d) matches Some(m) ==> key_of(apply(w, d)) == key_apply(key_of(w), d, m),
{
    let next = step(w.player, d);
    let beyond = step(next, d);
    assert(wall_at(w, next) == wall_at(g, next));
    assert(wall_at(w, beyond) == wall_at(g, beyond));
    if in_bounds_spec(w.size, beyond) {
        assert(has_flag(vtile(w, beyond), crate::tile::CRATE) == w.crates.contains(beyond));
    }
}

/// Replaying movements on a level and on where its player and crates stand
/// agree.
pub proof fn lemma_key_replay(g: LevelView, ms: Seq<Movement>)
    requires
        view_wf(g),
    ensures
        replay(g, ms) matches Some(w) ==> key_replay(g, ms) == Some(key_of(w)) && view_wf(w)
            && same_ground(g, w),
        replay(g, ms) is None ==> key_replay(g, ms) is None,
    decreases ms.len(),
{
    if ms.len() == 0 {
        assert(forall|p: Vector2| #[trigger] wall_at(g, p) == wall_at(g, p));
    } else {
        let rest = ms.drop_last();
        lemma_key_replay(g, rest);
        match replay(g, rest) {
            None => {},
            Some(w) => {
                let m = ms.last();
                let d = movement_direction(m);
                lemma_key_step(g, w, d);
                lemma_apply_keeps_ground(w, d);
                let a = apply(w, d);
                assert forall|p: Vector2| #[trigger] wall_at(a, p) == wall_at(g, p) by {
                    assert(wall_at(a, p) == wall_at(w, p));
                    assert(wall_at(w, p) == wall_at(g, p));
                }
            },
        }
    }
}

/// Where replayed movements leave the player and the crates, the level
/// replays them too.
proof fn lemma_key_replay_some(g: LevelView, ms: Seq<Movement>)
    requires
        view_wf(g),
        key_replay(g, ms) is Some,
    ensures
        replay(g, ms) matches Some(w) && key_replay(g, ms) == Some(key_of(w)) && view_wf(w)
            && same_ground(g, w),
{
    lemma_key_replay(g, ms);
}

/// 1 for a push, 0 for a move.
pub open spec fn push_weight(m: Movement) -> int {
    if m is Push {
        1
    } else {
        0
    }
}

/// The cost of movements for a strategy, compared first by its first part:
/// the pushes then the moves for `OptimalPushMove`, the moves then the
/// pushes otherwise.
pub open spec fn cost_of(s: Strategy, ms: Seq<Movement>) -> (int, int) {
    if s == Strategy::OptimalPushMove {
        (count_pushes(ms) as int, ms.len() as int)
    } else {
        (ms.len() as int, count_pushes(ms) as int)
    }
}

/// The cost of one movement for a strategy.
pub open spec fn step_cost(s: Strategy, m: Movement) -> (int, int) {
    if s == Strategy::OptimalPushMove {
        (push_weight(m), 1)
    } else {
        (1, push_weight(m))
    }
}

/// Whether cost `a` is at most cost `b`, comparing first parts, then second parts.
pub open spec fn lex_le(a: (int, int), b: (int, int)) -> bool {
    a.0 < b.0 || (a.0 == b.0 && a.1 <= b.1)
}

/// The sum of two costs, part by part.
pub open spec fn plus(a: (int, int), b: (int, int)) -> (int, int) {
    (a.0 + b.0, a.1 + b.1)
}

/// One more movement adds its cost.
proof fn lemma_cost_push(s: Strategy, ms: Seq<Movement>, m: Movement)
    ensures
        cost_of(s, ms.push(m)) == plus(cost_of(s, ms), step_cost(s, m)),
{
    assert(ms.push(m).drop_last() == ms);
}

/// There are no more pushes than movements.
proof fn lemma_pushes_le_len(ms: Seq<Movement>)
    ensures
        count_pushes(ms) <= ms.len(),
    decreases ms.len(),
{
    if ms.len() > 0 {
        lemma_pushes_le_len(ms.drop_last());
    }
}

/// A position of the search: where the player and the crates stand, the
/// movements that lead there and their cost.
struct Node {
    player: Vector2,
    crates: Vec<Vector2>,
    actions: Movements,
    cost: (usize, usize),
}

spec fn node_key(n: Node) -> (Vector2, Set<Vector2>) {
    (n.player, n.crates@.to_set())
}

spec fn node_cost(n: Node) -> (int, int) {
    (n.cost.0 as int, n.cost.1 as int)
}

/// A node whose movements lead from the start to it at its cost.
spec fn node_ok(g: LevelView, s: Strategy, n: Node) -> bool {
    &&& n.crates@.no_duplicates()
    &&& key_replay(g, n.actions@) == Some(node_key(n))
    &&& node_cost(n) == cost_of(s, n.actions@)
}

spec fn closed_key(c: (Vector2, Vec<Vector2>)) -> (Vector2, Set<Vector2>) {
    (c.0, c.1@.to_set())
}

/// Whether `k` is among the closed positions.
spec fn closed_has(closed: Seq<(Vector2, Vec<Vector2>)>, k: (Vector2, Set<Vector2>)) -> bool {
    exists|i: int| 0 <= i < closed.len() && #[trigger] closed_key(closed[i]) == k
}

/// Whether the frontier holds `k` at cost at most `c`.
spec fn entry_for(fr: Seq<Node>, k: (Vector2, Set<Vector2>), c: (int, int)) -> bool {
    exists|j: int| 0 <= j < fr.len() && node_key(#[trigger] fr[j]) == k && lex_le(node_cost(fr[j]), c)
}

/// What the search keeps true: the frontier holds reachable positions at
/// their cost; a closed position costs no more by any movements; each step
/// from a closed position to a position not closed has its target on the
/// frontier at most at the closed cost plus the step; the start is closed or
/// on the frontier at no cost; no closed position has every crate on a target.
spec fn search_inv(
    g: LevelView,
    s: Strategy,
    fr: Seq<Node>,
    closed: Seq<(Vector2, Vec<Vector2>)>,
    dc: Seq<(int, int)>,
) -> bool {
    &&& dc.len() == closed.len()
    &&& forall|j: int| 0 <= j < fr.len() ==> node_ok(g, s, #[trigger] fr[j])
    &&& forall|i: int, q: Seq<Movement>|
        #![trigger closed[i], key_replay(g, q)]
        0 <= i < closed.len() && key_replay(g, q) == Some(closed_key(closed[i])) ==> lex_le(
            dc[i],
            cost_of(s, q),
        )
    &&& forall|i: int, d: Direction|
        #![trigger key_action(g, closed_key(closed[i]), d)]
        0 <= i < closed.len() ==> (key_action(g, closed_key(closed[i]), d) matches Some(m) ==> (!closed_has(
            closed,
            key_apply(closed_key(closed[i]), d, m),
        ) ==> entry_for(fr, key_apply(closed_key(closed[i]), d, m), plus(dc[i], step_cost(s, m)))))
    &&& closed_has(closed, key_of(g)) || entry_for(fr, key_of(g), (0, 0))
    &&& forall|i: int| 0 <= i < closed.len() ==> !(#[trigger] closed_key(closed[i])).1.subset_of(g.targets)
}

/// Movements that reach a position not closed cost at least as much as some
/// position on the frontier.
proof fn lemma_intercept(
    g: LevelView,
    s: Strategy,
    fr: Seq<Node>,
    closed: Seq<(Vector2, Vec<Vector2>)>,
    dc: Seq<(int, int)>,
    q: Seq<Movement>,
)
    requires
        search_inv(g, s, fr, closed, dc),
        key_replay(g, q) matches Some(k) && !closed_has(closed, k),
    ensures
        exists|j: int| 0 <= j < fr.len() && lex_le(node_cost(#[trigger] fr[j]), cost_of(s, q)),
    decreases q.len(),
{
    if q.len() == 0 {
        assert(count_pushes(q) == 0);
        let j = choose|j: int|
            0 <= j < fr.len() && node_key(#[trigger] fr[j]) == key_of(g) && lex_le(node_cost(fr[j]), (0, 0));
        assert(lex_le(node_cost(fr[j]), cost_of(s, q)));
    } else {
        let q1 = q.drop_last();
        let m = q.last();
        let d = movement_direction(m);
        let k1 = key_replay(g, q1).unwrap();
        assert(q1.push(m) == q);
        lemma_cost_push(s, q1, m);
        if closed_has(closed, k1) {
            let i = choose|i: int| 0 <= i < closed.len() && #[trigger] closed_key(closed[i]) == k1;
            assert(lex_le(dc[i], cost_of(s, q1)));
            assert(key_action(g, closed_key(closed[i]), d) == Some(m));
            let k = key_apply(k1, d, m);
            assert(entry_for(fr, k, plus(dc[i], step_cost(s, m))));
            let j = choose|j: int|
                0 <= j < fr.len() && node_key(#[trigger] fr[j]) == k && lex_le(
                    node_cost(fr[j]),
                    plus(dc[i], step_cost(s, m)),
                );
            assert(lex_le(node_cost(fr[j]), cost_of(s, q)));
        } else {
            lemma_intercept(g, s, fr, closed, dc, q1);
            let j = choose|j: int| 0 <= j < fr.len() && lex_le(node_cost(#[trigger] fr[j]), cost_of(s, q1));
            assert(lex_le(node_cost(fr[j]), cost_of(s, q)));
        }
    }
}

/// Taking a closed position off the frontier keeps what the search keeps true.
proof fn lemma_discard(
    g: LevelView,
    s: Strategy,
    fr: Seq<Node>,
    closed: Seq<(Vector2, Vec<Vector2>)>,
    dc: Seq<(int, int)>,
    j: int,
)
    requires
        search_inv(g, s, fr, closed, dc),
        0 <= j < fr.len(),
        closed_has(closed, node_key(fr[j])),
    ensures
        search_inv(g, s, fr.remove(j), closed, dc),
{
    let fr2 = fr.remove(j);
    assert forall|k: (Vector2, Set<Vector2>), c: (int, int)|
        entry_for(fr, k, c) && !closed_has(closed, k) implies entry_for(fr2, k, c) by {
        let t = choose|t: int| 0 <= t < fr.len() && node_key(#[trigger] fr[t]) == k && lex_le(node_cost(fr[t]), c);
        if t < j {
            assert(fr2[t] == fr[t]);
        } else {
            assert(t != j);
            assert(fr2[t - 1] == fr[t]);
        }
    }
    assert forall|t: int| 0 <= t < fr2.len() implies node_ok(g, s, #[trigger] fr2[t]) by {
        if t < j {
            assert(fr2[t] == fr[t]);
        } else {
            assert(fr2[t] == fr[t + 1]);
        }
    }
}

/// Closing the cheapest position of the frontier, not closed before and not
/// solved, with its successors added, keeps what the search keeps true.
proof fn lemma_close(
    g: LevelView,
    s: Strategy,
    fr: Seq<Node>,
    closed: Seq<(Vector2, Vec<Vector2>)>,
    dc: Seq<(int, int)>,
    j: int,
    c: (Vector2, Vec<Vector2>),
    fr2: Seq<Node>,
)
    requires
        search_inv(g, s, fr, closed, dc),
        0 <= j < fr.len(),
        forall|t: int| 0 <= t < fr.len() ==> lex_le(node_cost(fr[j]), node_cost(#[trigger] fr[t])),
        !closed_has(closed, node_key(fr[j])),
        closed_key(c) == node_key(fr[j]),
        !closed_key(c).1.subset_of(g.targets),
        fr2.len() >= fr.len() - 1,
        forall|t: int| 0 <= t < fr.len() - 1 ==> #[trigger] fr2[t] == fr.remove(j)[t],
        forall|t: int| 0 <= t < fr2.len() ==> node_ok(g, s, #[trigger] fr2[t]),
        forall|d: Direction|
            #[trigger] key_action(g, node_key(fr[j]), d) matches Some(m) ==> entry_for(
                fr2,
                key_apply(node_key(fr[j]), d, m),
                plus(node_cost(fr[j]), step_cost(s, m)),
            ),
    ensures
        search_inv(g, s, fr2, closed.push(c), dc.push(node_cost(fr[j]))),
{
    let fr1 = fr.remove(j);
    let cl2 = closed.push(c);
    let dc2 = dc.push(node_cost(fr[j]));
    let y = node_key(fr[j]);
    assert forall|k: (Vector2, Set<Vector2>)| #[trigger] closed_has(cl2, k) == (closed_has(closed, k) || k == y) by {
        if closed_has(closed, k) {
            let i = choose|i: int| 0 <= i < closed.len() && #[trigger] closed_key(closed[i]) == k;
            assert(cl2[i] == closed[i]);
        }
        if k == y {
            assert(closed_key(cl2[closed.len() as int]) == k);
        }
        if closed_has(cl2, k) {
            let i = choose|i: int| 0 <= i < cl2.len() && #[trigger] closed_key(cl2[i]) == k;
            if i < closed.len() {
                assert(cl2[i] == closed[i]);
            }
        }
    }
    assert forall|k: (Vector2, Set<Vector2>), cc: (int, int)|
        entry_for(fr, k, cc) && k != y implies entry_for(fr2, k, cc) by {
        let t = choose|t: int| 0 <= t < fr.len() && node_key(#[trigger] fr[t]) == k && lex_le(node_cost(fr[t]), cc);
        if t < j {
            assert(fr2[t] == fr[t]);
        } else {
            assert(t != j);
            assert(fr2[t - 1] == fr[t]);
        }
    }
    assert forall|q: Seq<Movement>| #[trigger] key_replay(g, q) == Some(y) implies lex_le(
        node_cost(fr[j]),
        cost_of(s, q),
    ) by {
        lemma_intercept(g, s, fr, closed, dc, q);
        let t = choose|t: int| 0 <= t < fr.len() && lex_le(node_cost(#[trigger] fr[t]), cost_of(s, q));
        assert(lex_le(node_cost(fr[j]), node_cost(fr[t])));
    }
    assert forall|i: int, q: Seq<Movement>|
        0 <= i < cl2.len() && #[trigger] key_replay(g, q) == Some(closed_key(#[trigger] cl2[i])) implies lex_le(
        dc2[i],
        cost_of(s, q),
    ) by {
        if i < closed.len() {
            assert(cl2[i] == closed[i]);
        }
    }
    assert forall|i: int, d: Direction|
        0 <= i < cl2.len() implies (#[trigger] key_action(g, closed_key(cl2[i]), d) matches Some(m)
        ==> (!closed_has(cl2, key_apply(closed_key(cl2[i]), d, m)) ==> entry_for(
        fr2,
        key_apply(closed_key(cl2[i]), d, m),
        plus(dc2[i], step_cost(s, m)),
    ))) by {
        if i < closed.len() {
            assert(cl2[i] == closed[i]);
            if let Some(m) = key_action(g, closed_key(closed[i]), d) {
                let k = key_apply(closed_key(closed[i]), d, m);
                if !closed_has(cl2, k) {
                    assert(closed_has(cl2, k) == (closed_has(closed, k) || k == y));
                    assert(entry_for(fr, k, plus(dc[i], step_cost(s, m))));
                }
            }
        } else {
            assert(cl2[i] == c);
            assert(key_action(g, node_key(fr[j]), d) == key_action(g, closed_key(cl2[i]), d));
        }
    }
    assert(closed_has(cl2, key_of(g)) == (closed_has(closed, key_of(g)) || key_of(g) == y));
    assert forall|i: int| 0 <= i < cl2.len() implies !(#[trigger] closed_key(cl2[i])).1.subset_of(g.targets) by {
        if i < closed.len() {
            assert(cl2[i] == closed[i]);
        }
    }
}

/// Whether two lists of positions hold the same positions.
fn same_positions(a: &Vec<Vector2>, b: &Vec<Vector2>) -> (r: bool)
    ensures
        r == (a@.to_set() == b@.to_set()),
{
    let mut i: usize = 0;
    while i < a.len()
        invariant
            i <= a@.len(),
            forall|k: int| 0 <= k < i ==> b@.contains(#[trigger] a@[k]),
        decreases a@.len() - i,
    {
        if !contains_position(b, &a[i]) {
            proof {
                assert(a@.to_set().contains(a@[i as int]));
                assert(!b@.to_set().contains(a@[i as int]));
            }
            return false;
        }
        i = i + 1;
    }
    let mut i: usize = 0;
    while i < b.len()
        invariant
            i <= b@.len(),
            forall|k: int| 0 <= k < a@.len() ==> b@.contains(#[trigger] a@[k]),
            forall|k: int| 0 <= k < i ==> a@.contains(#[trigger] b@[k]),
        decreases b@.len() - i,
    {
        if !contains_position(a, &b[i]) {
            proof {
                assert(b@.to_set().contains(b@[i as int]));
                assert(!a@.to_set().contains(b@[i as int]));
            }
            return false;
        }
        i = i + 1;
    }
    proof {
        assert forall|p: Vector2| a@.to_set().contains(p) == b@.to_set().contains(p) by {
            if a@.contains(p) {
                let k = choose|k: int| 0 <= k < a@.len() && a@[k] == p;
            }
            if b@.contains(p) {
                let k = choose|k: int| 0 <= k < b@.len() && b@[k] == p;
            }
        }
        assert(a@.to_set() =~= b@.to_set());
    }
    true
}

/// Whether the player at `p` with the crates `c` is among the closed positions.
fn is_closed(closed: &Vec<(Vector2, Vec<Vector2>)>, p: &Vector2, c: &Vec<Vector2>) -> (r: bool)
    ensures
        r == closed_has(closed@, (*p, c@.to_set())),
{
    let mut i: usize = 0;
    while i < closed.len()
        invariant
            i <= closed@.len(),
            forall|k: int| 0 <= k < i ==> #[trigger] closed_key(closed@[k]) != (*p, c@.to_set()),
        decreases closed@.len() - i,
    {
        if closed[i].0 == *p && same_positions(&closed[i].1, c) {
            proof {
                assert(closed_key(closed@[i as int]) == (*p, c@.to_set()));
            }
            return true;
        }
        i = i + 1;
    }
    false
}

/// The index of a node of smallest cost.
fn cheapest(fr: &Vec<Node>) -> (r: usize)
    requires
        fr@.len() > 0,
    ensures
        r < fr@.len(),
        forall|t: int| 0 <= t < fr@.len() ==> lex_le(node_cost(fr@[r as int]), node_cost(#[trigger] fr@[t])),
{
    let mut best: usize = 0;
    let mut i: usize = 1;
    while i < fr.len()
        invariant
            1 <= i <= fr@.len(),
            best < fr@.len(),
            forall|t: int| 0 <= t < i ==> lex_le(node_cost(fr@[best as int]), node_cost(#[trigger] fr@[t])),
        decreases fr@.len() - i,
    {
        let a = fr[i].cost;
        let b = fr[best].cost;
        if a.0 < b.0 || (a.0 == b.0 && a.1 < b.1) {
            best = i;
        }
        i = i + 1;
    }
    best
}

/// Whether `p` is off the grid or a wall.
fn blocked(map: &Level, p: &Vector2) -> (r: bool)
    requires
        map.grid_wf(),
    ensures
        r == wall_at(map@, *p),
{
    match map.at(p) {
        None => true,
        Some(t) => t.intersects(Tile(WALL)),
    }
}

/// Whether every crate of `crates` stands on a target.
fn all_on_targets(map: &Level, crates: &Vec<Vector2>) -> (r: bool)
    requires
        map.wf(),
        forall|i: int| 0 <= i < crates@.len() ==> in_bounds_spec(map.size, #[trigger] crates@[i]),
    ensures
        r == crates@.to_set().subset_of(map@.targets),
{
    let mut i: usize = 0;
    while i < crates.len()
        invariant
            map.wf(),
            forall|i: int| 0 <= i < crates@.len() ==> in_bounds_spec(map.size, #[trigger] crates@[i]),
            i <= crates@.len(),
            forall|k: int| 0 <= k < i ==> map@.targets.contains(#[trigger] crates@[k]),
        decreases crates@.len() - i,
    {
        let p = crates[i];
        let t = map.at_unchecked(&p);
        assert(has_flag(map.tile(p), TARGET) == map.target_positions@.contains(p));
        if !t.intersects(Tile(TARGET)) {
            proof {
                assert(!map@.targets.contains(p));
                assert(crates@.to_set().contains(p));
            }
            return false;
        }
        i = i + 1;
    }
    proof {
        assert forall|p: Vector2| crates@.to_set().contains(p) implies map@.targets.contains(p) by {
            let k = choose|k: int| 0 <= k < crates@.len() && crates@[k] == p;
        }
    }
    true
}

/// A node reachable from the start stands on the grid.
proof fn lemma_node_on_grid(map: &Level, s: Strategy, n: Node)
    requires
        map.wf(),
        node_ok(map@, s, n),
    ensures
        in_bounds_spec(map.size, n.player),
        steppable(n.player),
        forall|i: int| 0 <= i < n.crates@.len() ==> in_bounds_spec(map.size, #[trigger] n.crates@[i]),
{
    map.lemma_wf_view();
    lemma_key_replay_some(map@, n.actions@);
    let w = replay(map@, n.actions@).unwrap();
    assert forall|i: int| 0 <= i < n.crates@.len() implies in_bounds_spec(map.size, #[trigger] n.crates@[i]) by {
        assert(n.crates@.to_set().contains(n.crates@[i]));
        assert(w.crates.contains(n.crates@[i]));
    }
}

/// The node one step in direction `d` from `n`, or `None` where the step is blocked.
fn successor(map: &Level, s: Strategy, n: &Node, d: Direction) -> (r: Option<Node>)
    requires
        map.wf(),
        node_ok(map@, s, *n),
        n.actions@.len() < usize::MAX - 1,
    ensures
        key_action(map@, node_key(*n), d) is None ==> r is None,
        key_action(map@, node_key(*n), d) matches Some(m) ==> (r matches Some(x) && node_ok(map@, s, x)
            && node_key(x) == key_apply(node_key(*n), d, m) && node_cost(x) == plus(node_cost(*n), step_cost(s, m))),
{
    proof {
        lemma_node_on_grid(map, s, *n);
        lemma_pushes_le_len(n.actions@);
    }
    let ghost g = map@;
    let ghost k = node_key(*n);
    let next = step_exec(&n.player, d);
    if blocked(map, &next) {
        return None;
    }
    let mut crates = n.crates.clone();
    assert(crates@ == n.crates@);
    let m = if contains_position(&n.crates, &next) {
        let beyond = step_exec(&next, d);
        if blocked(map, &beyond) || contains_position(&n.crates, &beyond) {
            return None;
        }
        remove_position(&mut crates, &next);
        let ghost mid = crates@;
        assert(!mid.contains(beyond));
        crates.push(beyond);
        proof {
            assert(crates@ == mid.push(beyond));
            assert forall|x: Vector2| crates@.to_set().contains(x) == n.crates@.to_set().remove(next).insert(
                beyond,
            ).contains(x) by {
                assert(mid.to_set().contains(x) == mid.contains(x));
                if x == beyond {
                    assert(crates@[crates@.len() - 1] == beyond);
                }
                if mid.contains(x) {
                    let k = choose|k: int| 0 <= k < mid.len() && mid[k] == x;
                    assert(crates@[k] == x);
                }
                if crates@.contains(x) {
                    let k = choose|k: int| 0 <= k < crates@.len() && crates@[k] == x;
                    if k < mid.len() {
                        assert(mid[k] == x);
                    }
                }
            }
            assert(crates@.to_set() =~= n.crates@.to_set().remove(next).insert(beyond));
            assert forall|a: int, b: int| 0 <= a < b < crates@.len() implies crates@[a] != crates@[b] by {
                if b == crates@.len() - 1 {
                    assert(mid.contains(crates@[a]));
                }
            }
        }
        Movement::Push(d)
    } else {
        Movement::Move(d)
    };
    assert(key_action(g, k, d) == Some(m));
    let mut actions = Movements(n.actions.0.clone());
    assert(actions@ == n.actions@);
    actions.push(m);
    proof {
        lemma_cost_push(s, n.actions@, m);
        assert(actions@.drop_last() == n.actions@);
        assert(key_replay(g, actions@) == Some(key_apply(k, d, m)));
    }
    let cost = if s == Strategy::OptimalPushMove {
        (if m.is_push() { n.cost.0 + 1 } else { n.cost.0 }, n.cost.1 + 1)
    } else {
        (n.cost.0 + 1, if m.is_push() { n.cost.1 + 1 } else { n.cost.1 })
    };
    Some(Node { player: next, crates, actions, cost })
}

/// Searches, cheapest position first, for movements that the board can make
/// one after the other from the start of `map` and that leave every crate on
/// a target, reading the clock each round and giving up with a timeout once
/// `timeout` has passed. A solution returned costs no more, for the cost of
/// `strategy`, than any movements that solve the level; `NoSolution` means
/// that no movements solve it.
pub fn optimal_search(map: &Level, strategy: Strategy, timeout: Duration) -> (r: Result<Movements, SolveError>)
    requires
        map.wf(),
    ensures
        r matches Ok(ms) ==> solves(map@, ms@) && forall|q: Seq<Movement>|
            #[trigger] solves(map@, q) ==> lex_le(cost_of(strategy, ms@), cost_of(strategy, q)),
        r == Err::<Movements, SolveError>(SolveError::NoSolution) ==> forall|q: Seq<Movement>| !#[trigger] solves(map@, q),
{
    let ghost g = map@;
    proof {
        map.lemma_wf_view();
    }
    let timer = now();
    let limit = as_nanos(timeout);
    let mut frontier: Vec<Node> = Vec::new();
    let start = Node {
        player: map.player_position,
        crates: map.crate_positions.clone(),
        actions: Movements::new(),
        cost: (0, 0),
    };
    proof {
        assert(count_pushes(start.actions@) == 0);
        assert(node_ok(g, strategy, start));
    }
    frontier.push(start);
    let mut closed: Vec<(Vector2, Vec<Vector2>)> = Vec::new();
    let ghost mut dc: Seq<(int, int)> = Seq::empty();
    proof {
        assert(frontier@[0] == start);
        assert(entry_for(frontier@, key_of(g), (0, 0)));
    }
    let mut rounds: u64 = 0;
    loop
        invariant
            map.wf(),
            g == map@,
            view_wf(g),
            search_inv(g, strategy, frontier@, closed@, dc),
        decreases u64::MAX - rounds,
    {
        if frontier.len() == 0 {
            proof {
                assert forall|q: Seq<Movement>| !#[trigger] solves(g, q) by {
                    if solves(g, q) {
                        lemma_key_replay(g, q);
                        let w = replay(g, q).unwrap();
                        assert(w.crates.subset_of(g.targets));
                        if closed_has(closed@, key_of(w)) {
                            let i = choose|i: int| 0 <= i < closed@.len() && #[trigger] closed_key(closed@[i]) == key_of(w);
                            assert(!closed_key(closed@[i]).1.subset_of(g.targets));
                        }
                        lemma_intercept(g, strategy, frontier@, closed@, dc, q);
                    }
                }
            }
            return Err(SolveError::NoSolution);
        }
        if rounds == u64::MAX {
            return Err(SolveError::Timeout);
        }
        rounds = rounds + 1;
        if as_nanos(elapsed(&timer)) >= limit {
            return Err(SolveError::Timeout);
        }
        let j = cheapest(&frontier);
        let ghost fr0 = frontier@;
        let node = frontier.remove(j);
        assert(node == fr0[j as int]);
        if is_closed(&closed, &node.player, &node.crates) {
            proof {
                lemma_discard(g, strategy, fr0, closed@, dc, j as int);
                assert(frontier@ == fr0.remove(j as int));
            }
            continue;
        }
        if node.actions.len() >= usize::MAX - 1 {
            return Err(SolveError::Timeout);
        }
        proof {
            lemma_node_on_grid(map, strategy, node);
        }
        if all_on_targets(map, &node.crates) {
            proof {
                lemma_key_replay_some(g, node.actions@);
                assert forall|q: Seq<Movement>| #[trigger] solves(g, q) implies lex_le(
                    cost_of(strategy, node.actions@),
                    cost_of(strategy, q),
                ) by {
                    lemma_key_replay(g, q);
                    let w = replay(g, q).unwrap();
                    if closed_has(closed@, key_of(w)) {
                        let i = choose|i: int| 0 <= i < closed@.len() && #[trigger] closed_key(closed@[i]) == key_of(w);
                        assert(!closed_key(closed@[i]).1.subset_of(g.targets));
                    }
                    lemma_intercept(g, strategy, fr0, closed@, dc, q);
                    let t = choose|t: int| 0 <= t < fr0.len() && lex_le(node_cost(#[trigger] fr0[t]), cost_of(strategy, q));
                    assert(lex_le(node_cost(fr0[j as int]), node_cost(fr0[t])));
                }
            }
            return Ok(node.actions);
        }
        let ghost fr1 = frontier@;
        let up = successor(map, strategy, &node, Direction::Up);
        if let Some(x) = up {
            frontier.push(x);
        }
        let ghost fr2 = frontier@;
        let down = successor(map, strategy, &node, Direction::Down);
        if let Some(x) = down {
            frontier.push(x);
        }
        let ghost fr3 = frontier@;
        let left = successor(map, strategy, &node, Direction::Left);
        if let Some(x) = left {
            frontier.push(x);
        }
        let ghost fr4 = frontier@;
        let right = successor(map, strategy, &node, Direction::Right);
        if let Some(x) = right {
            frontier.push(x);
        }
        let ghost fr5 = frontier@;
        let entry = (node.player, node.crates.clone());
        assert(entry.1@ == node.crates@);
        proof {
            let y = node_key(node);
            let f = frontier@;
            assert(closed_key(entry) == y);
            assert forall|t: int| 0 <= t < fr0.len() - 1 implies #[trigger] f[t] == fr0.remove(j as int)[t] by {
                assert(fr1[t] == fr2[t]);
                assert(fr2[t] == fr3[t]);
                assert(fr3[t] == fr4[t]);
                assert(fr4[t] == fr5[t]);
            }
            assert forall|t: int| 0 <= t < f.len() implies node_ok(g, strategy, #[trigger] f[t]) by {
                if t < fr1.len() {
                    assert(fr1[t] == fr2[t]);
                    assert(fr2[t] == fr3[t]);
                    assert(fr3[t] == fr4[t]);
                    assert(fr4[t] == fr5[t]);
                    assert(fr1[t] == fr0.remove(j as int)[t]);
                    if t < j {
                        assert(fr0.remove(j as int)[t] == fr0[t]);
                    } else {
                        assert(fr0.remove(j as int)[t] == fr0[t + 1]);
                    }
                } else if t < fr2.len() {
                    assert(fr2[t] == fr3[t]);
                    assert(fr3[t] == fr4[t]);
                    assert(fr4[t] == fr5[t]);
                } else if t < fr3.len() {
                    assert(fr3[t] == fr4[t]);
                    assert(fr4[t] == fr5[t]);
                } else if t < fr4.len() {
                    assert(fr4[t] == fr5[t]);
                }
            }
            assert forall|d: Direction| #[trigger] key_action(g, y, d) is Some implies entry_for(
                f,
                key_apply(y, d, key_action(g, y, d).unwrap()),
                plus(node_cost(node), step_cost(strategy, key_action(g, y, d).unwrap())),
            ) by {
                let m = key_action(g, y, d).unwrap();
                match d {
                    Direction::Up => {
                        let t = fr1.len() as int;
                        assert(fr2[t] == fr3[t]);
                        assert(fr3[t] == fr4[t]);
                        assert(fr4[t] == fr5[t]);
                        assert(node_key(f[t]) == key_apply(y, d, m));
                    },
                    Direction::Down => {
                        let t = fr2.len() as int;
                        assert(fr3[t] == fr4[t]);
                        assert(fr4[t] == fr5[t]);
                        assert(node_key(f[t]) == key_apply(y, d, m));
                    },
                    Direction::Left => {
                        let t = fr3.len() as int;
                        assert(fr4[t] == fr5[t]);
                        assert(node_key(f[t]) == key_apply(y, d, m));
                    },
                    Direction::Right => {
                        let t = fr4.len() as int;
                        assert(node_key(f[t]) == key_apply(y, d, m));
                    },
                }
            }
            lemma_close(g, strategy, fr0, closed@, dc, j as int, entry, f);
        }
        closed.push(entry);
        proof {
            dc = dc.push(node_cost(node));
        }
    }
}

} // verus!
