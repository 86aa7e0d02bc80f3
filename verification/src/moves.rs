use vstd::prelude::*;
use crate::vector::Vector2;
use crate::direction::{Direction, step, step_exec, all_directions};
use crate::level::{Level, LevelView, in_bounds_spec, index_of, lemma_index_bounds, lemma_index_injective};
use crate::replay::wall_at;
use crate::reach::{count_false, lemma_count_false_update};
use crate::tile::{Tile, WALL, TARGET};
use crate::solver::flag_at;

verus! {

/// Where one step of the player in direction `d` leads from state `s` (the
/// crate, alone on the level, at `s.0`, the player at `s.1`): the player
/// enters a cell without a wall, and where that cell holds the crate, pushes
/// it onto a cell without a wall.
pub open spec fn move_next(v: LevelView, s: (Vector2, Vector2), d: Direction) -> Option<(Vector2, Vector2)> {
    let q2 = step(s.1, d);
    if wall_at(v, q2) {
        None
    } else if q2 == s.0 {
        if wall_at(v, step(s.0, d)) {
            None
        } else {
            Some((step(s.0, d), q2))
        }
    } else {
        Some((s.0, q2))
    }
}

/// The states reached from `start` in at most `k` steps of the player.
pub open spec fn within(v: LevelView, start: (Vector2, Vector2), k: nat) -> Set<(Vector2, Vector2)>
    decreases k,
{
    if k == 0 {
        set![start]
    } else {
        let w = within(v, start, (k - 1) as nat);
        w.union(
            Set::new(
                |t: (Vector2, Vector2)|
                    exists|s: (Vector2, Vector2), d: Direction| #[trigger]
                        w.contains(s) && #[trigger] move_next(v, s, d) == Some(t),
            ),
        )
    }
}

/// Whether some state of `w` has the crate on a target.
pub open spec fn goal_in(v: LevelView, w: Set<(Vector2, Vector2)>) -> bool {
    exists|s: (Vector2, Vector2)| #[trigger] w.contains(s) && flag_at(v, s.0, TARGET)
}

/// Whether `k` moves of the player, pushes included, and no fewer, bring the
/// crate at `p`, alone on the level with the player where the level puts it,
/// onto a target.
pub open spec fn fewest_moves(v: LevelView, p: Vector2, k: nat) -> bool {
    &&& goal_in(v, within(v, (p, v.player), k))
    &&& forall|j: nat| j < k ==> !goal_in(v, #[trigger] within(v, (p, v.player), j))
}

/// Whether some number of moves of the player brings the crate at `p`,
/// alone on the level with the player where the level puts it, onto a target.
pub open spec fn movable_to_target(v: LevelView, p: Vector2) -> bool {
    exists|k: nat| goal_in(v, #[trigger] within(v, (p, v.player), k))
}

/// The states first reached in exactly `k` steps.
pub open spec fn layer(v: LevelView, start: (Vector2, Vector2), k: nat) -> Set<(Vector2, Vector2)> {
    if k == 0 {
        within(v, start, 0)
    } else {
        within(v, start, k).difference(within(v, start, (k - 1) as nat))
    }
}

/// Whether both cells of a state lie on the grid.
pub open spec fn state_in(size: Vector2, s: (Vector2, Vector2)) -> bool {
    in_bounds_spec(size, s.0) && in_bounds_spec(size, s.1)
}

/// The slot of a state in a table of one entry per pair of cells.
pub open spec fn state_slot(size: Vector2, s: (Vector2, Vector2)) -> int {
    index_of(size, s.0) * (size.x * size.y) + index_of(size, s.1)
}

/// The states reached within `k` steps include those within fewer.
proof fn lemma_within_mono(v: LevelView, start: (Vector2, Vector2), j: nat, k: nat)
    requires
        j <= k,
    ensures
        within(v, start, j).subset_of(within(v, start, k)),
    decreases k,
{
    if j < k {
        lemma_within_mono(v, start, j, (k - 1) as nat);
    }
}

/// Once a step adds nothing, nothing more is ever added.
proof fn lemma_within_fixed(v: LevelView, start: (Vector2, Vector2), k: nat, j: nat)
    requires
        within(v, start, k + 1) == within(v, start, k),
        k <= j,
    ensures
        within(v, start, j) == within(v, start, k),
    decreases j,
{
    if j > k {
        lemma_within_fixed(v, start, k, (j - 1) as nat);
        assert(within(v, start, j) =~= within(v, start, (k + 1) as nat));
    }
}

/// States reached from a state on the grid stay on the grid.
proof fn lemma_within_in(v: LevelView, start: (Vector2, Vector2), k: nat, s: (Vector2, Vector2))
    requires
        state_in(v.size, start),
        within(v, start, k).contains(s),
    ensures
        state_in(v.size, s),
    decreases k,
{
    if k > 0 {
        let w = within(v, start, (k - 1) as nat);
        if !w.contains(s) {
            let (s0, d) = choose|s0: (Vector2, Vector2), d: Direction| #[trigger]
                w.contains(s0) && #[trigger] move_next(v, s0, d) == Some(s);
            lemma_within_in(v, start, (k - 1) as nat, s0);
        } else {
            lemma_within_in(v, start, (k - 1) as nat, s);
        }
    }
}

/// Distinct states on the grid have distinct slots, each within the table.
proof fn lemma_state_slot(size: Vector2, s: (Vector2, Vector2), t: (Vector2, Vector2))
    requires
        0 <= size.x,
        0 <= size.y,
        state_in(size, s),
        state_in(size, t),
    ensures
        0 <= state_slot(size, s) < (size.x * size.y) * (size.x * size.y),
        state_slot(size, s) == state_slot(size, t) ==> s == t,
{
    lemma_index_bounds(size, s.0);
    lemma_index_bounds(size, s.1);
    lemma_index_bounds(size, t.0);
    lemma_index_bounds(size, t.1);
    let n = size.x * size.y;
    let (a, b, c, e) = (index_of(size, s.0), index_of(size, s.1), index_of(size, t.0), index_of(size, t.1));
    assert(0 <= a * n + b < n * n) by (nonlinear_arith)
        requires
            0 <= a < n,
            0 <= b < n,
    ;
    if a * n + b == c * n + e {
        assert(a == c && b == e) by (nonlinear_arith)
            requires
                0 <= a < n,
                0 <= b < n,
                0 <= c < n,
                0 <= e < n,
                a * n + b == c * n + e,
        ;
        lemma_index_injective(size, s.0, t.0);
        lemma_index_injective(size, s.1, t.1);
    }
}

/// A table of `false` entries counts them all.
proof fn lemma_count_false_all(s: Seq<bool>)
    requires
        forall|i: int| 0 <= i < s.len() ==> !s[i],
    ensures
        count_false(s) == s.len(),
    decreases s.len(),
{
    if s.len() > 0 {
        lemma_count_false_all(s.drop_last());
    }
}

/// Whether `p` is off the grid or a wall.
fn wall_here(map: &Level, p: &Vector2) -> (r: bool)
    requires
        map.grid_wf(),
    ensures
        r == wall_at(map@, *p),
{
    match map.at(p) {
        None => true,
        Some(tile) => tile.intersects(Tile(WALL)),
    }
}

/// Where one step of the player in direction `d` leads from state `s`.
fn move_next_exec(map: &Level, s: (Vector2, Vector2), d: Direction) -> (r: Option<(Vector2, Vector2)>)
    requires
        map.grid_wf(),
        state_in(map.size, s),
    ensures
        r == move_next(map@, s, d),
{
    let q2 = step_exec(&s.1, d);
    if wall_here(map, &q2) {
        None
    } else if q2 == s.0 {
        let b2 = step_exec(&s.0, d);
        if wall_here(map, &b2) {
            None
        } else {
            Some((b2, q2))
        }
    } else {
        Some((s.0, q2))
    }
}

/// The slot of a state on the grid.
fn state_index(map: &Level, n: usize, s: (Vector2, Vector2)) -> (r: usize)
    requires
        map.grid_wf(),
        n == map.data@.len(),
        n * n <= usize::MAX,
        state_in(map.size, s),
    ensures
        r == state_slot(map.size, s),
        r < n * n,
{
    proof {
        lemma_state_slot(map.size, s, s);
        lemma_index_bounds(map.size, s.0);
        lemma_index_bounds(map.size, s.1);
    }
    let a = (s.0.y * map.size.x + s.0.x) as usize;
    let b = (s.1.y * map.size.x + s.1.x) as usize;
    assert(a * n + b < n * n) by (nonlinear_arith)
        requires
            a < n,
            b < n,
    ;
    a * n + b
}

/// After every state of layer `k` has been stepped from in every direction,
/// with each state reached marked and each newly marked one listed in
/// `next`, `next` is layer `k + 1` and the marks are the states within
/// `k + 1` steps.
proof fn lemma_expand_done(
    v: LevelView,
    st: (Vector2, Vector2),
    k: nat,
    frontier: Seq<(Vector2, Vector2)>,
    next: Seq<(Vector2, Vector2)>,
    vis: Seq<bool>,
)
    requires
        state_in(v.size, st),
        forall|s: (Vector2, Vector2)| #[trigger] frontier.contains(s) <==> layer(v, st, k).contains(s),
        forall|g: int, d: Direction|
            0 <= g < frontier.len() && (#[trigger] move_next(v, frontier[g], d)) is Some ==> vis[state_slot(
                v.size,
                move_next(v, frontier[g], d)->0,
            )],
        forall|x: (Vector2, Vector2)|
            #[trigger] state_in(v.size, x) ==> (vis[state_slot(v.size, x)] <==> (within(v, st, k).contains(x)
                || next.contains(x))),
        forall|x: (Vector2, Vector2)| #[trigger] next.contains(x) ==> layer(v, st, k + 1).contains(x),
    ensures
        forall|x: (Vector2, Vector2)| #[trigger] next.contains(x) <==> layer(v, st, k + 1).contains(x),
        forall|x: (Vector2, Vector2)|
            #[trigger] state_in(v.size, x) ==> (vis[state_slot(v.size, x)] <==> within(v, st, k + 1).contains(x)),
{
    let w = within(v, st, k);
    assert forall|x: (Vector2, Vector2)| #[trigger] layer(v, st, k + 1).contains(x) implies next.contains(x) by {
        assert(within(v, st, k + 1).contains(x) && !w.contains(x));
        let (s, d) = choose|s: (Vector2, Vector2), d: Direction| #[trigger]
            w.contains(s) && #[trigger] move_next(v, s, d) == Some(x);
        if k > 0 {
            let w0 = within(v, st, (k - 1) as nat);
            if w0.contains(s) {
                assert(w.contains(x));
            }
        }
        assert(layer(v, st, k).contains(s));
        assert(frontier.contains(s));
        let g = choose|g: int| 0 <= g < frontier.len() && frontier[g] == s;
        assert(move_next(v, frontier[g], d) is Some);
        lemma_within_in(v, st, k + 1, x);
    }
    assert forall|x: (Vector2, Vector2)|
        #[trigger] state_in(v.size, x) implies (vis[state_slot(v.size, x)] <==> within(v, st, k + 1).contains(x)) by {
        lemma_within_mono(v, st, k, k + 1);
        if within(v, st, k + 1).contains(x) && !w.contains(x) {
            assert(layer(v, st, k + 1).contains(x));
        }
    }
}

/// Marking a newly reached state `t`, a step from state `s` of layer `k`,
/// and listing it keeps the marks, the list and the steps taken so far in
/// step with the layers.
proof fn lemma_mark_state(
    v: LevelView,
    st: (Vector2, Vector2),
    k: nat,
    frontier: Seq<(Vector2, Vector2)>,
    s: (Vector2, Vector2),
    f: int,
    dd: int,
    vb: Seq<bool>,
    nb: Seq<(Vector2, Vector2)>,
    t: (Vector2, Vector2),
)
    requires
        0 <= v.size.x,
        0 <= v.size.y,
        state_in(v.size, st),
        state_in(v.size, t),
        0 <= f < frontier.len(),
        0 <= dd < 4,
        s == frontier[f],
        layer(v, st, k).contains(s),
        move_next(v, s, all_directions()[dd]) == Some(t),
        vb.len() == (v.size.x * v.size.y) * (v.size.x * v.size.y),
        !vb[state_slot(v.size, t)],
        forall|q: (Vector2, Vector2)| #[trigger] frontier.contains(q) <==> layer(v, st, k).contains(q),
        forall|x: (Vector2, Vector2)|
            #[trigger] state_in(v.size, x) ==> (vb[state_slot(v.size, x)] <==> (within(v, st, k).contains(x)
                || nb.contains(x))),
        forall|x: (Vector2, Vector2)| #[trigger] nb.contains(x) ==> layer(v, st, k + 1).contains(x),
        forall|g: int, d: Direction|
            0 <= g < f && (#[trigger] move_next(v, frontier[g], d)) is Some ==> vb[state_slot(
                v.size,
                move_next(v, frontier[g], d)->0,
            )],
        forall|e: int|
            0 <= e < dd && (#[trigger] move_next(v, s, all_directions()[e])) is Some ==> vb[state_slot(
                v.size,
                move_next(v, s, all_directions()[e])->0,
            )],
    ensures
        ({
            let vis = vb.update(state_slot(v.size, t), true);
            let next = nb.push(t);
            &&& forall|x: (Vector2, Vector2)|
                #[trigger] state_in(v.size, x) ==> (vis[state_slot(v.size, x)] <==> (within(v, st, k).contains(x)
                    || next.contains(x)))
            &&& forall|x: (Vector2, Vector2)| #[trigger] next.contains(x) ==> layer(v, st, k + 1).contains(x)
            &&& forall|g: int, d: Direction|
                0 <= g < f && (#[trigger] move_next(v, frontier[g], d)) is Some ==> vis[state_slot(
                    v.size,
                    move_next(v, frontier[g], d)->0,
                )]
            &&& forall|e: int|
                0 <= e < dd + 1 && (#[trigger] move_next(v, s, all_directions()[e])) is Some ==> vis[state_slot(
                    v.size,
                    move_next(v, s, all_directions()[e])->0,
                )]
        }),
{
    let vis = vb.update(state_slot(v.size, t), true);
    let next = nb.push(t);
    lemma_state_slot(v.size, t, t);
    assert(within(v, st, k + 1).contains(t)) by {
        assert(within(v, st, k).contains(s));
    }
    assert(!within(v, st, k).contains(t));
    assert(layer(v, st, k + 1).contains(t));
    assert forall|x: (Vector2, Vector2)|
        #[trigger] state_in(v.size, x) implies (vis[state_slot(v.size, x)] <==> (within(v, st, k).contains(x)
            || next.contains(x))) by {
        lemma_state_slot(v.size, x, t);
        if next.contains(x) && x != t {
            let i = choose|i: int| 0 <= i < next.len() && next[i] == x;
            assert(i != nb.len());
            assert(nb[i] == x);
        }
        if nb.contains(x) {
            let i = choose|i: int| 0 <= i < nb.len() && nb[i] == x;
            assert(next[i] == x);
        }
        if x == t {
            assert(next[nb.len() as int] == t);
        }
    }
    assert forall|x: (Vector2, Vector2)| #[trigger] next.contains(x) implies layer(v, st, k + 1).contains(x) by {
        if x != t {
            let i = choose|i: int| 0 <= i < next.len() && next[i] == x;
            assert(i != nb.len());
            assert(nb[i] == x);
            assert(nb.contains(x));
        }
    }
    assert forall|g: int, d: Direction|
        0 <= g < f && (#[trigger] move_next(v, frontier[g], d)) is Some implies vis[state_slot(
            v.size,
            move_next(v, frontier[g], d)->0,
        )] by {
        let y = move_next(v, frontier[g], d)->0;
        assert(vb[state_slot(v.size, y)]);
        assert(frontier.contains(frontier[g]));
        assert(layer(v, st, k).contains(frontier[g]));
        lemma_within_in(v, st, k, frontier[g]);
        assert(within(v, st, k + 1).contains(y)) by {
            assert(within(v, st, k).contains(frontier[g]));
        }
        lemma_within_in(v, st, k + 1, y);
        lemma_state_slot(v.size, y, t);
    }
    assert forall|e: int|
        0 <= e < dd + 1 && (#[trigger] move_next(v, s, all_directions()[e])) is Some implies vis[state_slot(
            v.size,
            move_next(v, s, all_directions()[e])->0,
        )] by {
        let y = move_next(v, s, all_directions()[e])->0;
        if e < dd {
            assert(vb[state_slot(v.size, y)]);
            assert(within(v, st, k + 1).contains(y)) by {
                assert(within(v, st, k).contains(s));
            }
            lemma_within_in(v, st, k + 1, y);
            lemma_state_slot(v.size, y, t);
        }
    }
}

/// The fewest moves of the player, pushes included, that bring a crate at
/// `p`, alone on the level with the player where the level puts it, onto a
/// target: a breadth-first search over the cells of the crate and the
/// player, layer by layer. None where no moves do it, or where a table of
/// one entry per pair of cells does not fit in memory.
pub fn fewest_moves_from(map: &Level, p: Vector2) -> (r: Option<usize>)
    requires
        map.wf(),
        in_bounds_spec(map.size, p),
    ensures
        r matches Some(k) ==> fewest_moves(map@, p, k as nat),
        map.data@.len() * map.data@.len() <= usize::MAX ==> (r is Some <==> movable_to_target(map@, p)),
{
    let n = map.data.len();
    let nn = match n.checked_mul(n) {
        Some(x) => x,
        None => {
            return None;
        },
    };
    let ghost v = map@;
    let start = (p, map.player_position);
    let ghost st = start;
    let mut visited: Vec<bool> = vec![false; nn];
    proof {
        lemma_count_false_all(visited@);
    }
    let si = state_index(map, n, start);
    proof {
        lemma_count_false_update(visited@, si as int);
    }
    visited.set(si, true);
    let mut frontier: Vec<(Vector2, Vector2)> = Vec::new();
    frontier.push(start);
    let mut k: usize = 0;
    let dirs = Direction::all();
    proof {
        assert forall|x: (Vector2, Vector2)|
            #[trigger] state_in(v.size, x) implies (visited@[state_slot(v.size, x)] <==> within(v, st, 0).contains(x)) by {
            lemma_state_slot(v.size, x, st);
        }
        assert forall|s: (Vector2, Vector2)| #[trigger] frontier@.contains(s) <==> layer(v, st, 0).contains(s) by {
            if frontier@.contains(s) {
                assert(frontier@[0] == s);
            }
            if layer(v, st, 0).contains(s) {
                assert(frontier@[0] == s);
            }
        }
    }
    loop
        invariant
            map.wf(),
            v == map@,
            n == map.data@.len(),
            nn == n * n,
            visited@.len() == nn,
            st == start,
            state_in(v.size, st),
            st == (p, v.player),
            dirs@ == all_directions(),
            forall|x: (Vector2, Vector2)|
                #[trigger] state_in(v.size, x) ==> (visited@[state_slot(v.size, x)] <==> within(v, st, k as nat).contains(x)),
            forall|s: (Vector2, Vector2)| #[trigger] frontier@.contains(s) <==> layer(v, st, k as nat).contains(s),
            frontier@.len() > 0,
            forall|j: nat| j < k ==> !goal_in(v, #[trigger] within(v, st, j)),
            count_false(visited@) + k + 1 <= nn,
        decreases count_false(visited@),
    {
        // a state of this layer with the crate on a target ends the search
        let mut f: usize = 0;
        while f < frontier.len()
            invariant
                map.wf(),
                v == map@,
                f <= frontier@.len(),
                forall|g: int| 0 <= g < f ==> !flag_at(v, (#[trigger] frontier@[g]).0, TARGET),
                forall|s: (Vector2, Vector2)| #[trigger] frontier@.contains(s) <==> layer(v, st, k as nat).contains(s),
                forall|j: nat| j < k ==> !goal_in(v, #[trigger] within(v, st, j)),
                st == (p, v.player),
            decreases frontier@.len() - f,
        {
            if crate::solver::has_flag_at(map, &frontier[f].0, TARGET) {
                proof {
                    let s = frontier@[f as int];
                    assert(frontier@.contains(s));
                    assert(layer(v, st, k as nat).contains(s));
                    assert(within(v, st, k as nat).contains(s));
                    assert(goal_in(v, within(v, st, k as nat)));
                    assert(movable_to_target(v, p));
                }
                return Some(k);
            }
            f = f + 1;
        }
        proof {
            assert(!goal_in(v, within(v, st, k as nat))) by {
                if goal_in(v, within(v, st, k as nat)) {
                    let s = choose|s: (Vector2, Vector2)| #[trigger] within(v, st, k as nat).contains(s) && flag_at(v, s.0, TARGET);
                    if k > 0 && within(v, st, (k - 1) as nat).contains(s) {
                        assert(goal_in(v, within(v, st, (k - 1) as nat)));
                    } else {
                        assert(layer(v, st, k as nat).contains(s));
                        assert(frontier@.contains(s));
                        let g = choose|g: int| 0 <= g < frontier@.len() && frontier@[g] == s;
                        assert(!flag_at(v, frontier@[g].0, TARGET));
                    }
                }
            }
        }
        // step from every state of this layer in every direction
        let ghost count0 = count_false(visited@);
        let mut next: Vec<(Vector2, Vector2)> = Vec::new();
        let mut f: usize = 0;
        while f < frontier.len()
            invariant
                map.wf(),
                v == map@,
                n == map.data@.len(),
                nn == n * n,
                visited@.len() == nn,
                state_in(v.size, st),
                dirs@ == all_directions(),
                f <= frontier@.len(),
                forall|s: (Vector2, Vector2)| #[trigger] frontier@.contains(s) <==> layer(v, st, k as nat).contains(s),
                forall|x: (Vector2, Vector2)|
                    #[trigger] state_in(v.size, x) ==> (visited@[state_slot(v.size, x)] <==> (within(v, st, k as nat).contains(x)
                        || next@.contains(x))),
                forall|x: (Vector2, Vector2)| #[trigger] next@.contains(x) ==> layer(v, st, (k + 1) as nat).contains(x),
                forall|g: int, d: Direction|
                    0 <= g < f && (#[trigger] move_next(v, frontier@[g], d)) is Some ==> visited@[state_slot(
                        v.size,
                        move_next(v, frontier@[g], d)->0,
                    )],
                count_false(visited@) + next@.len() == count0,
            decreases frontier@.len() - f,
        {
            let s = frontier[f];
            proof {
                assert(frontier@.contains(s));
                assert(layer(v, st, k as nat).contains(s));
                lemma_within_in(v, st, k as nat, s);
            }
            let mut dd: usize = 0;
            while dd < 4
                invariant
                    map.wf(),
                    v == map@,
                    n == map.data@.len(),
                    nn == n * n,
                    visited@.len() == nn,
                    state_in(v.size, st),
                    state_in(v.size, s),
                    dirs@ == all_directions(),
                    f < frontier@.len(),
                    s == frontier@[f as int],
                    layer(v, st, k as nat).contains(s),
                    forall|q: (Vector2, Vector2)| #[trigger] frontier@.contains(q) <==> layer(v, st, k as nat).contains(q),
                    dd <= 4,
                    forall|x: (Vector2, Vector2)|
                        #[trigger] state_in(v.size, x) ==> (visited@[state_slot(v.size, x)] <==> (within(
                            v,
                            st,
                            k as nat,
                        ).contains(x) || next@.contains(x))),
                    forall|x: (Vector2, Vector2)| #[trigger] next@.contains(x) ==> layer(v, st, (k + 1) as nat).contains(x),
                    forall|g: int, d: Direction|
                        0 <= g < f && (#[trigger] move_next(v, frontier@[g], d)) is Some ==> visited@[state_slot(
                            v.size,
                            move_next(v, frontier@[g], d)->0,
                        )],
                    forall|e: int|
                        0 <= e < dd && (#[trigger] move_next(v, s, all_directions()[e])) is Some ==> visited@[state_slot(
                            v.size,
                            move_next(v, s, all_directions()[e])->0,
                        )],
                    count_false(visited@) + next@.len() == count0,
                decreases 4 - dd,
            {
                let d = dirs[dd];
                match move_next_exec(map, s, d) {
                    Some(t) => {
                        proof {
                            assert(within(v, st, (k + 1) as nat).contains(t)) by {
                                assert(within(v, st, k as nat).contains(s));
                            }
                            lemma_within_in(v, st, (k + 1) as nat, t);
                        }
                        let ti = state_index(map, n, t);
                        if !visited[ti] {
                            let ghost vb = visited@;
                            let ghost nb = next@;
                            proof {
                                lemma_count_false_update(visited@, ti as int);
                            }
                            visited.set(ti, true);
                            next.push(t);
                            proof {
                                lemma_mark_state(v, st, k as nat, frontier@, s, f as int, dd as int, vb, nb, t);
                            }
                        }
                    },
                    None => {},
                }
                dd = dd + 1;
            }
            proof {
                assert forall|g: int, d: Direction|
                    0 <= g < f + 1 && (#[trigger] move_next(v, frontier@[g], d)) is Some implies visited@[state_slot(
                        v.size,
                        move_next(v, frontier@[g], d)->0,
                    )] by {
                    if g == f {
                        let e: int = match d {
                            Direction::Up => 0,
                            Direction::Down => 1,
                            Direction::Left => 2,
                            Direction::Right => 3,
                        };
                        assert(all_directions()[e] == d);
                    }
                }
            }
            f = f + 1;
        }
        proof {
            lemma_expand_done(v, st, k as nat, frontier@, next@, visited@);
        }
        if next.len() == 0 {
            proof {
                assert(within(v, st, (k + 1) as nat) =~= within(v, st, k as nat)) by {
                    lemma_within_mono(v, st, k as nat, (k + 1) as nat);
                    assert forall|x: (Vector2, Vector2)| within(v, st, (k + 1) as nat).contains(x) implies within(
                        v,
                        st,
                        k as nat,
                    ).contains(x) by {
                        if !within(v, st, k as nat).contains(x) {
                            assert(layer(v, st, (k + 1) as nat).contains(x));
                            assert(next@.contains(x));
                        }
                    }
                }
                assert(!movable_to_target(v, p)) by {
                    if movable_to_target(v, p) {
                        let j = choose|j: nat| goal_in(v, #[trigger] within(v, (p, v.player), j));
                        if j >= k {
                            lemma_within_fixed(v, st, k as nat, j);
                        }
                    }
                }
            }
            return None;
        }
        proof {
            assert forall|j: nat| j < k + 1 implies !goal_in(v, #[trigger] within(v, st, j)) by {
            }
        }
        k = k + 1;
        frontier = next;
    }
}

} // verus!
