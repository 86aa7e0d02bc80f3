use vstd::prelude::*;
use crate::vector::Vector2;
use crate::direction::{Direction, step, step_back, step_exec, step_back_exec, dir_index, lemma_step_back_step};
use crate::level::{Level, LevelView, in_bounds_spec, index_of, lemma_index_bounds, lemma_index_injective, open_fn};
use crate::reach::{adjacent, lemma_step_adjacent, count_false, lemma_count_false_update, reachable};
use crate::replay::wall_at;
use crate::positions::contains_position;
use crate::tile::{Tile, WALL};

verus! {

/// A crate at a position, reached by a push in a direction.
#[derive(Clone, Copy, PartialEq, Eq, Hash, Debug, Structural)]
pub struct PushState {
    pub box_position: Vector2,
    pub push_direction: Direction,
}

/// Whether `path` is a path of a crate from `start` that ends where `state`
/// puts it: it begins at `start`, moves between adjacent free cells, and its
/// last step, if any, is in the direction of the push of `state`.
pub open spec fn push_path_ok(
    map: crate::level::LevelView,
    start: Vector2,
    state: PushState,
    path: Seq<Vector2>,
) -> bool {
    &&& path.len() >= 1
    &&& path[0] == start
    &&& path.last() == state.box_position
    &&& forall|k: int| 0 <= k < path.len() ==> !wall_at(map, #[trigger] path[k])
    &&& forall|k: int| 1 <= k < path.len() ==> adjacent(path[k - 1], #[trigger] path[k])
    &&& path.len() >= 2 ==> path.last() == step(path[path.len() - 2], state.push_direction)
}

/// The slot of a push state in a table of four entries per cell.
pub open spec fn slot(size: Vector2, s: PushState) -> int {
    4 * index_of(size, s.box_position) + dir_index(s.push_direction)
}

/// Whether the crate that starts at `start` can first be pushed in the
/// direction of `s`: the cell behind it is no wall and the player reaches it,
/// the crates of `init` standing in the way.
pub open spec fn push_start(v: LevelView, init: Set<Vector2>, start: Vector2, s: PushState) -> bool {
    &&& s.box_position == start
    &&& !wall_at(v, step_back(start, s.push_direction))
    &&& reachable(open_fn(v, WALL, init), v.player, step_back(start, s.push_direction))
}

/// Whether one push takes the crate from push state `s` to push state `t`:
/// the cell it enters holds no wall and no other crate, and the player,
/// standing where the push of `s` left it, reaches the cell behind the crate
/// without crossing a crate.
pub open spec fn push_edge(v: LevelView, init: Set<Vector2>, start: Vector2, s: PushState, t: PushState) -> bool {
    let boxes = init.remove(start).insert(s.box_position);
    let d = t.push_direction;
    &&& t.box_position == step(s.box_position, d)
    &&& !wall_at(v, t.box_position)
    &&& !boxes.contains(t.box_position)
    &&& !wall_at(v, step_back(s.box_position, d))
    &&& reachable(
        open_fn(v, WALL, boxes),
        step_back(s.box_position, s.push_direction),
        step_back(s.box_position, d),
    )
}

/// Whether `ss` is a run of push states from a first push of the crate on.
pub open spec fn push_chain(v: LevelView, init: Set<Vector2>, start: Vector2, ss: Seq<PushState>) -> bool {
    &&& ss.len() >= 1
    &&& push_start(v, init, start, ss[0])
    &&& forall|k: int| 1 <= k < ss.len() ==> push_edge(v, init, start, ss[k - 1], #[trigger] ss[k])
}

/// Whether push state `t` can be reached by pushes of the crate that starts at `start`.
pub open spec fn push_reachable(v: LevelView, init: Set<Vector2>, start: Vector2, t: PushState) -> bool {
    exists|ss: Seq<PushState>| push_chain(v, init, start, ss) && ss.last() == t
}

/// Whether some run of pushes of `n` states ends at push state `t`.
pub open spec fn reached_in(v: LevelView, init: Set<Vector2>, start: Vector2, t: PushState, n: nat) -> bool {
    exists|ss: Seq<PushState>| push_chain(v, init, start, ss) && ss.last() == t && ss.len() == n
}

/// Whether some run of pushes ends at push state `t` with the crate visiting
/// the cells of `path` one state after another.
pub open spec fn reached_along(v: LevelView, init: Set<Vector2>, start: Vector2, t: PushState, path: Seq<Vector2>) -> bool {
    exists|ss: Seq<PushState>|
        push_chain(v, init, start, ss) && ss.last() == t && ss.len() == path.len() && forall|k: int|
            0 <= k < ss.len() ==> (#[trigger] ss[k]).box_position == path[k]
}

/// Whether push state `t` is one of those listed in `entries`.
pub open spec fn listed(entries: Seq<(PushState, Vec<Vector2>)>, t: PushState) -> bool {
    exists|e: int| 0 <= e < entries.len() && (#[trigger] entries[e]).0 == t
}

/// A set of push states that holds the first pushes and is closed under
/// pushes holds every push state that pushes reach.
proof fn lemma_closed_holds_reachable(
    v: LevelView,
    init: Set<Vector2>,
    start: Vector2,
    entries: Seq<(PushState, Vec<Vector2>)>,
    ss: Seq<PushState>,
)
    requires
        forall|s: PushState| #[trigger] push_start(v, init, start, s) ==> listed(entries, s),
        forall|s: PushState, t: PushState|
            listed(entries, s) && #[trigger] push_edge(v, init, start, s, t) ==> listed(entries, t),
        push_chain(v, init, start, ss),
    ensures
        listed(entries, ss.last()),
    decreases ss.len(),
{
    if ss.len() > 1 {
        let pre = ss.drop_last();
        assert forall|k: int| 1 <= k < pre.len() implies push_edge(v, init, start, pre[k - 1], #[trigger] pre[k]) by {
            assert(pre[k] == ss[k] && pre[k - 1] == ss[k - 1]);
        }
        lemma_closed_holds_reachable(v, init, start, entries, pre);
        assert(push_edge(v, init, start, ss[ss.len() - 2], ss[ss.len() - 1]));
    } else {
        assert(push_start(v, init, start, ss[0]));
    }
}

/// A run of push states grows by one more push.
pub(crate) proof fn lemma_chain_extend(v: LevelView, init: Set<Vector2>, start: Vector2, ss: Seq<PushState>, t: PushState)
    requires
        push_chain(v, init, start, ss),
        push_edge(v, init, start, ss.last(), t),
    ensures
        push_chain(v, init, start, ss.push(t)),
{
    let n = ss.push(t);
    assert forall|k: int| 1 <= k < n.len() implies push_edge(v, init, start, n[k - 1], #[trigger] n[k]) by {
        if k < ss.len() {
            assert(n[k] == ss[k] && n[k - 1] == ss[k - 1]);
        }
    }
}

/// Whether no run of pushes reaches push state `t` in fewer than `n` states.
pub open spec fn fewest_states(v: LevelView, init: Set<Vector2>, start: Vector2, t: PushState, n: nat) -> bool {
    forall|ss: Seq<PushState>| #[trigger] push_chain(v, init, start, ss) && ss.last() == t ==> n <= ss.len()
}

/// In a list where every first push has a path of one cell and every push
/// from a listed state leads to a listed state with a path at most one cell
/// longer, no run of pushes is shorter than the path listed for its end.
proof fn lemma_listed_fewest(
    v: LevelView,
    init: Set<Vector2>,
    start: Vector2,
    entries: Seq<(PushState, Vec<Vector2>)>,
    ss: Seq<PushState>,
)
    requires
        forall|a: int, b: int| 0 <= a < b < entries.len() ==> (#[trigger] entries[a]).0 != (#[trigger] entries[b]).0,
        forall|s: PushState| #[trigger] push_start(v, init, start, s) ==> exists|e: int|
            0 <= e < entries.len() && (#[trigger] entries[e]).0 == s && entries[e].1@.len() == 1,
        forall|f: int, t: PushState|
            0 <= f < entries.len() && #[trigger] push_edge(v, init, start, entries[f].0, t) ==> exists|e: int|
                0 <= e < entries.len() && (#[trigger] entries[e]).0 == t && entries[e].1@.len() <= entries[f].1@.len() + 1,
        push_chain(v, init, start, ss),
    ensures
        exists|e: int| 0 <= e < entries.len() && (#[trigger] entries[e]).0 == ss.last(),
        forall|e: int| 0 <= e < entries.len() && (#[trigger] entries[e]).0 == ss.last() ==> entries[e].1@.len() <= ss.len(),
    decreases ss.len(),
{
    if ss.len() == 1 {
        assert(push_start(v, init, start, ss[0]));
        let e0 = choose|e: int| 0 <= e < entries.len() && (#[trigger] entries[e]).0 == ss[0] && entries[e].1@.len() == 1;
        assert forall|e: int| 0 <= e < entries.len() && (#[trigger] entries[e]).0 == ss.last() implies entries[e].1@.len() <= ss.len() by {
            if e != e0 {
                if e < e0 {
                    assert(entries[e].0 != entries[e0].0);
                } else {
                    assert(entries[e0].0 != entries[e].0);
                }
            }
        }
    } else {
        let pre = ss.drop_last();
        assert forall|k: int| 1 <= k < pre.len() implies push_edge(v, init, start, pre[k - 1], #[trigger] pre[k]) by {
            assert(pre[k] == ss[k] && pre[k - 1] == ss[k - 1]);
        }
        lemma_listed_fewest(v, init, start, entries, pre);
        let f = choose|e: int| 0 <= e < entries.len() && (#[trigger] entries[e]).0 == pre.last();
        assert(entries[f].1@.len() <= pre.len());
        assert(push_edge(v, init, start, ss[ss.len() - 2], ss[ss.len() - 1]));
        assert(push_edge(v, init, start, entries[f].0, ss.last()));
        let g = choose|e: int| 0 <= e < entries.len() && (#[trigger] entries[e]).0 == ss.last() && entries[e].1@.len() <= entries[f].1@.len() + 1;
        assert forall|e: int| 0 <= e < entries.len() && (#[trigger] entries[e]).0 == ss.last() implies entries[e].1@.len() <= ss.len() by {
            if e != g {
                if e < g {
                    assert(entries[e].0 != entries[g].0);
                } else {
                    assert(entries[g].0 != entries[e].0);
                }
            }
        }
    }
}

/// Whether the paths of `entries` grow no shorter along the list, none is
/// more than one cell longer than `n`, and each first push has a path of one
/// cell.
#[verifier::opaque]
pub open spec fn layered(
    v: LevelView,
    init: Set<Vector2>,
    start: Vector2,
    entries: Seq<(PushState, Vec<Vector2>)>,
    n: nat,
) -> bool {
    &&& forall|a: int, b: int| 0 <= a < b < entries.len() ==> (#[trigger] entries[a]).1@.len() <= (#[trigger] entries[b]).1@.len()
    &&& forall|e: int| 0 <= e < entries.len() ==> (#[trigger] entries[e]).1@.len() <= n + 1
    &&& forall|s: PushState| #[trigger] push_start(v, init, start, s) ==> exists|e: int|
        0 <= e < entries.len() && (#[trigger] entries[e]).0 == s && entries[e].1@.len() == 1
}

/// Whether every push from one of the first `m` listed states, and every
/// push from `state` in one of the first `k` directions, leads to a listed
/// state whose path is at most one cell longer.
#[verifier::opaque]
pub open spec fn expanded(
    v: LevelView,
    init: Set<Vector2>,
    start: Vector2,
    entries: Seq<(PushState, Vec<Vector2>)>,
    m: int,
    state: PushState,
    n: nat,
    k: int,
) -> bool {
    &&& forall|f: int, t: PushState|
        0 <= f < m && #[trigger] push_edge(v, init, start, entries[f].0, t) ==> exists|e: int|
            0 <= e < entries.len() && (#[trigger] entries[e]).0 == t && entries[e].1@.len() <= entries[f].1@.len() + 1
    &&& forall|t: PushState|
        #[trigger] push_edge(v, init, start, state, t) && dir_index(t.push_direction) < k ==> exists|e: int|
            0 <= e < entries.len() && (#[trigger] entries[e]).0 == t && entries[e].1@.len() <= n + 1
}

/// Trying one more direction from the state being expanded keeps the list
/// layered and expanded one direction further.
proof fn lemma_expand_step(
    v: LevelView,
    init: Set<Vector2>,
    start: Vector2,
    entries0: Seq<(PushState, Vec<Vector2>)>,
    entries: Seq<(PushState, Vec<Vector2>)>,
    m: int,
    state: PushState,
    n: nat,
    d: Direction,
    new_state: PushState,
    recorded: bool,
)
    requires
        layered(v, init, start, entries0, n),
        expanded(v, init, start, entries0, m, state, n, dir_index(d)),
        0 <= m <= entries0.len(),
        recorded ==> listed(entries, new_state) && new_state.push_direction == d
            && forall|t: PushState| push_edge(v, init, start, state, t) && t.push_direction == d ==> t == new_state,
        !recorded ==> entries == entries0 && forall|t: PushState|
            push_edge(v, init, start, state, t) ==> t.push_direction != d,
        entries == entries0 || (entries.len() == entries0.len() + 1 && entries.drop_last() == entries0
            && entries.last().1@.len() == n + 1),
    ensures
        layered(v, init, start, entries, n),
        expanded(v, init, start, entries, m, state, n, dir_index(d) + 1),
        forall|t: PushState| listed(entries0, t) ==> listed(entries, t),
{
    reveal(layered);
    reveal(expanded);
    assert forall|e: int| 0 <= e < entries0.len() implies entries[e] == entries0[e] by {
        if entries != entries0 {
            assert(entries.drop_last()[e] == entries0[e]);
        }
    }
    assert forall|t: PushState| listed(entries0, t) implies listed(entries, t) by {
        let e = choose|e: int| 0 <= e < entries0.len() && (#[trigger] entries0[e]).0 == t;
        assert(entries[e] == entries0[e]);
    }
    assert forall|a: int, b: int| 0 <= a < b < entries.len() implies (#[trigger] entries[a]).1@.len() <= (#[trigger] entries[b]).1@.len() by {
        assert(entries[a] == entries0[a]);
        if b < entries0.len() {
            assert(entries[b] == entries0[b]);
        }
    }
    assert forall|e: int| 0 <= e < entries.len() implies (#[trigger] entries[e]).1@.len() <= n + 1 by {
        if e < entries0.len() {
            assert(entries[e] == entries0[e]);
        }
    }
    assert forall|s: PushState| #[trigger] push_start(v, init, start, s) implies exists|e: int|
        0 <= e < entries.len() && (#[trigger] entries[e]).0 == s && entries[e].1@.len() == 1 by {
        let e = choose|e: int| 0 <= e < entries0.len() && (#[trigger] entries0[e]).0 == s && entries0[e].1@.len() == 1;
        assert(entries[e] == entries0[e]);
    }
    assert forall|f: int, t: PushState|
        0 <= f < m && #[trigger] push_edge(v, init, start, entries[f].0, t) implies exists|e: int|
            0 <= e < entries.len() && (#[trigger] entries[e]).0 == t && entries[e].1@.len() <= entries[f].1@.len() + 1 by {
        assert(entries[f] == entries0[f]);
        let e = choose|e: int| 0 <= e < entries0.len() && (#[trigger] entries0[e]).0 == t && entries0[e].1@.len() <= entries0[f].1@.len() + 1;
        assert(entries[e] == entries0[e]);
    }
    assert forall|t: PushState|
        #[trigger] push_edge(v, init, start, state, t) && dir_index(t.push_direction) < dir_index(d) + 1 implies exists|e: int|
            0 <= e < entries.len() && (#[trigger] entries[e]).0 == t && entries[e].1@.len() <= n + 1 by {
        if dir_index(t.push_direction) < dir_index(d) {
            let e = choose|e: int| 0 <= e < entries0.len() && (#[trigger] entries0[e]).0 == t && entries0[e].1@.len() <= n + 1;
            assert(entries[e] == entries0[e]);
        } else {
            assert(t.push_direction == d);
            assert(t == new_state);
            let e = choose|e: int| 0 <= e < entries.len() && (#[trigger] entries[e]).0 == t;
            assert(entries[e].1@.len() <= n + 1);
        }
    }
}

/// A run of pushes along a path grows by one more push along the path.
proof fn lemma_along_extend(
    v: LevelView,
    init: Set<Vector2>,
    start: Vector2,
    state: PushState,
    path: Seq<Vector2>,
    new_state: PushState,
    new_path: Seq<Vector2>,
)
    requires
        reached_along(v, init, start, state, path),
        push_edge(v, init, start, state, new_state),
        new_path == path.push(new_state.box_position),
    ensures
        reached_along(v, init, start, new_state, new_path),
{
    let ss = choose|ss: Seq<PushState>|
        push_chain(v, init, start, ss) && ss.last() == state && ss.len() == path.len() && forall|k: int|
            0 <= k < ss.len() ==> (#[trigger] ss[k]).box_position == path[k];
    lemma_chain_extend(v, init, start, ss, new_state);
    let ns = ss.push(new_state);
    assert(ns.last() == new_state);
    assert forall|k: int| 0 <= k < ns.len() implies (#[trigger] ns[k]).box_position == new_path[k] by {
        if k < ss.len() {
            assert(ns[k] == ss[k]);
        }
    }
}

/// Distinct in-bounds push states have distinct slots.
proof fn lemma_slot_injective(size: Vector2, s: PushState, t: PushState)
    requires
        in_bounds_spec(size, s.box_position),
        in_bounds_spec(size, t.box_position),
        slot(size, s) == slot(size, t),
    ensures
        s == t,
{
    let is = index_of(size, s.box_position);
    let it = index_of(size, t.box_position);
    assert(is == it);
    lemma_index_injective(size, s.box_position, t.box_position);
}

/// Whether `p` is off the grid or a wall.
fn blocked_by_wall(map: &Level, p: &Vector2) -> (r: bool)
    requires
        map.grid_wf(),
    ensures
        r == wall_at(map@, *p),
{
    match map.at(p) {
        None => true,
        Some(tile) => tile.intersects(Tile(WALL)),
    }
}

/// The slot of an in-bounds push state.
fn slot_of(map: &Level, s: &PushState) -> (r: usize)
    requires
        map.grid_wf(),
        in_bounds_spec(map.size, s.box_position),
        4 * map.data@.len() <= usize::MAX,
    ensures
        r == slot(map.size, *s),
        r < 4 * map.data@.len(),
{
    proof {
        lemma_index_bounds(map.size, s.box_position);
    }
    let p = s.box_position;
    4 * ((p.y * map.size.x + p.x) as usize) + s.push_direction.index()
}

/// The positions of `boxes` without `removed`, with `added` appended.
pub(crate) fn moved_boxes(boxes: &Vec<Vector2>, removed: &Vector2, added: &Vector2) -> (r: Vec<Vector2>)
    ensures
        forall|q: Vector2| #[trigger]
            r@.contains(q) <==> ((boxes@.contains(q) && q != *removed) || q == *added),
{
    let mut r: Vec<Vector2> = Vec::new();
    let mut i: usize = 0;
    while i < boxes.len()
        invariant
            i <= boxes@.len(),
            forall|q: Vector2|
                r@.contains(q) <==> (#[trigger] boxes@.take(i as int).contains(q) && q != *removed),
        decreases boxes@.len() - i,
    {
        let b = boxes[i];
        let ghost before = r@;
        let ghost pre = boxes@.take(i as int);
        let ghost next = boxes@.take(i + 1);
        assert(next == pre.push(b));
        if b != *removed {
            r.push(b);
        }
        proof {
            assert forall|q: Vector2| r@.contains(q) <==> (#[trigger] next.contains(q) && q
                != *removed) by {
                if r@.contains(q) {
                    let k = choose|k: int| 0 <= k < r@.len() && r@[k] == q;
                    if k < before.len() {
                        assert(before[k] == q);
                        assert(before.contains(q));
                        assert(pre.contains(q));
                        let j = choose|j: int| 0 <= j < pre.len() && pre[j] == q;
                        assert(next[j] == q);
                    } else {
                        assert(q == b);
                        assert(next[i as int] == q);
                    }
                }
                if next.contains(q) && q != *removed {
                    let j = choose|j: int| 0 <= j < next.len() && next[j] == q;
                    if j < i {
                        assert(pre[j] == q);
                        assert(pre.contains(q));
                        assert(before.contains(q));
                        let k = choose|k: int| 0 <= k < before.len() && before[k] == q;
                        assert(r@[k] == q);
                    } else {
                        assert(q == b);
                        assert(r@[r@.len() - 1] == q);
                    }
                }
            }
        }
        i = i + 1;
    }
    assert(boxes@.take(boxes@.len() as int) == boxes@);
    let ghost before = r@;
    r.push(*added);
    proof {
        assert forall|q: Vector2|
            r@.contains(q) <==> ((#[trigger] boxes@.contains(q) && q != *removed) || q
                == *added) by {
            assert(boxes@.take(i as int).contains(q) == boxes@.contains(q));
            if r@.contains(q) && q != *added {
                let k = choose|k: int| 0 <= k < r@.len() && r@[k] == q;
                assert(before[k] == q);
                assert(before.contains(q));
            }
            if boxes@.contains(q) && q != *removed {
                assert(before.contains(q));
                let k = choose|k: int| 0 <= k < before.len() && before[k] == q;
                assert(r@[k] == q);
            }
            if q == *added {
                assert(r@[r@.len() - 1] == q);
            }
        }
    }
    r
}

/// Adds the push state `state` with path `path` unless its slot is taken.
fn record_state(
    map: &Level,
    seen: &mut Vec<bool>,
    entries: &mut Vec<(PushState, Vec<Vector2>)>,
    state: PushState,
    path: Vec<Vector2>,
    Ghost(start): Ghost<Vector2>,
)
    requires
        map.grid_wf(),
        old(seen)@.len() == 4 * map.data@.len(),
        4 * map.data@.len() <= usize::MAX,
        in_bounds_spec(map.size, state.box_position),
        !wall_at(map@, step_back(state.box_position, state.push_direction)),
        push_path_ok(map@, start, state, path@),
        forall|e: int| 0 <= e < old(entries)@.len() ==> #[trigger] old(seen)@[slot(map.size, old(entries)@[e].0)],
        forall|e: int| 0 <= e < old(entries)@.len() ==> in_bounds_spec(map.size, (#[trigger] old(entries)@[e]).0.box_position),
        forall|a: int, b: int|
            0 <= a < b < old(entries)@.len() ==> (#[trigger] old(entries)@[a]).0 != (#[trigger] old(entries)@[b]).0,
        forall|sl: int| 0 <= sl < old(seen)@.len() && #[trigger] old(seen)@[sl] ==> exists|e: int|
            0 <= e < old(entries)@.len() && slot(map.size, (#[trigger] old(entries)@[e]).0) == sl,
    ensures
        listed(final(entries)@, state),
        forall|sl: int| 0 <= sl < final(seen)@.len() && #[trigger] final(seen)@[sl] ==> exists|e: int|
            0 <= e < final(entries)@.len() && slot(map.size, (#[trigger] final(entries)@[e]).0) == sl,
        final(seen)@.len() == old(seen)@.len(),
        count_false(final(seen)@) + final(entries)@.len() == count_false(old(seen)@) + old(entries)@.len(),
        final(entries)@.len() == old(entries)@.len() || final(entries)@ == old(entries)@.push((state, path)),
        final(entries)@.len() >= old(entries)@.len(),
        forall|e: int| 0 <= e < old(entries)@.len() ==> final(entries)@[e] == old(entries)@[e],
        forall|e: int| 0 <= e < final(entries)@.len() ==> #[trigger] final(seen)@[slot(map.size, final(entries)@[e].0)],
        forall|e: int| 0 <= e < final(entries)@.len() ==> in_bounds_spec(map.size, (#[trigger] final(entries)@[e]).0.box_position),
        forall|a: int, b: int|
            0 <= a < b < final(entries)@.len() ==> (#[trigger] final(entries)@[a]).0 != (#[trigger] final(entries)@[b]).0,
{
    let sl = slot_of(map, &state);
    if seen[sl] {
        proof {
            let e = choose|e: int| 0 <= e < entries@.len() && slot(map.size, (#[trigger] entries@[e]).0) == sl;
            lemma_slot_injective(map.size, entries@[e].0, state);
        }
        return;
    }
    proof {
        lemma_count_false_update(seen@, sl as int);
        assert forall|e: int| 0 <= e < entries@.len() implies (#[trigger] entries@[e]).0 != state by {
            assert(seen@[slot(map.size, entries@[e].0)]);
        }
    }
    let ghost seen0 = seen@;
    let ghost entries0 = entries@;
    seen.set(sl, true);
    entries.push((state, path));
    proof {
        assert(entries@[entries@.len() - 1].0 == state);
        assert forall|q: int| 0 <= q < seen@.len() && #[trigger] seen@[q] implies exists|e: int|
            0 <= e < entries@.len() && slot(map.size, (#[trigger] entries@[e]).0) == q by {
            if q == sl {
                assert(slot(map.size, entries@[entries@.len() - 1].0) == q);
            } else {
                assert(seen0[q]);
                let e = choose|e: int| 0 <= e < entries0.len() && slot(map.size, (#[trigger] entries0[e]).0) == q;
                assert(entries@[e] == entries0[e]);
            }
        }
        assert forall|e: int| 0 <= e < entries@.len() implies #[trigger] seen@[slot(map.size, entries@[e].0)] by {
            if e < entries@.len() - 1 {
                assert(entries@[e] == old(entries)@[e]);
                assert(old(seen)@[slot(map.size, old(entries)@[e].0)]);
                assert(in_bounds_spec(map.size, old(entries)@[e].0.box_position));
                lemma_index_bounds(map.size, old(entries)@[e].0.box_position);
            }
        }
    }
}

/// What the search keeps of its table: each listed push state is marked
/// seen, lies on the grid with no wall behind it, is reached by pushes and
/// has a valid path; no state is listed twice, and each seen slot is that of
/// a listed state.
#[verifier::opaque]
pub open spec fn search_ok(
    v: LevelView,
    init: Set<Vector2>,
    start: Vector2,
    seen: Seq<bool>,
    entries: Seq<(PushState, Vec<Vector2>)>,
) -> bool {
    &&& forall|e: int| 0 <= e < entries.len() ==> #[trigger] seen[slot(v.size, entries[e].0)]
    &&& forall|e: int| 0 <= e < entries.len() ==> in_bounds_spec(v.size, (#[trigger] entries[e]).0.box_position)
    &&& forall|e: int| 0 <= e < entries.len() ==> push_path_ok(v, start, (#[trigger] entries[e]).0, entries[e].1@)
    &&& forall|e: int|
        0 <= e < entries.len() ==> !wall_at(v, step_back((#[trigger] entries[e]).0.box_position, entries[e].0.push_direction))
    &&& forall|a: int, b: int| 0 <= a < b < entries.len() ==> (#[trigger] entries[a]).0 != (#[trigger] entries[b]).0
    &&& forall|sl: int| 0 <= sl < seen.len() && #[trigger] seen[sl] ==> exists|e: int|
        0 <= e < entries.len() && slot(v.size, (#[trigger] entries[e]).0) == sl
    &&& forall|e: int| 0 <= e < entries.len() ==> reached_along(v, init, start, (#[trigger] entries[e]).0, entries[e].1@)
}

/// A table with nothing seen and nothing listed is kept as the search keeps it.
proof fn lemma_search_empty(v: LevelView, init: Set<Vector2>, start: Vector2, seen: Seq<bool>)
    requires
        forall|i: int| 0 <= i < seen.len() ==> !seen[i],
    ensures
        search_ok(v, init, start, seen, Seq::empty()),
{
    reveal(search_ok);
}

/// What the search keeps of one listed state.
proof fn lemma_search_entry(
    v: LevelView,
    init: Set<Vector2>,
    start: Vector2,
    seen: Seq<bool>,
    entries: Seq<(PushState, Vec<Vector2>)>,
    e: int,
)
    requires
        search_ok(v, init, start, seen, entries),
        0 <= e < entries.len(),
    ensures
        push_path_ok(v, start, entries[e].0, entries[e].1@),
        in_bounds_spec(v.size, entries[e].0.box_position),
        reached_along(v, init, start, entries[e].0, entries[e].1@),
{
    reveal(search_ok);
}

/// What a finished search has found: the facts of its table, each listed
/// state reached with no fewer states than its path has cells, and every
/// state that pushes reach listed.
proof fn lemma_search_done(
    v: LevelView,
    init: Set<Vector2>,
    start: Vector2,
    seen: Seq<bool>,
    entries: Seq<(PushState, Vec<Vector2>)>,
)
    requires
        search_ok(v, init, start, seen, entries),
        forall|s: PushState| #[trigger] push_start(v, init, start, s) ==> exists|e: int|
            0 <= e < entries.len() && (#[trigger] entries[e]).0 == s && entries[e].1@.len() == 1,
        forall|f: int, t: PushState|
            0 <= f < entries.len() && #[trigger] push_edge(v, init, start, entries[f].0, t) ==> exists|e: int|
                0 <= e < entries.len() && (#[trigger] entries[e]).0 == t && entries[e].1@.len() <= entries[f].1@.len() + 1,
    ensures
        forall|e: int| 0 <= e < entries.len() ==> push_path_ok(v, start, (#[trigger] entries[e]).0, entries[e].1@),
        forall|a: int, b: int| 0 <= a < b < entries.len() ==> (#[trigger] entries[a]).0 != (#[trigger] entries[b]).0,
        forall|e: int| 0 <= e < entries.len() ==> reached_along(v, init, start, (#[trigger] entries[e]).0, entries[e].1@),
        forall|e: int| 0 <= e < entries.len() ==> fewest_states(v, init, start, (#[trigger] entries[e]).0, entries[e].1@.len()),
        forall|t: PushState| #[trigger] push_reachable(v, init, start, t) ==> listed(entries, t),
{
    reveal(search_ok);
    assert forall|t: PushState| #[trigger] push_reachable(v, init, start, t) implies listed(entries, t) by {
        let ss = choose|ss: Seq<PushState>| push_chain(v, init, start, ss) && ss.last() == t;
        lemma_listed_fewest(v, init, start, entries, ss);
    }
    assert forall|e: int| 0 <= e < entries.len() implies fewest_states(v, init, start, (#[trigger] entries[e]).0, entries[e].1@.len()) by {
        assert forall|ss: Seq<PushState>| #[trigger] push_chain(v, init, start, ss) && ss.last() == entries[e].0 implies entries[e].1@.len() <= ss.len() by {
            lemma_listed_fewest(v, init, start, entries, ss);
        }
    }
}

/// Records a push state reached by pushes, with a valid path, unless it is
/// listed already.
fn record(
    map: &Level,
    seen: &mut Vec<bool>,
    entries: &mut Vec<(PushState, Vec<Vector2>)>,
    state: PushState,
    path: Vec<Vector2>,
    Ghost(init): Ghost<Set<Vector2>>,
    Ghost(start): Ghost<Vector2>,
)
    requires
        map.grid_wf(),
        old(seen)@.len() == 4 * map.data@.len(),
        4 * map.data@.len() <= usize::MAX,
        search_ok(map@, init, start, old(seen)@, old(entries)@),
        in_bounds_spec(map.size, state.box_position),
        !wall_at(map@, step_back(state.box_position, state.push_direction)),
        push_path_ok(map@, start, state, path@),
        reached_along(map@, init, start, state, path@),
    ensures
        search_ok(map@, init, start, final(seen)@, final(entries)@),
        listed(final(entries)@, state),
        final(seen)@.len() == old(seen)@.len(),
        count_false(final(seen)@) + final(entries)@.len() == count_false(old(seen)@) + old(entries)@.len(),
        final(entries)@ == old(entries)@ || (final(entries)@.len() == old(entries)@.len() + 1
            && final(entries)@.drop_last() == old(entries)@ && final(entries)@.last() == (state, path)),
        forall|t: PushState| listed(old(entries)@, t) ==> listed(final(entries)@, t),
{
    proof {
        reveal(search_ok);
    }
    let ghost e0 = entries@;
    record_state(map, seen, entries, state, path, Ghost(start));
    proof {
        if entries@.len() == e0.len() {
            assert(entries@ =~= e0);
        } else {
            assert(entries@.drop_last() =~= e0);
        }
        assert forall|e: int| 0 <= e < entries@.len() implies push_path_ok(map@, start, (#[trigger] entries@[e]).0, entries@[e].1@) by {
            if e < e0.len() {
                assert(entries@[e] == e0[e]);
            }
        }
        assert forall|e: int| 0 <= e < entries@.len() implies !wall_at(map@, step_back((#[trigger] entries@[e]).0.box_position, entries@[e].0.push_direction)) by {
            if e < e0.len() {
                assert(entries@[e] == e0[e]);
            }
        }
        assert forall|e: int| 0 <= e < entries@.len() implies reached_along(map@, init, start, (#[trigger] entries@[e]).0, entries@[e].1@) by {
            if e < e0.len() {
                assert(entries@[e] == e0[e]);
            }
        }
        assert forall|t: PushState| listed(e0, t) implies listed(entries@, t) by {
            let e = choose|e: int| 0 <= e < e0.len() && (#[trigger] e0[e]).0 == t;
            assert(entries@[e] == e0[e]);
        }
    }
}

/// Pushes the crate from listed state `cur` in the four directions,
/// recording each push state so reached.
fn expand_state(
    map: &Level,
    seen: &mut Vec<bool>,
    entries: &mut Vec<(PushState, Vec<Vector2>)>,
    cur: usize,
    box_position: &Vector2,
    initial_box_positions: &Vec<Vector2>,
    Ghost(init): Ghost<Set<Vector2>>,
)
    requires
        map.wf(),
        init == initial_box_positions@.to_set(),
        old(seen)@.len() == 4 * map.data@.len(),
        4 * map.data@.len() <= usize::MAX,
        cur < old(entries)@.len(),
        search_ok(map@, init, *box_position, old(seen)@, old(entries)@),
        layered(map@, init, *box_position, old(entries)@, old(entries)@[cur as int].1@.len()),
        expanded(map@, init, *box_position, old(entries)@, cur as int, old(entries)@[cur as int].0, old(entries)@[cur as int].1@.len(), 0),
    ensures
        final(seen)@.len() == old(seen)@.len(),
        count_false(final(seen)@) + final(entries)@.len() == count_false(old(seen)@) + old(entries)@.len(),
        final(entries)@.len() >= old(entries)@.len(),
        forall|e: int| 0 <= e < old(entries)@.len() ==> final(entries)@[e] == old(entries)@[e],
        search_ok(map@, init, *box_position, final(seen)@, final(entries)@),
        layered(map@, init, *box_position, final(entries)@, old(entries)@[cur as int].1@.len()),
        expanded(map@, init, *box_position, final(entries)@, cur as int, old(entries)@[cur as int].0, old(entries)@[cur as int].1@.len(), 4),
{
    let ghost v = map@;
    let ghost start = *box_position;
    let ghost e_in = entries@;
    let state = entries[cur].0;
    let path = entries[cur].1.clone();
    proof {
        lemma_search_entry(v, init, start, seen@, entries@, cur as int);
        assert(path@ == entries@[cur as int].1@);
        assert(push_path_ok(map@, start, state, path@));
        assert(in_bounds_spec(map.size, state.box_position));
        assert(reached_along(v, init, start, state, path@));
    }
    let boxes = moved_boxes(initial_box_positions, box_position, &state.box_position);
    let ghost bset = init.remove(start).insert(state.box_position);
    proof {
        assert(boxes@.to_set() =~= bset) by {
            assert forall|q: Vector2| boxes@.to_set().contains(q) <==> bset.contains(q) by {
                assert(boxes@.contains(q) == boxes@.to_set().contains(q));
                assert(initial_box_positions@.contains(q) == init.contains(q));
            }
        }
    }
    let player = step_back_exec(&state.box_position, state.push_direction);
    let area = map.reachable_cells(&player, WALL, &boxes);
    let dirs = Direction::all();
    let mut k: usize = 0;
    while k < 4
        invariant
            map.wf(),
            v == map@,
            start == *box_position,
            seen@.len() == 4 * map.data@.len(),
            4 * map.data@.len() <= usize::MAX,
            dirs@ == crate::direction::all_directions(),
            in_bounds_spec(map.size, state.box_position),
            push_path_ok(map@, start, state, path@),
            reached_along(v, init, start, state, path@),
            state == e_in[cur as int].0,
            path@ == e_in[cur as int].1@,
            cur < e_in.len(),
            entries@.len() >= e_in.len(),
            forall|e: int| 0 <= e < e_in.len() ==> entries@[e] == e_in[e],
            count_false(seen@) + entries@.len() == count_false(old(seen)@) + e_in.len(),
            old(seen)@.len() == seen@.len(),
            e_in == old(entries)@,
            bset == init.remove(start).insert(state.box_position),
            forall|q: Vector2| #[trigger] boxes@.contains(q) <==> bset.contains(q),
            player == step_back(state.box_position, state.push_direction),
            forall|p: Vector2| #[trigger] area@.contains(p) <==> reachable(open_fn(v, WALL, bset), player, p),
            k <= 4,
            search_ok(v, init, start, seen@, entries@),
            layered(v, init, start, entries@, path@.len()),
            expanded(v, init, start, entries@, cur as int, state, path@.len(), k as int),
        decreases 4 - k,
    {
        let d = dirs[k];
        let ghost entries0 = entries@;
        let ghost mut recorded = false;
        let new_box = step_exec(&state.box_position, d);
        let pusher = step_back_exec(&state.box_position, d);
        let ghost new_state = PushState { box_position: new_box, push_direction: d };
        if !blocked_by_wall(map, &new_box) && !contains_position(&boxes, &new_box)
            && !blocked_by_wall(map, &pusher) && contains_position(&area, &pusher) {
            let new_state = PushState { box_position: new_box, push_direction: d };
            let mut new_path = path.clone();
            assert(new_path@ == path@);
            new_path.push(new_box);
            proof {
                recorded = true;
                lemma_step_adjacent(state.box_position, d);
                lemma_step_back_step(new_box, d);
                let np = new_path@;
                assert(np.last() == new_box);
                assert(np[np.len() - 2] == state.box_position);
                assert forall|j: int| 0 <= j < np.len() implies !wall_at(map@, #[trigger] np[j]) by {
                    if j < path@.len() {
                        assert(np[j] == path@[j]);
                    }
                }
                assert forall|j: int| 1 <= j < np.len() implies adjacent(np[j - 1], #[trigger] np[j]) by {
                    if j < path@.len() {
                        assert(np[j] == path@[j]);
                        assert(np[j - 1] == path@[j - 1]);
                    }
                }
                assert(push_path_ok(map@, start, new_state, new_path@));
                assert(push_edge(v, init, start, state, new_state));
                lemma_along_extend(v, init, start, state, path@, new_state, new_path@);
            }
            record(map, seen, entries, new_state, new_path, Ghost(init), Ghost(start));
        }
        proof {
            assert(d == crate::direction::all_directions()[k as int]);
            assert(dir_index(d) == k);
            lemma_expand_step(v, init, start, entries0, entries@, cur as int, state, path@.len(), d, new_state, recorded);
            assert forall|e: int| 0 <= e < e_in.len() implies entries@[e] == e_in[e] by {
                assert(entries0[e] == e_in[e]);
                if entries@ != entries0 {
                    assert(entries@.drop_last()[e] == entries0[e]);
                }
            }
        }
        k = k + 1;
    }
}

/// The paths along which the crate at `box_position` can be pushed, with the
/// other crates at `initial_box_positions` and the player starting where the
/// level puts it: each push state reached, with the first path found to it by
/// a breadth-first search over push states, the start itself left out. Each
/// path begins at `box_position`, steps between adjacent free cells and ends
/// with the push of its state, and has no more cells than any run of pushes
/// to its state has states; no push state is listed twice; every push state
/// that pushes of the crate reach away from its start is listed (where a
/// table of four slots per cell fits in memory).
pub fn box_pushable_paths_with_positions(
    map: &Level,
    box_position: &Vector2,
    initial_box_positions: &Vec<Vector2>,
) -> (r: Vec<(PushState, Vec<Vector2>)>)
    requires
        map.wf(),
        !wall_at(map@, *box_position),
    ensures
        forall|i: int|
            0 <= i < r@.len() ==> (#[trigger] r@[i]).0.box_position != *box_position
                && push_path_ok(map@, *box_position, r@[i].0, r@[i].1@) && r@[i].1@.len() >= 2,
        forall|a: int, b: int| 0 <= a < b < r@.len() ==> (#[trigger] r@[a]).0 != (#[trigger] r@[b]).0,
        forall|i: int| 0 <= i < r@.len() ==> reached_along(map@, initial_box_positions@.to_set(), *box_position, (#[trigger] r@[i]).0, r@[i].1@),
        forall|i: int| 0 <= i < r@.len() ==> reached_in(map@, initial_box_positions@.to_set(), *box_position, (#[trigger] r@[i]).0, r@[i].1@.len()),
        forall|i: int| 0 <= i < r@.len() ==> fewest_states(map@, initial_box_positions@.to_set(), *box_position, (#[trigger] r@[i]).0, r@[i].1@.len()),
        4 * map.data@.len() <= usize::MAX ==> forall|t: PushState|
            #[trigger] push_reachable(map@, initial_box_positions@.to_set(), *box_position, t)
                && t.box_position != *box_position ==> listed(r@, t),
{
    let n = map.data.len();
    let slots = match n.checked_mul(4) {
        Some(slots) => slots,
        None => {
            return Vec::new();
        },
    };
    let ghost v = map@;
    let ghost init = initial_box_positions@.to_set();
    let ghost start = *box_position;
    let mut seen: Vec<bool> = vec![false; slots];
    proof {
        lemma_search_empty(v, init, start, seen@);
    }
    let entries = first_pushes(map, &mut seen, box_position, initial_box_positions, Ghost(init));
    let mut entries = entries;
    let mut head: usize = 0;
    proof {
        reveal(layered);
        reveal(expanded);
        assert(layered(v, init, start, entries@, 1nat)) by {
            reveal(layered);
        }
    }
    while head < entries.len()
        invariant
            map.wf(),
            v == map@,
            init == initial_box_positions@.to_set(),
            start == *box_position,
            seen@.len() == 4 * map.data@.len(),
            4 * map.data@.len() <= usize::MAX,
            head <= entries@.len(),
            search_ok(v, init, start, seen@, entries@),
            forall|a: int, b: int| 0 <= a < b < entries@.len() ==> (#[trigger] entries@[a]).1@.len() <= (#[trigger] entries@[b]).1@.len(),
            head < entries@.len() ==> layered(v, init, start, entries@, entries@[head as int].1@.len()),
            forall|s: PushState| #[trigger] push_start(v, init, start, s) ==> exists|e: int|
                0 <= e < entries@.len() && (#[trigger] entries@[e]).0 == s && entries@[e].1@.len() == 1,
            forall|f: int, t: PushState|
                0 <= f < head && #[trigger] push_edge(v, init, start, entries@[f].0, t) ==> exists|e: int|
                    0 <= e < entries@.len() && (#[trigger] entries@[e]).0 == t && entries@[e].1@.len() <= entries@[f].1@.len() + 1,
        decreases count_false(seen@) + (entries@.len() - head),
    {
        let ghost e0 = entries@;
        proof {
            reveal(expanded);
            assert(expanded(v, init, start, entries@, head as int, entries@[head as int].0, entries@[head as int].1@.len(), 0));
        }
        expand_state(map, &mut seen, &mut entries, head, box_position, initial_box_positions, Ghost(init));
        proof {
            reveal(layered);
            reveal(expanded);
            let cur = head as int;
            assert(entries@[cur] == e0[cur]);
            assert forall|f: int, t: PushState|
                0 <= f < head + 1 && #[trigger] push_edge(v, init, start, entries@[f].0, t) implies exists|e: int|
                    0 <= e < entries@.len() && (#[trigger] entries@[e]).0 == t && entries@[e].1@.len() <= entries@[f].1@.len() + 1 by {
                if f == cur {
                    assert(dir_index(t.push_direction) < 4);
                }
            }
            if head + 1 < entries@.len() {
                assert(entries@[cur].1@.len() <= entries@[head + 1].1@.len());
                assert forall|e: int| 0 <= e < entries@.len() implies (#[trigger] entries@[e]).1@.len() <= entries@[head + 1].1@.len() + 1 by {
                }
            }
        }
        head = head + 1;
    }
    proof {
        lemma_search_done(v, init, start, seen@, entries@);
    }
    let result = without_start(&entries, box_position, Ghost(v), Ghost(init));
    proof {
        assert forall|i: int| 0 <= i < result@.len() implies reached_in(v, init, start, (#[trigger] result@[i]).0, result@[i].1@.len()) by {
            assert(reached_along(v, init, start, result@[i].0, result@[i].1@));
            let ss = choose|ss: Seq<PushState>|
                push_chain(v, init, start, ss) && ss.last() == result@[i].0 && ss.len() == result@[i].1@.len() && forall|k: int|
                    0 <= k < ss.len() ==> (#[trigger] ss[k]).box_position == result@[i].1@[k];
        }
    }
    result
}

/// Records the first pushes of the crate at `box_position`: in each direction
/// whose cell behind the crate the player reaches.
fn first_pushes(
    map: &Level,
    seen: &mut Vec<bool>,
    box_position: &Vector2,
    initial_box_positions: &Vec<Vector2>,
    Ghost(init): Ghost<Set<Vector2>>,
) -> (entries: Vec<(PushState, Vec<Vector2>)>)
    requires
        map.wf(),
        !wall_at(map@, *box_position),
        init == initial_box_positions@.to_set(),
        old(seen)@.len() == 4 * map.data@.len(),
        4 * map.data@.len() <= usize::MAX,
        search_ok(map@, init, *box_position, old(seen)@, Seq::empty()),
    ensures
        final(seen)@.len() == old(seen)@.len(),
        search_ok(map@, init, *box_position, final(seen)@, entries@),
        forall|e: int| 0 <= e < entries@.len() ==> (#[trigger] entries@[e]).1@.len() == 1,
        forall|s: PushState| #[trigger] push_start(map@, init, *box_position, s) ==> exists|e: int|
            0 <= e < entries@.len() && (#[trigger] entries@[e]).0 == s && entries@[e].1@.len() == 1,
{
    let ghost v = map@;
    let ghost start = *box_position;
    let mut entries: Vec<(PushState, Vec<Vector2>)> = Vec::new();
    let area = map.reachable_cells(&map.player_position, WALL, initial_box_positions);
    let first = [Direction::Up, Direction::Right, Direction::Down, Direction::Left];
    let mut k: usize = 0;
    while k < 4
        invariant
            map.wf(),
            v == map@,
            start == *box_position,
            init == initial_box_positions@.to_set(),
            first@ == seq![Direction::Up, Direction::Right, Direction::Down, Direction::Left],
            forall|p: Vector2| #[trigger] area@.contains(p) <==> reachable(open_fn(v, WALL, init), v.player, p),
            !wall_at(map@, *box_position),
            seen@.len() == 4 * map.data@.len(),
            seen@.len() == old(seen)@.len(),
            4 * map.data@.len() <= usize::MAX,
            k <= 4,
            search_ok(v, init, start, seen@, entries@),
            forall|j: int| 0 <= j < k && push_start(v, init, start, PushState { box_position: start, push_direction: #[trigger] first@[j] })
                ==> listed(entries@, PushState { box_position: start, push_direction: first@[j] }),
            forall|e: int| 0 <= e < entries@.len() ==> (#[trigger] entries@[e]).1@.len() == 1,
        decreases 4 - k,
    {
        let d = first[k];
        let player = step_back_exec(box_position, d);
        let ghost entries0 = entries@;
        if !blocked_by_wall(map, &player) && contains_position(&area, &player) {
            let state = PushState { box_position: *box_position, push_direction: d };
            let path = vec![*box_position];
            assert(path@ == seq![*box_position]);
            proof {
                assert(push_start(v, init, start, state));
                assert(push_chain(v, init, start, seq![state]));
                assert(seq![state].last() == state);
                assert(seq![state].len() == path@.len());
                assert(seq![state][0].box_position == path@[0]);
                assert(reached_along(v, init, start, state, path@));
            }
            record(map, seen, &mut entries, state, path, Ghost(init), Ghost(start));
            proof {
                assert forall|e: int| 0 <= e < entries@.len() implies (#[trigger] entries@[e]).1@.len() == 1 by {
                    if e < entries0.len() {
                        assert(entries@[e] == entries0[e]);
                    } else {
                        assert(entries@.last() == (state, path));
                    }
                }
            }
        }
        proof {
            assert forall|j: int| 0 <= j < k + 1 && push_start(v, init, start, PushState { box_position: start, push_direction: #[trigger] first@[j] })
                implies listed(entries@, PushState { box_position: start, push_direction: first@[j] }) by {
                let t = PushState { box_position: start, push_direction: first@[j] };
                if j < k {
                    assert(listed(entries0, t));
                }
            }
        }
        k = k + 1;
    }
    proof {
        assert forall|s: PushState| #[trigger] push_start(v, init, start, s) implies exists|e: int|
            0 <= e < entries@.len() && (#[trigger] entries@[e]).0 == s && entries@[e].1@.len() == 1 by {
            let j: int = match s.push_direction {
                Direction::Up => 0,
                Direction::Right => 1,
                Direction::Down => 2,
                Direction::Left => 3,
            };
            assert(first@[j] == s.push_direction);
            assert(s == PushState { box_position: start, push_direction: first@[j] });
            assert(listed(entries@, s));
            let e = choose|e: int| 0 <= e < entries@.len() && (#[trigger] entries@[e]).0 == s;
            assert(entries@[e].1@.len() == 1);
        }
    }
    entries
}

/// The entries of a finished search other than those with the crate at its start.
fn without_start(
    entries: &Vec<(PushState, Vec<Vector2>)>,
    box_position: &Vector2,
    Ghost(v): Ghost<LevelView>,
    Ghost(init): Ghost<Set<Vector2>>,
) -> (result: Vec<(PushState, Vec<Vector2>)>)
    requires
        forall|e: int| 0 <= e < entries@.len() ==> push_path_ok(v, *box_position, (#[trigger] entries@[e]).0, entries@[e].1@),
        forall|a: int, b: int| 0 <= a < b < entries@.len() ==> (#[trigger] entries@[a]).0 != (#[trigger] entries@[b]).0,
        forall|e: int| 0 <= e < entries@.len() ==> reached_along(v, init, *box_position, (#[trigger] entries@[e]).0, entries@[e].1@),
        forall|e: int| 0 <= e < entries@.len() ==> fewest_states(v, init, *box_position, (#[trigger] entries@[e]).0, entries@[e].1@.len()),
    ensures
        forall|j: int|
            0 <= j < result@.len() ==> (#[trigger] result@[j]).0.box_position != *box_position
                && push_path_ok(v, *box_position, result@[j].0, result@[j].1@) && result@[j].1@.len() >= 2,
        forall|a: int, b: int| 0 <= a < b < result@.len() ==> (#[trigger] result@[a]).0 != (#[trigger] result@[b]).0,
        forall|j: int| 0 <= j < result@.len() ==> reached_along(v, init, *box_position, (#[trigger] result@[j]).0, result@[j].1@),
        forall|j: int| 0 <= j < result@.len() ==> fewest_states(v, init, *box_position, (#[trigger] result@[j]).0, result@[j].1@.len()),
        forall|t: PushState| listed(entries@, t) && t.box_position != *box_position ==> listed(result@, t),
{
    let ghost start = *box_position;
    let mut result: Vec<(PushState, Vec<Vector2>)> = Vec::new();
    let mut i: usize = 0;
    while i < entries.len()
        invariant
            i <= entries@.len(),
            start == *box_position,
            forall|e: int| 0 <= e < entries@.len() ==> push_path_ok(v, start, (#[trigger] entries@[e]).0, entries@[e].1@),
            forall|a: int, b: int| 0 <= a < b < entries@.len() ==> (#[trigger] entries@[a]).0 != (#[trigger] entries@[b]).0,
            forall|e: int| 0 <= e < entries@.len() ==> reached_along(v, init, start, (#[trigger] entries@[e]).0, entries@[e].1@),
            forall|e: int| 0 <= e < entries@.len() ==> fewest_states(v, init, start, (#[trigger] entries@[e]).0, entries@[e].1@.len()),
            forall|j: int|
                0 <= j < result@.len() ==> (#[trigger] result@[j]).0.box_position != start
                    && push_path_ok(v, start, result@[j].0, result@[j].1@) && result@[j].1@.len() >= 2,
            forall|j: int|
                #![trigger result@[j]]
                0 <= j < result@.len() ==> exists|e: int| 0 <= e < i && #[trigger] entries@[e].0 == result@[j].0
                    && entries@[e].1@ == result@[j].1@,
            forall|a: int, b: int| 0 <= a < b < result@.len() ==> (#[trigger] result@[a]).0 != (#[trigger] result@[b]).0,
            forall|e: int| 0 <= e < i && (#[trigger] entries@[e]).0.box_position != start ==> listed(result@, entries@[e].0),
        decreases entries@.len() - i,
    {
        let ghost result0 = result@;
        if entries[i].0.box_position != *box_position {
            let entry = (entries[i].0, entries[i].1.clone());
            assert(entry.0 == entries@[i as int].0 && entry.1@ == entries@[i as int].1@);
            proof {
                let p = entries@[i as int].1@;
                if p.len() < 2 {
                    assert(p.last() == p[0]);
                }
                assert forall|j: int| 0 <= j < result0.len() implies result0[j].0 != entry.0 by {
                    let e = choose|e: int| 0 <= e < i && #[trigger] entries@[e].0 == result0[j].0 && entries@[e].1@ == result0[j].1@;
                    assert(entries@[e].0 != entries@[i as int].0);
                }
            }
            result.push(entry);
            proof {
                assert forall|j: int| #![trigger result@[j]] 0 <= j < result@.len() implies exists|e: int| 0 <= e < i + 1 && #[trigger] entries@[e].0 == result@[j].0
                    && entries@[e].1@ == result@[j].1@ by {
                    if j < result0.len() {
                        assert(result@[j] == result0[j]);
                        let e = choose|e: int| 0 <= e < i && #[trigger] entries@[e].0 == result0[j].0 && entries@[e].1@ == result0[j].1@;
                        assert(entries@[e].0 == result@[j].0);
                    } else {
                        assert(entries@[i as int].0 == result@[j].0);
                    }
                }
                assert forall|a: int, b: int| 0 <= a < b < result@.len() implies (#[trigger] result@[a]).0 != (#[trigger] result@[b]).0 by {
                    if b < result0.len() {
                        assert(result@[a] == result0[a]);
                        assert(result@[b] == result0[b]);
                    } else {
                        assert(result@[a] == result0[a]);
                    }
                }
                assert(result@[result@.len() - 1].0 == entries@[i as int].0);
            }
        }
        proof {
            assert forall|e: int| 0 <= e < i + 1 && (#[trigger] entries@[e]).0.box_position != start implies listed(result@, entries@[e].0) by {
                if e < i {
                    let j = choose|j: int| 0 <= j < result0.len() && (#[trigger] result0[j]).0 == entries@[e].0;
                    assert(result@[j] == result0[j]);
                } else {
                    assert(result@[result@.len() - 1].0 == entries@[i as int].0);
                }
            }
        }
        i = i + 1;
    }
    proof {
        assert forall|j: int| 0 <= j < result@.len() implies reached_along(v, init, start, (#[trigger] result@[j]).0, result@[j].1@)
            && fewest_states(v, init, start, result@[j].0, result@[j].1@.len()) by {
            let e = choose|e: int| 0 <= e < i && #[trigger] entries@[e].0 == result@[j].0 && entries@[e].1@ == result@[j].1@;
            assert(reached_along(v, init, start, entries@[e].0, entries@[e].1@));
            assert(fewest_states(v, init, start, entries@[e].0, entries@[e].1@.len()));
        }
        assert forall|t: PushState| listed(entries@, t) && t.box_position != start implies listed(result@, t) by {
            let e = choose|e: int| 0 <= e < entries@.len() && (#[trigger] entries@[e]).0 == t;
            assert(entries@[e].0.box_position != start);
        }
    }
    result
}

/// The paths along which the crate at `box_position` can be pushed, the other
/// crates standing where the level puts them.
pub fn box_pushable_paths(map: &Level, box_position: &Vector2) -> (r: Vec<(PushState, Vec<Vector2>)>)
    requires
        map.wf(),
        map.crate_positions@.contains(*box_position),
    ensures
        forall|i: int|
            0 <= i < r@.len() ==> (#[trigger] r@[i]).0.box_position != *box_position
                && push_path_ok(map@, *box_position, r@[i].0, r@[i].1@) && r@[i].1@.len() >= 2,
        forall|a: int, b: int| 0 <= a < b < r@.len() ==> (#[trigger] r@[a]).0 != (#[trigger] r@[b]).0,
        forall|i: int| 0 <= i < r@.len() ==> reached_along(map@, map@.crates, *box_position, (#[trigger] r@[i]).0, r@[i].1@),
        forall|i: int| 0 <= i < r@.len() ==> fewest_states(map@, map@.crates, *box_position, (#[trigger] r@[i]).0, r@[i].1@.len()),
        4 * map.data@.len() <= usize::MAX ==> forall|t: PushState|
            #[trigger] push_reachable(map@, map@.crates, *box_position, t) && t.box_position != *box_position
                ==> listed(r@, t),
{
    proof {
        map.lemma_wf_view();
        assert(map@.crates.contains(*box_position));
        assert(crate::tile::has_flag(crate::level::vtile(map@, *box_position), crate::tile::CRATE));
    }
    box_pushable_paths_with_positions(map, box_position, &map.crate_positions)
}

} // verus!
