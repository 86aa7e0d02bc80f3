use vstd::prelude::*;
use crate::vector::Vector2;
use crate::level::{Level, LevelView};
use crate::reach::adjacent;
use crate::replay::wall_at;
use crate::pushable::{PushState, push_reachable, push_path_ok, reached_along, listed, box_pushable_paths_with_positions};
use crate::direction::{step_back, lemma_step_back_step};

verus! {

/// Whether `edges` records pushes of a crate: each entry is a cell the crate
/// reaches and the adjacent cell it was pushed from, the cell reached being
/// a free cell of the grid, and no cell is reached twice.
pub open spec fn push_tree_ok(map: LevelView, edges: Seq<(Vector2, Vector2)>) -> bool {
    &&& forall|i: int|
        0 <= i < edges.len() ==> adjacent((#[trigger] edges[i]).1, edges[i].0) && !wall_at(
            map,
            edges[i].0,
        )
    &&& forall|i: int, j: int|
        0 <= i < j < edges.len() ==> (#[trigger] edges[i]).0 != (#[trigger] edges[j]).0
}

/// Whether pushes of the crate that starts at `start`, the other crates in
/// place and the player where the level puts it, bring the crate to `e.0`
/// by a last push from `e.1`.
pub open spec fn pushed_there(v: LevelView, start: Vector2, e: (Vector2, Vector2)) -> bool {
    exists|t: PushState|
        #[trigger] push_reachable(v, v.crates, start, t) && t.box_position == e.0 && step_back(
            e.0,
            t.push_direction,
        ) == e.1
}

/// Whether some entry of `r` reaches cell `p`.
pub open spec fn lists_cell(r: Seq<(Vector2, Vector2)>, p: Vector2) -> bool {
    exists|i: int| 0 <= i < r.len() && (#[trigger] r[i]).0 == p
}

/// Whether some entry of `r` reaches cell `p`.
fn has_cell(r: &Vec<(Vector2, Vector2)>, p: &Vector2) -> (b: bool)
    ensures
        b == lists_cell(r@, *p),
{
    let mut i: usize = 0;
    while i < r.len()
        invariant
            i <= r@.len(),
            forall|k: int| 0 <= k < i ==> (#[trigger] r@[k]).0 != *p,
        decreases r@.len() - i,
    {
        if r[i].0 == *p {
            return true;
        }
        i = i + 1;
    }
    false
}

impl Level {
    /// The cells the crate at `crate_position` can be pushed to, the other
    /// crates in place and the player where the level puts it, each once and
    /// with the cell it is pushed from on a path of fewest pushes, in the
    /// order in which a breadth-first search over pushes reaches them.
    pub fn crate_reachable_path(&self, crate_position: &Vector2) -> (r: Vec<(Vector2, Vector2)>)
        requires
            self.wf(),
            self.crate_positions@.contains(*crate_position),
        ensures
            push_tree_ok(self@, r@),
            forall|i: int| 0 <= i < r@.len() ==> pushed_there(self@, *crate_position, #[trigger] r@[i]),
            4 * self.data@.len() <= usize::MAX ==> forall|t: PushState|
                #[trigger] push_reachable(self@, self@.crates, *crate_position, t) && t.box_position
                    != *crate_position ==> lists_cell(r@, t.box_position),
    {
        proof {
            let k = choose|k: int| 0 <= k < self.crate_positions@.len() && self.crate_positions@[k] == *crate_position;
            assert(self.in_bounds_spec(self.crate_positions@[k]));
            assert(self.tile(*crate_position) == crate::level::vtile(self@, *crate_position));
        }
        let paths = box_pushable_paths_with_positions(self, crate_position, &self.crate_positions);
        let ghost v = self@;
        let mut r: Vec<(Vector2, Vector2)> = Vec::new();
        let mut i: usize = 0;
        while i < paths.len()
            invariant
                v == self@,
                self.wf(),
                i <= paths@.len(),
                v.crates == self.crate_positions@.to_set(),
                forall|e: int|
                    0 <= e < paths@.len() ==> (#[trigger] paths@[e]).0.box_position != *crate_position
                        && push_path_ok(v, *crate_position, paths@[e].0, paths@[e].1@) && paths@[e].1@.len()
                        >= 2,
                forall|e: int|
                    0 <= e < paths@.len() ==> reached_along(
                        v,
                        v.crates,
                        *crate_position,
                        (#[trigger] paths@[e]).0,
                        paths@[e].1@,
                    ),
                push_tree_ok(v, r@),
                forall|k: int| 0 <= k < r@.len() ==> pushed_there(v, *crate_position, #[trigger] r@[k]),
                forall|e: int| 0 <= e < i ==> lists_cell(r@, (#[trigger] paths@[e]).0.box_position),
            decreases paths@.len() - i,
        {
            let c = paths[i].0.box_position;
            let n = paths[i].1.len();
            let from = paths[i].1[n - 2];
            if !has_cell(&r, &c) {
                let ghost before = r@;
                proof {
                    let path = paths@[i as int].1@;
                    let t = paths@[i as int].0;
                    assert(adjacent(path[n - 2], path[n - 1]));
                    assert(!wall_at(v, path[n - 2]));
                    assert(!wall_at(v, path[n - 1]));
                    lemma_step_back_step(from, t.push_direction);
                    let ss = choose|ss: Seq<PushState>|
                        crate::pushable::push_chain(v, v.crates, *crate_position, ss) && ss.last() == t && ss.len()
                            == path.len() && forall|k: int|
                            0 <= k < ss.len() ==> (#[trigger] ss[k]).box_position == path[k];
                    assert(push_reachable(v, v.crates, *crate_position, t));
                    assert(pushed_there(v, *crate_position, (c, from)));
                }
                r.push((c, from));
                proof {
                    assert forall|k: int| 0 <= k < r@.len() implies pushed_there(v, *crate_position, #[trigger] r@[k]) by {
                        if k < before.len() {
                            assert(r@[k] == before[k]);
                        }
                    }
                    assert forall|e: int| 0 <= e < i + 1 implies lists_cell(r@, (#[trigger] paths@[e]).0.box_position) by {
                        if e < i {
                            let k = choose|k: int| 0 <= k < before.len() && (#[trigger] before[k]).0 == paths@[e].0.box_position;
                            assert(r@[k] == before[k]);
                        } else {
                            assert(r@[before.len() as int].0 == c);
                        }
                    }
                    assert forall|a: int, b: int| 0 <= a < b < r@.len() implies (#[trigger] r@[a]).0 != (#[trigger] r@[b]).0 by {
                        if b < before.len() {
                            assert(r@[a] == before[a] && r@[b] == before[b]);
                        } else {
                            assert(r@[a] == before[a]);
                            assert(!lists_cell(before, c));
                        }
                    }
                    assert forall|k: int| 0 <= k < r@.len() implies adjacent((#[trigger] r@[k]).1, r@[k].0) && !wall_at(v, r@[k].0) by {
                        if k < before.len() {
                            assert(r@[k] == before[k]);
                        }
                    }
                }
            }
            i = i + 1;
        }
        proof {
            assert forall|t: PushState|
                4 * self.data@.len() <= usize::MAX && #[trigger] push_reachable(v, v.crates, *crate_position, t)
                    && t.box_position != *crate_position implies lists_cell(r@, t.box_position) by {
                assert(listed(paths@, t));
                let e = choose|e: int| 0 <= e < paths@.len() && (#[trigger] paths@[e]).0 == t;
                assert(lists_cell(r@, paths@[e].0.box_position));
            }
        }
        r
    }
}

} // verus!
