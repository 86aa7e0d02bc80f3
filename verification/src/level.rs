use vstd::prelude::*;
use crate::vector::Vector2;
use crate::tile::{
    Tile, has_flag, WALL, CRATE, TARGET, PLAYER, lemma_insert_flag, lemma_remove_flag,
    };
use crate::positions::{contains_position, remove_position, lemma_push_distinct};
use crate::direction::{Direction, step, step_exec, all_directions};
use crate::reach::{
    adjacent, reachable, count_false, lemma_reachable_start, lemma_reachable_step,
    lemma_closed_contains_reachable, lemma_adjacent_step, lemma_step_adjacent,
    lemma_count_false_update,
};

verus! {

/// A Sokoban level: a grid of tiles with the positions of the player, the
/// crates and the targets kept beside it.
#[derive(Clone)]
pub struct Level {
    pub data: Vec<Tile>,
    pub size: Vector2,
    pub metadata: Vec<(String, String)>,
    pub player_position: Vector2,
    pub crate_positions: Vec<Vector2>,
    pub target_positions: Vec<Vector2>,
}

/// Why a level cannot be built from its text.
#[derive(Clone, Copy, PartialEq, Eq, Debug, Structural)]
pub enum Error {
    MoreThanOnePlayer,
    NoPlayer,
    MismatchBetweenCratesAndTargets,
    InvalidCharacter(char),
}

/// Whether `p` lies on a grid of the given size.
pub open spec fn in_bounds_spec(size: Vector2, p: Vector2) -> bool {
    0 <= p.x < size.x && 0 <= p.y < size.y
}

/// The index of cell `p` in the row-major tile vector.
pub open spec fn index_of(size: Vector2, p: Vector2) -> int {
    p.y * size.x + p.x
}

/// A cell's index lies within the grid's tile vector.
pub proof fn lemma_index_bounds(size: Vector2, p: Vector2)
    requires
        in_bounds_spec(size, p),
    ensures
        0 <= index_of(size, p) < size.x * size.y,
{
    let (x, y, w, h) = (p.x as int, p.y as int, size.x as int, size.y as int);
    assert(0 <= y * w + x < w * h) by (nonlinear_arith)
        requires
            0 <= x < w,
            0 <= y < h,
    ;
}

/// Different cells have different indices.
pub proof fn lemma_index_injective(size: Vector2, p: Vector2, q: Vector2)
    requires
        in_bounds_spec(size, p),
        in_bounds_spec(size, q),
        index_of(size, p) == index_of(size, q),
    ensures
        p == q,
{
    let (x1, y1, x2, y2, w) = (p.x as int, p.y as int, q.x as int, q.y as int, size.x as int);
    assert(y1 == y2) by (nonlinear_arith)
        requires
            0 <= x1 < w,
            0 <= x2 < w,
            0 <= y1,
            0 <= y2,
            y1 * w + x1 == y2 * w + x2,
    {
        if y1 < y2 {
            assert(y1 * w + w <= y2 * w);
        } else if y2 < y1 {
            assert(y2 * w + w <= y1 * w);
        }
    }
}

/// A tile with flag `f` cleared.
pub open spec fn without(t: Tile, f: u8) -> Tile {
    Tile(t.0 & !f)
}

/// A tile with flag `f` set.
pub open spec fn with(t: Tile, f: u8) -> Tile {
    Tile(t.0 | f)
}

/// The abstract value of a level.
#[verifier::ext_equal]
pub struct LevelView {
    pub size: Vector2,
    pub tiles: Seq<Tile>,
    pub player: Vector2,
    pub crates: Set<Vector2>,
    pub targets: Set<Vector2>,
    pub metadata: Seq<(String, String)>,
}

/// The tile at cell `p` of a level's abstract value.
pub open spec fn vtile(v: LevelView, p: Vector2) -> Tile {
    v.tiles[index_of(v.size, p)]
}

/// The abstract level with the player moved to `to`.
pub open spec fn move_player_view(v: LevelView, to: Vector2) -> LevelView {
    let d1 = v.tiles.update(index_of(v.size, v.player), without(vtile(v, v.player), PLAYER));
    LevelView {
        tiles: d1.update(index_of(v.size, to), with(d1[index_of(v.size, to)], PLAYER)),
        player: to,
        ..v
    }
}

/// The abstract level with the crate at `from` moved to `to`.
pub open spec fn move_crate_view(v: LevelView, from: Vector2, to: Vector2) -> LevelView {
    let d1 = v.tiles.update(index_of(v.size, from), without(vtile(v, from), CRATE));
    LevelView {
        tiles: d1.update(index_of(v.size, to), with(d1[index_of(v.size, to)], CRATE)),
        crates: v.crates.remove(from).insert(to),
        ..v
    }
}

/// A well-formed abstract level: the grid fits its size, the player and the
/// crates are on it, and the flags of every cell agree with them.
pub open spec fn view_wf(v: LevelView) -> bool {
    &&& 0 <= v.size.x
    &&& 0 <= v.size.y
    &&& v.size.x * v.size.y <= i32::MAX
    &&& v.tiles.len() == v.size.x * v.size.y
    &&& in_bounds_spec(v.size, v.player)
    &&& !v.crates.contains(v.player)
    &&& forall|p: Vector2| #[trigger] v.crates.contains(p) ==> in_bounds_spec(v.size, p)
    &&& forall|p: Vector2|
        #![trigger vtile(v, p)]
        in_bounds_spec(v.size, p) ==> {
            &&& has_flag(vtile(v, p), PLAYER) == (p == v.player)
            &&& has_flag(vtile(v, p), CRATE) == v.crates.contains(p)
            &&& has_flag(vtile(v, p), TARGET) == v.targets.contains(p)
            &&& has_flag(vtile(v, p), WALL) ==> !has_flag(vtile(v, p), PLAYER) && !has_flag(
                vtile(v, p),
                CRATE,
            )
        }
}

/// The cells that a search may enter: on the grid, holding none of the flags
/// of `mask`, and not among `obstacles`.
pub open spec fn open_fn(v: LevelView, mask: u8, obstacles: Set<Vector2>) -> spec_fn(Vector2) -> bool {
    |p: Vector2| in_bounds_spec(v.size, p) && vtile(v, p).0 & mask == 0 && !obstacles.contains(p)
}

impl View for Level {
    type V = LevelView;

    open spec fn view(&self) -> LevelView {
        LevelView {
            size: self.size,
            tiles: self.data@,
            player: self.player_position,
            crates: self.crate_positions@.to_set(),
            targets: self.target_positions@.to_set(),
            metadata: self.metadata@,
        }
    }
}

impl Level {
    /// The tile at cell `p`.
    pub open spec fn tile(&self, p: Vector2) -> Tile {
        self.data@[index_of(self.size, p)]
    }

    /// The index of cell `p`.
    pub open spec fn idx(&self, p: Vector2) -> int {
        index_of(self.size, p)
    }

    /// Whether `p` lies on the grid.
    pub open spec fn in_bounds_spec(&self, p: Vector2) -> bool {
        in_bounds_spec(self.size, p)
    }

    /// The positions of the crates.
    pub open spec fn crates(&self) -> Set<Vector2> {
        self.crate_positions@.to_set()
    }

    /// The positions of the targets.
    pub open spec fn targets(&self) -> Set<Vector2> {
        self.target_positions@.to_set()
    }

    /// The grid has non-negative dimensions, fits the index type and has one tile per cell.
    pub open spec fn grid_wf(&self) -> bool {
        &&& 0 <= self.size.x
        &&& 0 <= self.size.y
        &&& self.size.x * self.size.y <= i32::MAX
        &&& self.data@.len() == self.size.x * self.size.y
    }

    /// The lists of crates and targets are within the grid and hold no position twice.
    pub open spec fn lists_wf(&self) -> bool {
        &&& self.crate_positions@.no_duplicates()
        &&& self.target_positions@.no_duplicates()
        &&& forall|i: int|
            0 <= i < self.crate_positions@.len() ==> self.in_bounds_spec(
                #[trigger] self.crate_positions@[i],
            )
        &&& forall|i: int|
            0 <= i < self.target_positions@.len() ==> self.in_bounds_spec(
                #[trigger] self.target_positions@[i],
            )
    }

    /// The flags of every cell agree with the player, crate and target positions,
    /// and no wall holds the player or a crate.
    pub open spec fn tiles_agree(&self) -> bool {
        forall|p: Vector2|
            #![trigger self.tile(p)]
            self.in_bounds_spec(p) ==> {
                &&& has_flag(self.tile(p), PLAYER) == (p == self.player_position)
                &&& has_flag(self.tile(p), CRATE) == self.crate_positions@.contains(p)
                &&& has_flag(self.tile(p), TARGET) == self.target_positions@.contains(p)
                &&& has_flag(self.tile(p), WALL) ==> !has_flag(self.tile(p), PLAYER) && !has_flag(
                    self.tile(p),
                    CRATE,
                )
            }
    }

    /// A well-formed level.
    pub open spec fn wf(&self) -> bool {
        &&& self.grid_wf()
        &&& self.lists_wf()
        &&& self.in_bounds_spec(self.player_position)
        &&& !self.crate_positions@.contains(self.player_position)
        &&& self.tiles_agree()
    }

    /// A well-formed level has a well-formed abstract value.
    pub proof fn lemma_wf_view(&self)
        requires
            self.wf(),
        ensures
            view_wf(self@),
    {
        let v = self@;
        assert forall|p: Vector2| #[trigger] v.crates.contains(p) implies in_bounds_spec(
            v.size,
            p,
        ) by {
            assert(self.crate_positions@.contains(p));
            let k = choose|k: int|
                0 <= k < self.crate_positions@.len() && self.crate_positions@[k] == p;
            assert(self.in_bounds_spec(self.crate_positions@[k]));
        }
        assert forall|p: Vector2| #![trigger vtile(v, p)] in_bounds_spec(v.size, p) implies {
            &&& has_flag(vtile(v, p), PLAYER) == (p == v.player)
            &&& has_flag(vtile(v, p), CRATE) == v.crates.contains(p)
            &&& has_flag(vtile(v, p), TARGET) == v.targets.contains(p)
            &&& has_flag(vtile(v, p), WALL) ==> !has_flag(vtile(v, p), PLAYER) && !has_flag(
                vtile(v, p),
                CRATE,
            )
        } by {
            assert(vtile(v, p) == self.tile(p));
        }
    }

    /// Whether a position lies on the grid.
    pub fn in_bounds(&self, position: &Vector2) -> (r: bool)
        ensures
            r == self.in_bounds_spec(*position),
    {
        0 <= position.x && position.x < self.size.x && 0 <= position.y && position.y
            < self.size.y
    }

    /// The index of an in-bounds cell.
    fn index(&self, position: &Vector2) -> (r: usize)
        requires
            self.grid_wf(),
            self.in_bounds_spec(*position),
        ensures
            r == self.idx(*position),
            r < self.data@.len(),
    {
        proof {
            lemma_index_bounds(self.size, *position);
        }
        (position.y * self.size.x + position.x) as usize
    }

    /// The tile at a position, or `None` outside the grid.
    pub fn at(&self, position: &Vector2) -> (r: Option<Tile>)
        requires
            self.grid_wf(),
        ensures
            self.in_bounds_spec(*position) ==> r == Some(self.tile(*position)),
            !self.in_bounds_spec(*position) ==> r is None,
    {
        if self.in_bounds(position) {
            Some(self.data[self.index(position)])
        } else {
            None
        }
    }

    /// The tile at an in-bounds position.
    pub fn at_unchecked(&self, position: &Vector2) -> (r: Tile)
        requires
            self.grid_wf(),
            self.in_bounds_spec(*position),
        ensures
            r == self.tile(*position),
    {
        self.data[self.index(position)]
    }

    /// The tile at a position, to be changed in place, or `None` outside the grid.
    pub fn at_mut(&mut self, position: &Vector2) -> (r: Option<&mut Tile>)
        requires
            old(self).grid_wf(),
        ensures
            !old(self).in_bounds_spec(*position) ==> r is None && *final(self) == *old(self),
            old(self).in_bounds_spec(*position) ==> (r matches Some(t) && *t == old(self).tile(
                *position,
            ) && final(self).data@ == old(self).data@.update(old(self).idx(*position), *final(t))),
            final(self).size == old(self).size,
            final(self).player_position == old(self).player_position,
            final(self).crate_positions == old(self).crate_positions,
            final(self).target_positions == old(self).target_positions,
            final(self).metadata == old(self).metadata,
    {
        if self.in_bounds(position) {
            Some(self.at_unchecked_mut(position))
        } else {
            None
        }
    }

    /// The tile at an in-bounds position, to be changed in place.
    pub fn at_unchecked_mut(&mut self, position: &Vector2) -> (r: &mut Tile)
        requires
            old(self).grid_wf(),
            old(self).in_bounds_spec(*position),
        ensures
            *r == old(self).tile(*position),
            final(self).data@ == old(self).data@.update(old(self).idx(*position), *final(r)),
            final(self).size == old(self).size,
            final(self).player_position == old(self).player_position,
            final(self).crate_positions == old(self).crate_positions,
            final(self).target_positions == old(self).target_positions,
            final(self).metadata == old(self).metadata,
    {
        let i = self.index(position);
        &mut self.data[i]
    }

    /// The position of the player.
    pub fn player_position(&self) -> (r: Vector2)
        ensures
            r == self.player_position,
    {
        self.player_position
    }

    /// The dimensions of the grid.
    pub fn dimensions(&self) -> (r: Vector2)
        ensures
            r == self.size,
    {
        self.size
    }

    /// The cells reachable from `start` through cells that hold none of the
    /// flags of `mask` and are not among `obstacles`, `start` included.
    pub fn reachable_cells(&self, start: &Vector2, mask: u8, obstacles: &Vec<Vector2>) -> (r: Vec<
        Vector2,
    >)
        requires
            self.grid_wf(),
            self.in_bounds_spec(*start),
        ensures
            r@.no_duplicates(),
            forall|p: Vector2| #[trigger]
                r@.contains(p) <==> reachable(open_fn(self@, mask, obstacles@.to_set()), *start, p),
            forall|i: int| 0 <= i < r@.len() ==> self.in_bounds_spec(#[trigger] r@[i]),
    {
        let ghost open = open_fn(self@, mask, obstacles@.to_set());
        let n = self.data.len();
        let mut visited: Vec<bool> = vec![false; n];
        let mut queue: Vec<Vector2> = Vec::new();
        let si = self.index(start);
        visited.set(si, true);
        queue.push(*start);
        proof {
            lemma_reachable_start(open, *start);
            assert forall|p: Vector2| #[trigger] self.in_bounds_spec(p) implies visited@[self.idx(
                p,
            )] == queue@.contains(p) by {
                lemma_index_bounds(self.size, p);
                if self.idx(p) == self.idx(*start) {
                    lemma_index_injective(self.size, p, *start);
                }
                if p == *start {
                    assert(queue@[0] == p);
                }
            }
        }
        let dirs = Direction::all();
        let mut head: usize = 0;
        while head < queue.len()
            invariant
                self.grid_wf(),
                n == self.data@.len(),
                visited@.len() == n,
                head <= queue@.len(),
                dirs@ == all_directions(),
                open == open_fn(self@, mask, obstacles@.to_set()),
                self.in_bounds_spec(*start),
                queue@.no_duplicates(),
                queue@.contains(*start),
                forall|i: int| 0 <= i < queue@.len() ==> self.in_bounds_spec(#[trigger] queue@[i]),
                forall|p: Vector2| #[trigger]
                    self.in_bounds_spec(p) ==> visited@[self.idx(p)] == queue@.contains(p),
                forall|i: int| 0 <= i < queue@.len() ==> reachable(open, *start, #[trigger] queue@[i]),
                forall|i: int, p: Vector2|
                    0 <= i < head && adjacent(#[trigger] queue@[i], p) && open(p)
                        ==> #[trigger] queue@.contains(p),
            decreases count_false(visited@) + (queue@.len() - head),
        {
            let q = queue[head];
            let ghost qi = head as int;
            head = head + 1;
            let ghost m0 = count_false(visited@) + (queue@.len() - head);
            let mut k: usize = 0;
            while k < 4
                invariant
                    self.grid_wf(),
                    n == self.data@.len(),
                    visited@.len() == n,
                    head <= queue@.len(),
                    qi == head - 1,
                    0 <= qi < queue@.len(),
                    queue@[qi] == q,
                    self.in_bounds_spec(q),
                    k <= 4,
                    dirs@ == all_directions(),
                    open == open_fn(self@, mask, obstacles@.to_set()),
                    self.in_bounds_spec(*start),
                    queue@.no_duplicates(),
                    queue@.contains(*start),
                    forall|i: int| 0 <= i < queue@.len() ==> self.in_bounds_spec(#[trigger] queue@[i]),
                    forall|p: Vector2| #[trigger]
                        self.in_bounds_spec(p) ==> visited@[self.idx(p)] == queue@.contains(p),
                    forall|i: int| 0 <= i < queue@.len() ==> reachable(open, *start, #[trigger] queue@[i]),
                    forall|i: int, p: Vector2|
                        0 <= i < qi && adjacent(#[trigger] queue@[i], p) && open(p)
                            ==> #[trigger] queue@.contains(p),
                    forall|j: int| 0 <= j < k && open(step(q, #[trigger] all_directions()[j]))
                        ==> queue@.contains(step(q, all_directions()[j])),
                    count_false(visited@) + (queue@.len() - head) == m0,
                decreases 4 - k,
            {
                let d = dirs[k];
                let p = step_exec(&q, d);
                let ghost old_queue = queue@;
                if self.in_bounds(&p) && self.at_unchecked(&p).0 & mask == 0 && !contains_position(
                    obstacles,
                    &p,
                ) {
                    let pi = self.index(&p);
                    if !visited[pi] {
                        proof {
                            assert(reachable(open, *start, queue@[qi]));
                            lemma_count_false_update(visited@, pi as int);
                            lemma_step_adjacent(q, d);
                            lemma_reachable_step(open, *start, q, p);
                            lemma_push_distinct(queue@, p);
                        }
                        visited.set(pi, true);
                        queue.push(p);
                        proof {
                            assert(queue@[qi] == old_queue[qi]);
                            assert forall|r: Vector2| #[trigger] self.in_bounds_spec(r) implies visited@[self.idx(
                                r,
                            )] == queue@.contains(r) by {
                                lemma_index_bounds(self.size, r);
                                if self.idx(r) == self.idx(p) {
                                    lemma_index_injective(self.size, r, p);
                                }
                            }
                            assert forall|i: int| 0 <= i < queue@.len() implies reachable(open, *start, #[trigger] queue@[i]) by {
                                if i < old_queue.len() {
                                    assert(queue@[i] == old_queue[i]);
                                }
                            }
                            assert forall|i: int, r: Vector2|
                                0 <= i < qi && adjacent(#[trigger] queue@[i], r) && open(r)
                                    implies #[trigger] queue@.contains(r) by {
                                assert(queue@[i] == old_queue[i]);
                                assert(old_queue.contains(r));
                            }
                        }
                    }
                }
                proof {
                    assert(all_directions()[k as int] == d);
                    if open(p) {
                        assert(self.in_bounds_spec(p));
                        assert(visited@[self.idx(p)] == queue@.contains(p));
                    }
                }
                k = k + 1;
            }
            proof {
                assert forall|i: int, r: Vector2|
                    0 <= i < head && adjacent(#[trigger] queue@[i], r) && open(r)
                        implies #[trigger] queue@.contains(r) by {
                    if i == qi {
                        lemma_adjacent_step(q, r);
                        if r == step(q, Direction::Up) {
                            assert(all_directions()[0] == Direction::Up);
                        } else if r == step(q, Direction::Down) {
                            assert(all_directions()[1] == Direction::Down);
                        } else if r == step(q, Direction::Left) {
                            assert(all_directions()[2] == Direction::Left);
                        } else {
                            assert(all_directions()[3] == Direction::Right);
                        }
                    }
                }
            }
        }
        proof {
            let f = queue@.to_set();
            assert forall|a: Vector2, b: Vector2| #[trigger]
                f.contains(a) && adjacent(a, b) && open(b) implies #[trigger] f.contains(b) by {
                let i = choose|i: int| 0 <= i < queue@.len() && queue@[i] == a;
                assert(queue@.contains(b));
            }
            assert forall|p: Vector2| #[trigger]
                queue@.contains(p) <==> reachable(open, *start, p) by {
                if reachable(open, *start, p) {
                    lemma_closed_contains_reachable(open, *start, f, p);
                }
                if queue@.contains(p) {
                    let i = choose|i: int| 0 <= i < queue@.len() && queue@[i] == p;
                }
            }
        }
        queue
    }

    /// Adds the flags of `value` to every cell reachable from `position`
    /// through cells that hold no flag of `value` or of `border`, unless the
    /// cell at `position` already holds all of `value`.
    pub fn flood_fill(&mut self, position: &Vector2, value: Tile, border: Tile)
        requires
            old(self).grid_wf(),
        ensures
            final(self).grid_wf(),
            final(self).size == old(self).size,
            final(self).player_position == old(self).player_position,
            final(self).crate_positions == old(self).crate_positions,
            final(self).target_positions == old(self).target_positions,
            final(self).metadata == old(self).metadata,
            !old(self).in_bounds_spec(*position) || old(self).tile(*position).0 & value.0
                == value.0 ==> final(self).data@ == old(self).data@,
            old(self).in_bounds_spec(*position) && old(self).tile(*position).0 & value.0
                != value.0 ==> forall|p: Vector2| #[trigger]
                old(self).in_bounds_spec(p) ==> final(self).tile(p) == (if reachable(
                open_fn(old(self)@, value.0 | border.0, Set::empty()),
                *position,
                p,
            ) {
                with(old(self).tile(p), value.0)
            } else {
                old(self).tile(p)
            }),
    {
        if !self.in_bounds(position) {
            return;
        }
        if self.at_unchecked(position).contains(value) {
            return;
        }
        let ghost old_level = *self;
        let ghost open = open_fn(old_level@, value.0 | border.0, Set::empty());
        let no_obstacles: Vec<Vector2> = Vec::new();
        proof {
            assert(no_obstacles@.to_set() =~= Set::<Vector2>::empty());
        }
        let cells = self.reachable_cells(position, value.0 | border.0, &no_obstacles);
        let mut i: usize = 0;
        while i < cells.len()
            invariant
                self.grid_wf(),
                self.size == old_level.size,
                self.player_position == old_level.player_position,
                self.crate_positions == old_level.crate_positions,
                self.target_positions == old_level.target_positions,
                self.metadata == old_level.metadata,
                self.data@.len() == old_level.data@.len(),
                i <= cells@.len(),
                cells@.no_duplicates(),
                forall|k: int| 0 <= k < cells@.len() ==> old_level.in_bounds_spec(#[trigger] cells@[k]),
                forall|p: Vector2| #[trigger]
                    old_level.in_bounds_spec(p) ==> self.tile(p) == (if cells@.take(i as int).contains(p) {
                        with(old_level.tile(p), value.0)
                    } else {
                        old_level.tile(p)
                    }),
            decreases cells@.len() - i,
        {
            let c = cells[i];
            let ci = self.index(&c);
            let ghost prev = *self;
            let mut t = self.data[ci];
            t.insert(value);
            self.data.set(ci, t);
            proof {
                assert forall|p: Vector2| #[trigger]
                    old_level.in_bounds_spec(p) implies self.tile(p) == (if cells@.take(i + 1).contains(p) {
                        with(old_level.tile(p), value.0)
                    } else {
                        old_level.tile(p)
                    }) by {
                    lemma_index_bounds(self.size, p);
                    assert(cells@.take(i + 1) == cells@.take(i as int).push(c));
                    if self.idx(p) == self.idx(c) {
                        lemma_index_injective(self.size, p, c);
                    }
                    assert(prev.tile(p) == (if cells@.take(i as int).contains(p) {
                        with(old_level.tile(p), value.0)
                    } else {
                        old_level.tile(p)
                    }));
                    if p == c {
                        assert(!cells@.take(i as int).contains(c)) by {
                            if cells@.take(i as int).contains(c) {
                                let k = choose|k: int| 0 <= k < i && cells@.take(i as int)[k] == c;
                                assert(cells@[k] == cells@[i as int]);
                            }
                        }
                        assert(cells@.take(i + 1).contains(p)) by {
                            assert(cells@.take(i + 1)[i as int] == c);
                        }
                        assert(self.tile(p) == with(prev.tile(p), value.0));
                    } else {
                        assert(self.tile(p) == prev.tile(p));
                        assert(cells@.take(i + 1).contains(p) == cells@.take(i as int).contains(p)) by {
                            if cells@.take(i + 1).contains(p) {
                                let k = choose|k: int| 0 <= k < i + 1 && #[trigger] cells@.take(i + 1)[k] == p;
                                assert(k < i);
                                assert(cells@.take(i as int)[k] == p);
                            }
                            if cells@.take(i as int).contains(p) {
                                let k = choose|k: int| 0 <= k < i && cells@.take(i as int)[k] == p;
                                assert(cells@.take(i + 1)[k] == p);
                            }
                        }
                    }
                }
            }
            i = i + 1;
        }
        proof {
            assert(cells@.take(cells@.len() as int) == cells@);
        }
    }

    /// Moves the player to `position`.
    pub fn set_player_position(&mut self, position: &Vector2)
        requires
            old(self).wf(),
            old(self).in_bounds_spec(*position),
            !has_flag(old(self).tile(*position), WALL),
            !old(self).crate_positions@.contains(*position),
        ensures
            final(self).wf(),
            final(self)@ == move_player_view(old(self)@, *position),
            forall|q: Vector2|
                #![trigger final(self).tile(q)]
                old(self).in_bounds_spec(q) && q != *position && q != old(self).player_position
                    ==> final(self).tile(q) == old(self).tile(q),
            *position != old(self).player_position ==> final(self).tile(*position) == with(
                old(self).tile(*position),
                PLAYER,
            ) && final(self).tile(old(self).player_position) == without(
                old(self).tile(old(self).player_position),
                PLAYER,
            ),
            final(self).player_position == *position,
            final(self).size == old(self).size,
            final(self).crate_positions == old(self).crate_positions,
            final(self).target_positions == old(self).target_positions,
            final(self).metadata == old(self).metadata,
            ({
                let d1 = old(self).data@.update(
                    old(self).idx(old(self).player_position),
                    without(old(self).tile(old(self).player_position), PLAYER),
                );
                final(self).data@ == d1.update(
                    old(self).idx(*position),
                    with(d1[old(self).idx(*position)], PLAYER),
                )
            }),
    {
        let ghost old_level = *self;
        let from = self.index(&self.player_position);
        let to = self.index(position);
        let mut t = self.data[from];
        t.remove(Tile(PLAYER));
        self.data.set(from, t);
        let mut u = self.data[to];
        u.insert(Tile(PLAYER));
        self.data.set(to, u);
        self.player_position = *position;
        proof {
            let old_player = old_level.player_position;
            assert forall|q: Vector2|
                #![trigger self.tile(q)]
                old_level.in_bounds_spec(q) && q != *position && q != old_player
                    implies self.tile(q) == old_level.tile(q) by {
                lemma_index_bounds(self.size, q);
                if self.idx(q) == self.idx(*position) {
                    lemma_index_injective(self.size, q, *position);
                }
                if self.idx(q) == self.idx(old_player) {
                    lemma_index_injective(self.size, q, old_player);
                }
            }
            if *position != old_player {
                if self.idx(*position) == self.idx(old_player) {
                    lemma_index_injective(self.size, *position, old_player);
                }
            }
            assert forall|p: Vector2| #![trigger self.tile(p)] self.in_bounds_spec(p) implies {
                &&& has_flag(self.tile(p), PLAYER) == (p == self.player_position)
                &&& has_flag(self.tile(p), CRATE) == self.crate_positions@.contains(p)
                &&& has_flag(self.tile(p), TARGET) == self.target_positions@.contains(p)
                &&& has_flag(self.tile(p), WALL) ==> !has_flag(self.tile(p), PLAYER) && !has_flag(
                    self.tile(p),
                    CRATE,
                )
            } by {
                lemma_index_bounds(self.size, p);
                let t0 = old_level.tile(p).0;
                assert(old_level.tile(p) == old_level.tile(p));
                if p == *position && p == old_player {
                    lemma_remove_flag(t0, PLAYER, PLAYER);
                    lemma_insert_flag(t0 & !PLAYER, PLAYER, PLAYER);
                    lemma_remove_flag(t0, PLAYER, CRATE);
                    lemma_insert_flag(t0 & !PLAYER, PLAYER, CRATE);
                    lemma_remove_flag(t0, PLAYER, TARGET);
                    lemma_insert_flag(t0 & !PLAYER, PLAYER, TARGET);
                    lemma_remove_flag(t0, PLAYER, WALL);
                    lemma_insert_flag(t0 & !PLAYER, PLAYER, WALL);
                } else if p == *position {
                    if self.idx(p) == self.idx(old_player) {
                        lemma_index_injective(self.size, p, old_player);
                    }
                    lemma_insert_flag(t0, PLAYER, PLAYER);
                    lemma_insert_flag(t0, PLAYER, CRATE);
                    lemma_insert_flag(t0, PLAYER, TARGET);
                    lemma_insert_flag(t0, PLAYER, WALL);
                } else if p == old_player {
                    if self.idx(p) == self.idx(*position) {
                        lemma_index_injective(self.size, p, *position);
                    }
                    lemma_remove_flag(t0, PLAYER, PLAYER);
                    lemma_remove_flag(t0, PLAYER, CRATE);
                    lemma_remove_flag(t0, PLAYER, TARGET);
                    lemma_remove_flag(t0, PLAYER, WALL);
                } else {
                    if self.idx(p) == self.idx(*position) {
                        lemma_index_injective(self.size, p, *position);
                    }
                    if self.idx(p) == self.idx(old_player) {
                        lemma_index_injective(self.size, p, old_player);
                    }
                }
            }
        }
    }

    /// Moves the crate at `from` to `to`.
    pub fn set_crate_position(&mut self, from: &Vector2, to: &Vector2)
        requires
            old(self).wf(),
            old(self).crate_positions@.contains(*from),
            !old(self).crate_positions@.contains(*to),
            old(self).in_bounds_spec(*to),
            !has_flag(old(self).tile(*to), WALL),
            *to != old(self).player_position,
        ensures
            final(self).wf(),
            final(self)@ == move_crate_view(old(self)@, *from, *to),
            forall|q: Vector2|
                #![trigger final(self).tile(q)]
                old(self).in_bounds_spec(q) && q != *from && q != *to ==> final(self).tile(q)
                    == old(self).tile(q),
            final(self).tile(*to) == with(old(self).tile(*to), CRATE),
            final(self).tile(*from) == without(old(self).tile(*from), CRATE),
            final(self).crates() == old(self).crates().remove(*from).insert(*to),
            forall|q: Vector2| #[trigger]
                final(self).crate_positions@.contains(q) <==> (q == *to || (
                old(self).crate_positions@.contains(q) && q != *from)),
            final(self).crate_positions@.len() == old(self).crate_positions@.len(),
            final(self).player_position == old(self).player_position,
            final(self).size == old(self).size,
            final(self).target_positions == old(self).target_positions,
            final(self).metadata == old(self).metadata,
            ({
                let d1 = old(self).data@.update(
                    old(self).idx(*from),
                    without(old(self).tile(*from), CRATE),
                );
                final(self).data@ == d1.update(
                    old(self).idx(*to),
                    with(d1[old(self).idx(*to)], CRATE),
                )
            }),
    {
        let ghost old_level = *self;
        proof {
            assert(self.in_bounds_spec(*from)) by {
                let k = choose|k: int|
                    0 <= k < self.crate_positions@.len() && self.crate_positions@[k] == *from;
            }
        }
        let i_from = self.index(from);
        let i_to = self.index(to);
        let mut t = self.data[i_from];
        t.remove(Tile(CRATE));
        self.data.set(i_from, t);
        let mut u = self.data[i_to];
        u.insert(Tile(CRATE));
        self.data.set(i_to, u);
        remove_position(&mut self.crate_positions, from);
        let ghost removed = self.crate_positions@;
        proof {
            lemma_push_distinct(self.crate_positions@, *to);
        }
        self.crate_positions.push(*to);
        proof {
            assert forall|q: Vector2|
                #![trigger self.tile(q)]
                old_level.in_bounds_spec(q) && q != *from && q != *to
                    implies self.tile(q) == old_level.tile(q) by {
                lemma_index_bounds(self.size, q);
                if self.idx(q) == self.idx(*from) {
                    lemma_index_injective(self.size, q, *from);
                }
                if self.idx(q) == self.idx(*to) {
                    lemma_index_injective(self.size, q, *to);
                }
            }
            assert(*from != *to);
            if self.idx(*from) == self.idx(*to) {
                lemma_index_injective(self.size, *from, *to);
            }
            assert forall|i: int|
                0 <= i < self.crate_positions@.len() implies self.in_bounds_spec(
                #[trigger] self.crate_positions@[i],
            ) by {
                if i < self.crate_positions@.len() - 1 {
                    assert(self.crate_positions@[i] == removed[i]);
                    assert(removed.contains(removed[i]));
                    assert(old_level.crate_positions@.contains(self.crate_positions@[i]));
                    let k = choose|k: int|
                        0 <= k < old_level.crate_positions@.len()
                            && old_level.crate_positions@[k] == self.crate_positions@[i];
                    assert(old_level.in_bounds_spec(old_level.crate_positions@[k]));
                }
            }
            assert forall|p: Vector2| #![trigger self.tile(p)] self.in_bounds_spec(p) implies {
                &&& has_flag(self.tile(p), PLAYER) == (p == self.player_position)
                &&& has_flag(self.tile(p), CRATE) == self.crate_positions@.contains(p)
                &&& has_flag(self.tile(p), TARGET) == self.target_positions@.contains(p)
                &&& has_flag(self.tile(p), WALL) ==> !has_flag(self.tile(p), PLAYER) && !has_flag(
                    self.tile(p),
                    CRATE,
                )
            } by {
                lemma_index_bounds(self.size, p);
                let t0 = old_level.tile(p).0;
                assert(old_level.tile(p) == old_level.tile(p));
                if p == *to {
                    assert(p != *from);
                    if self.idx(p) == self.idx(*from) {
                        lemma_index_injective(self.size, p, *from);
                    }
                    lemma_insert_flag(t0, CRATE, PLAYER);
                    lemma_insert_flag(t0, CRATE, CRATE);
                    lemma_insert_flag(t0, CRATE, TARGET);
                    lemma_insert_flag(t0, CRATE, WALL);
                } else if p == *from {
                    if self.idx(p) == self.idx(*to) {
                        lemma_index_injective(self.size, p, *to);
                    }
                    lemma_remove_flag(t0, CRATE, PLAYER);
                    lemma_remove_flag(t0, CRATE, CRATE);
                    lemma_remove_flag(t0, CRATE, TARGET);
                    lemma_remove_flag(t0, CRATE, WALL);
                } else {
                    if self.idx(p) == self.idx(*to) {
                        lemma_index_injective(self.size, p, *to);
                    }
                    if self.idx(p) == self.idx(*from) {
                        lemma_index_injective(self.size, p, *from);
                    }
                }
            }
        }
    }
}

} // verus!
