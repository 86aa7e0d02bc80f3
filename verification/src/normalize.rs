use vstd::prelude::*;
use crate::vector::Vector2;
use crate::tile::{Tile, WALL, VOID, FLOOR, CRATE, PLAYER, has_flag};
use crate::level::{
    Level, LevelView, vtile, in_bounds_spec, lemma_index_bounds, move_player_view, open_fn, with,
};
use crate::reach::{reachable, lemma_reachable_start};
use crate::hashing::{tiles_sip_hash, hash_tiles};

verus! {

/// The position of cell `p` after a quarter turn of a grid of the given size.
pub open spec fn rotate_point(size: Vector2, p: Vector2) -> Vector2 {
    Vector2 { x: p.y, y: (size.x - 1 - p.x) as i32 }
}

/// The position of cell `p` after a grid of the given size is mirrored left to right.
pub open spec fn flip_point(size: Vector2, p: Vector2) -> Vector2 {
    Vector2 { x: (size.x - 1 - p.x) as i32, y: p.y }
}

/// The tiles of a `w` by `h` grid after a quarter turn: the result has rows
/// of `h` cells, and its cell `(x, y)` is the cell `(w - 1 - y, x)` of the grid.
pub open spec fn rotate_tiles(t: Seq<Tile>, w: int, h: int) -> Seq<Tile> {
    Seq::new((w * h) as nat, |i: int| t[(i % h) * w + (w - 1 - i / h)])
}

/// The tiles of a `w` by `h` grid mirrored left to right.
pub open spec fn flip_tiles(t: Seq<Tile>, w: int, h: int) -> Seq<Tile> {
    Seq::new((w * h) as nat, |i: int| t[(i / w) * w + (w - 1 - i % w)])
}

/// A level turned a quarter: the grid, the player and the crates move, the
/// targets stay as they were.
pub open spec fn rotate_view(v: LevelView) -> LevelView {
    LevelView {
        size: Vector2 { x: v.size.y, y: v.size.x },
        tiles: rotate_tiles(v.tiles, v.size.x as int, v.size.y as int),
        player: rotate_point(v.size, v.player),
        crates: v.crates.map(|p: Vector2| rotate_point(v.size, p)),
        ..v
    }
}

/// A level mirrored left to right: the grid, the player and the crates move,
/// the targets stay as they were.
pub open spec fn flip_view(v: LevelView) -> LevelView {
    LevelView {
        tiles: flip_tiles(v.tiles, v.size.x as int, v.size.y as int),
        player: flip_point(v.size, v.player),
        crates: v.crates.map(|p: Vector2| flip_point(v.size, p)),
        ..v
    }
}

/// Whether `a` comes no later than `b` when the grid is read column by
/// column from the left, each column from the top.
pub open spec fn left_top_first(a: Vector2, b: Vector2) -> bool {
    a.x < b.x || (a.x == b.x && a.y <= b.y)
}

/// The first cell, column by column, of the area that the player reaches
/// through cells holding neither a wall nor a crate.
pub open spec fn area_corner(v: LevelView) -> Vector2 {
    let open = open_fn(v, WALL | CRATE, Set::empty());
    choose|a: Vector2|
        reachable(open, v.player, a) && forall|q: Vector2|
            reachable(open, v.player, q) ==> #[trigger] left_top_first(a, q)
}

/// The level with the player moved to the first cell of its area.
pub open spec fn anchored_view(v: LevelView) -> LevelView {
    move_player_view(v, area_corner(v))
}

/// The `n`-th variant of a level: each turns the previous one a quarter,
/// the fifth also mirrors it, and each puts the player in the first cell of
/// its area.
pub open spec fn variant(v: LevelView, n: nat) -> LevelView
    decreases n,
{
    if n == 0 {
        v
    } else {
        let r = rotate_view(variant(v, (n - 1) as nat));
        let f = if n == 5 {
            flip_view(r)
        } else {
            r
        };
        anchored_view(f)
    }
}

/// Whether a cell next to `q`, diagonals included, is floor.
pub open spec fn floor_nearby(v: LevelView, q: Vector2) -> bool {
    exists|dx: int, dy: int|
        -1 <= dx <= 1 && -1 <= dy <= 1 && !(dx == 0 && dy == 0) && #[trigger] in_bounds_spec(
            v.size,
            Vector2 { x: (q.x + dx) as i32, y: (q.y + dy) as i32 },
        ) && has_flag(vtile(v, Vector2 { x: (q.x + dx) as i32, y: (q.y + dy) as i32 }), FLOOR)
}

/// The tile of `q` with its wall and void flags cleared, and a wall set
/// where `q` is not floor but touches floor.
pub open spec fn prepared_tile(v: LevelView, q: Vector2) -> Tile {
    let t = vtile(v, q).0 & !WALL & !VOID;
    if !has_flag(vtile(v, q), FLOOR) && floor_nearby(v, q) {
        Tile(t | WALL)
    } else {
        Tile(t)
    }
}

/// The cell whose index in a row-major grid of the given size is `i`.
pub open spec fn cell_of(size: Vector2, i: int) -> Vector2 {
    Vector2 { x: (i % size.x as int) as i32, y: (i / size.x as int) as i32 }
}

/// The level with every tile prepared: walls and void cleared, and walls
/// drawn around the floor.
pub open spec fn prepared_view(v: LevelView) -> LevelView {
    LevelView {
        tiles: Seq::new(v.tiles.len(), |i: int| prepared_tile(v, cell_of(v.size, i))),
        ..v
    }
}

/// The place of the `n`-th variant in the order in which equal hashes are
/// decided: the four mirrored variants, then the four plain ones.
pub open spec fn tie_rank(n: nat) -> nat {
    if n >= 5 {
        (n - 4) as nat
    } else {
        n + 4
    }
}

/// Whether `w` is the normal form of the prepared level `p`: of its eight
/// variants whose tiles hash lowest, the first in the order of `tie_rank`.
pub open spec fn normal_form(p: LevelView, w: LevelView) -> bool {
    exists|k: nat|
        1 <= k <= 8 && w == variant(p, k) && (forall|n: nat|
            1 <= n <= 8 ==> tiles_sip_hash(w.tiles) <= tiles_sip_hash(#[trigger] variant(p, n).tiles))
            && (forall|n: nat|
            1 <= n <= 8 && tie_rank(n) < tie_rank(k) ==> tiles_sip_hash(w.tiles) < tiles_sip_hash(
                #[trigger] variant(p, n).tiles,
            ))
}

impl Level {
    /// Clears the flags of `value` in every cell.
    pub fn clear(&mut self, value: Tile)
        ensures
            final(self).data@.len() == old(self).data@.len(),
            forall|i: int|
                0 <= i < old(self).data@.len() ==> #[trigger] final(self).data@[i] == Tile(
                    old(self).data@[i].0 & !value.0,
                ),
            final(self).size == old(self).size,
            final(self).player_position == old(self).player_position,
            final(self).crate_positions == old(self).crate_positions,
            final(self).target_positions == old(self).target_positions,
            final(self).metadata == old(self).metadata,
    {
        let mut i: usize = 0;
        while i < self.data.len()
            invariant
                i <= self.data@.len(),
                self.data@.len() == old(self).data@.len(),
                forall|k: int|
                    0 <= k < i ==> #[trigger] self.data@[k] == Tile(old(self).data@[k].0 & !value.0),
                forall|k: int| i <= k < self.data@.len() ==> #[trigger] self.data@[k] == old(self).data@[k],
                self.size == old(self).size,
                self.player_position == old(self).player_position,
                self.crate_positions == old(self).crate_positions,
                self.target_positions == old(self).target_positions,
                self.metadata == old(self).metadata,
            decreases self.data@.len() - i,
        {
            let t = self.data[i];
            self.data.set(i, Tile(t.0 & !value.0));
            i = i + 1;
        }
    }
}

/// The first cell, column by column, of a non-empty area.
pub fn normalized_area(area: &Vec<Vector2>) -> (r: Vector2)
    requires
        area@.len() > 0,
    ensures
        area@.contains(r),
        forall|i: int| 0 <= i < area@.len() ==> #[trigger] left_top_first(r, area@[i]),
{
    let mut best = area[0];
    let mut i: usize = 1;
    while i < area.len()
        invariant
            1 <= i <= area@.len(),
            area@.contains(best),
            forall|k: int| 0 <= k < i ==> #[trigger] left_top_first(best, area@[k]),
        decreases area@.len() - i,
    {
        let q = area[i];
        if q.x < best.x || (q.x == best.x && q.y < best.y) {
            proof {
                assert forall|k: int| 0 <= k < i implies #[trigger] left_top_first(q, area@[k]) by {
                    assert(left_top_first(best, area@[k]));
                }
            }
            best = q;
        }
        i = i + 1;
    }
    best
}

/// Listing the images of a list gives the image of its set.
proof fn lemma_map_values_to_set(s: Seq<Vector2>, f: spec_fn(Vector2) -> Vector2)
    ensures
        s.map_values(f).to_set() == s.to_set().map(f),
{
    let l = s.map_values(f);
    assert forall|x: Vector2| l.to_set().contains(x) == s.to_set().map(f).contains(x) by {
        if l.contains(x) {
            let i = choose|i: int| 0 <= i < l.len() && l[i] == x;
            assert(s.contains(s[i]));
            assert(s.to_set().contains(s[i]) && f(s[i]) == x);
        }
        if s.to_set().map(f).contains(x) {
            let y = choose|y: Vector2| s.to_set().contains(y) && f(y) == x;
            let i = choose|i: int| 0 <= i < s.len() && s[i] == y;
            assert(l[i] == x);
        }
    }
    assert(l.to_set() =~= s.to_set().map(f));
}

/// Whether every position of a list lies on the grid.
pub open spec fn all_in_bounds(size: Vector2, ps: Seq<Vector2>) -> bool {
    forall|i: int| 0 <= i < ps.len() ==> in_bounds_spec(size, #[trigger] ps[i])
}

impl Level {
    /// Turns the level a quarter: the grid, the player and the crates move;
    /// the targets stay as they were.
    fn rotate(&mut self)
        requires
            old(self).grid_wf(),
            old(self).in_bounds_spec(old(self).player_position),
            all_in_bounds(old(self).size, old(self).crate_positions@),
        ensures
            final(self).grid_wf(),
            final(self)@ == rotate_view(old(self)@),
            final(self).in_bounds_spec(final(self).player_position),
            all_in_bounds(final(self).size, final(self).crate_positions@),
            final(self).target_positions == old(self).target_positions,
            final(self).metadata == old(self).metadata,
    {
        let w = self.size.x;
        let h = self.size.y;
        let ghost t = self.data@;
        let mut data: Vec<Tile> = Vec::new();
        let mut ny: i32 = 0;
        while ny < w
            invariant
                self.grid_wf(),
                w == self.size.x,
                h == self.size.y,
                t == self.data@,
                0 <= ny <= w,
                data@.len() == ny * h,
                forall|j: int| 0 <= j < data@.len() ==> #[trigger] data@[j] == t[(j % h as int) * w + (w - 1 - j / h as int)],
            decreases w - ny,
        {
            let mut nx: i32 = 0;
            while nx < h
                invariant
                    self.grid_wf(),
                    w == self.size.x,
                    h == self.size.y,
                    t == self.data@,
                    0 <= ny < w,
                    0 <= nx <= h,
                    data@.len() == ny * h + nx,
                    forall|j: int| 0 <= j < data@.len() ==> #[trigger] data@[j] == t[(j % h as int) * w + (w - 1 - j / h as int)],
                decreases h - nx,
            {
                proof {
                    assert(0 <= nx * w + (w - 1 - ny) < w * h) by (nonlinear_arith)
                        requires
                            0 <= nx < h,
                            0 <= ny < w,
                    ;
                    let j = data@.len() as int;
                    vstd::arithmetic::div_mod::lemma_fundamental_div_mod_converse(j, h as int, ny as int, nx as int);
                }
                let v = self.data[(nx * w + (w - 1 - ny)) as usize];
                data.push(v);
                nx = nx + 1;
            }
            assert(data@.len() == (ny + 1) * h) by (nonlinear_arith)
                requires
                    data@.len() == ny * h + h,
            ;
            ny = ny + 1;
        }
        proof {
            assert(data@.len() == w * h) by (nonlinear_arith)
                requires
                    data@.len() == w * h,
            ;
            assert(data@ =~= rotate_tiles(t, w as int, h as int));
        }
        let ghost old_crates = self.crate_positions@;
        let ghost size = self.size;
        let mut crates: Vec<Vector2> = Vec::new();
        let mut i: usize = 0;
        while i < self.crate_positions.len()
            invariant
                i <= self.crate_positions@.len(),
                self.crate_positions@ == old_crates,
                self.size == size,
                w == size.x,
                all_in_bounds(size, old_crates),
                crates@ == old_crates.take(i as int).map_values(|p: Vector2| rotate_point(size, p)),
            decreases self.crate_positions@.len() - i,
        {
            let c = self.crate_positions[i];
            assert(in_bounds_spec(size, old_crates[i as int]));
            crates.push(Vector2::new(c.y, w - 1 - c.x));
            proof {
                assert(old_crates.take(i + 1).map_values(|p: Vector2| rotate_point(size, p))
                    =~= old_crates.take(i as int).map_values(|p: Vector2| rotate_point(size, p)).push(
                    rotate_point(size, c),
                ));
            }
            i = i + 1;
        }
        proof {
            assert(old_crates.take(old_crates.len() as int) =~= old_crates);
            lemma_map_values_to_set(old_crates, |p: Vector2| rotate_point(size, p));
            assert forall|k: int| 0 <= k < crates@.len() implies in_bounds_spec(
                Vector2 { x: h, y: w },
                #[trigger] crates@[k],
            ) by {
                assert(in_bounds_spec(size, old_crates[k]));
            }
        }
        let player = Vector2::new(self.player_position.y, w - 1 - self.player_position.x);
        self.data = data;
        self.player_position = player;
        self.crate_positions = crates;
        self.size = Vector2::new(h, w);
        proof {
            assert(h * w == w * h) by (nonlinear_arith);
        }
    }

    /// Mirrors the level left to right: the grid, the player and the crates
    /// move; the targets stay as they were.
    fn flip(&mut self)
        requires
            old(self).grid_wf(),
            old(self).in_bounds_spec(old(self).player_position),
            all_in_bounds(old(self).size, old(self).crate_positions@),
        ensures
            final(self).grid_wf(),
            final(self)@ == flip_view(old(self)@),
            final(self).in_bounds_spec(final(self).player_position),
            all_in_bounds(final(self).size, final(self).crate_positions@),
            final(self).target_positions == old(self).target_positions,
            final(self).metadata == old(self).metadata,
    {
        let w = self.size.x;
        let h = self.size.y;
        let ghost t = self.data@;
        let mut data: Vec<Tile> = Vec::new();
        let mut y: i32 = 0;
        while y < h
            invariant
                self.grid_wf(),
                w == self.size.x,
                h == self.size.y,
                t == self.data@,
                0 <= y <= h,
                data@.len() == y * w,
                forall|j: int| 0 <= j < data@.len() ==> #[trigger] data@[j] == t[(j / w as int) * w + (w - 1 - j % w as int)],
            decreases h - y,
        {
            let mut x: i32 = 0;
            while x < w
                invariant
                    self.grid_wf(),
                    w == self.size.x,
                    h == self.size.y,
                    t == self.data@,
                    0 <= y < h,
                    0 <= x <= w,
                    data@.len() == y * w + x,
                    forall|j: int| 0 <= j < data@.len() ==> #[trigger] data@[j] == t[(j / w as int) * w + (w - 1 - j % w as int)],
                decreases w - x,
            {
                proof {
                    assert(0 <= y * w + (w - 1 - x) < w * h) by (nonlinear_arith)
                        requires
                            0 <= x < w,
                            0 <= y < h,
                    ;
                    let j = data@.len() as int;
                    vstd::arithmetic::div_mod::lemma_fundamental_div_mod_converse(j, w as int, y as int, x as int);
                }
                let v = self.data[(y * w + (w - 1 - x)) as usize];
                data.push(v);
                x = x + 1;
            }
            assert(data@.len() == (y + 1) * w) by (nonlinear_arith)
                requires
                    data@.len() == y * w + w,
            ;
            y = y + 1;
        }
        proof {
            assert(data@.len() == w * h) by (nonlinear_arith)
                requires
                    data@.len() == h * w,
            ;
            assert(data@ =~= flip_tiles(t, w as int, h as int));
        }
        let ghost old_crates = self.crate_positions@;
        let ghost size = self.size;
        let mut crates: Vec<Vector2> = Vec::new();
        let mut i: usize = 0;
        while i < self.crate_positions.len()
            invariant
                i <= self.crate_positions@.len(),
                self.crate_positions@ == old_crates,
                self.size == size,
                w == size.x,
                all_in_bounds(size, old_crates),
                crates@ == old_crates.take(i as int).map_values(|p: Vector2| flip_point(size, p)),
            decreases self.crate_positions@.len() - i,
        {
            let c = self.crate_positions[i];
            assert(in_bounds_spec(size, old_crates[i as int]));
            crates.push(Vector2::new(w - 1 - c.x, c.y));
            proof {
                assert(old_crates.take(i + 1).map_values(|p: Vector2| flip_point(size, p))
                    =~= old_crates.take(i as int).map_values(|p: Vector2| flip_point(size, p)).push(
                    flip_point(size, c),
                ));
            }
            i = i + 1;
        }
        proof {
            assert(old_crates.take(old_crates.len() as int) =~= old_crates);
            lemma_map_values_to_set(old_crates, |p: Vector2| flip_point(size, p));
            assert forall|k: int| 0 <= k < crates@.len() implies in_bounds_spec(size, #[trigger] crates@[k]) by {
                assert(in_bounds_spec(size, old_crates[k]));
            }
        }
        let player = Vector2::new(w - 1 - self.player_position.x, self.player_position.y);
        self.data = data;
        self.player_position = player;
        self.crate_positions = crates;
    }

    /// Moves the player's flag and position to `to`, whatever the cells hold.
    fn place_player(&mut self, to: &Vector2)
        requires
            old(self).grid_wf(),
            old(self).in_bounds_spec(old(self).player_position),
            old(self).in_bounds_spec(*to),
        ensures
            final(self).grid_wf(),
            final(self)@ == move_player_view(old(self)@, *to),
            final(self).player_position == *to,
            final(self).size == old(self).size,
            final(self).crate_positions == old(self).crate_positions,
            final(self).target_positions == old(self).target_positions,
            final(self).metadata == old(self).metadata,
    {
        proof {
            lemma_index_bounds(self.size, self.player_position);
            lemma_index_bounds(self.size, *to);
        }
        let pi = (self.player_position.y * self.size.x + self.player_position.x) as usize;
        let t = self.data[pi];
        self.data.set(pi, Tile(t.0 & !PLAYER));
        let ti = (to.y * self.size.x + to.x) as usize;
        let u = self.data[ti];
        self.data.set(ti, Tile(u.0 | PLAYER));
        self.player_position = *to;
    }
}

impl Level {
    /// Whether a cell next to `q`, diagonals included, is floor.
    fn floor_nearby_exec(&self, q: &Vector2) -> (r: bool)
        requires
            self.grid_wf(),
            self.in_bounds_spec(*q),
        ensures
            r == floor_nearby(self@, *q),
    {
        let mut found = false;
        let mut dx: i32 = -1;
        while dx <= 1
            invariant
                self.grid_wf(),
                self.in_bounds_spec(*q),
                -1 <= dx <= 2,
                found == exists|ex: int, ey: int|
                    -1 <= ex < dx && -1 <= ey <= 1 && !(ex == 0 && ey == 0) && #[trigger] in_bounds_spec(
                        self.size,
                        Vector2 { x: (q.x + ex) as i32, y: (q.y + ey) as i32 },
                    ) && has_flag(vtile(self@, Vector2 { x: (q.x + ex) as i32, y: (q.y + ey) as i32 }), FLOOR),
            decreases 2 - dx,
        {
            let mut dy: i32 = -1;
            let ghost found_before = found;
            while dy <= 1
                invariant
                    self.grid_wf(),
                    self.in_bounds_spec(*q),
                    -1 <= dx <= 1,
                    -1 <= dy <= 2,
                    found == (found_before || exists|ey: int|
                        -1 <= ey < dy && !(dx == 0 && ey == 0) && #[trigger] in_bounds_spec(
                            self.size,
                            Vector2 { x: (q.x + dx) as i32, y: (q.y + ey) as i32 },
                        ) && has_flag(vtile(self@, Vector2 { x: (q.x + dx) as i32, y: (q.y + ey) as i32 }), FLOOR)),
                    found_before == exists|ex: int, ey: int|
                        -1 <= ex < dx && -1 <= ey <= 1 && !(ex == 0 && ey == 0) && #[trigger] in_bounds_spec(
                            self.size,
                            Vector2 { x: (q.x + ex) as i32, y: (q.y + ey) as i32 },
                        ) && has_flag(vtile(self@, Vector2 { x: (q.x + ex) as i32, y: (q.y + ey) as i32 }), FLOOR),
                decreases 2 - dy,
            {
                if !(dx == 0 && dy == 0) {
                    let n = Vector2::new(q.x + dx, q.y + dy);
                    if self.in_bounds(&n) && self.at_unchecked(&n).intersects(Tile(FLOOR)) {
                        found = true;
                    }
                }
                proof {
                    let n = Vector2 { x: (q.x + dx) as i32, y: (q.y + dy) as i32 };
                    if in_bounds_spec(self.size, n) && has_flag(vtile(self@, n), FLOOR) && !(dx == 0 && dy == 0) {
                        assert(exists|ey: int|
                            -1 <= ey < dy + 1 && !(dx == 0 && ey == 0) && #[trigger] in_bounds_spec(
                                self.size,
                                Vector2 { x: (q.x + dx) as i32, y: (q.y + ey) as i32 },
                            ) && has_flag(vtile(self@, Vector2 { x: (q.x + dx) as i32, y: (q.y + ey) as i32 }), FLOOR));
                    }
                }
                dy = dy + 1;
            }
            proof {
                if found {
                    if !found_before {
                        let ey = choose|ey: int|
                            -1 <= ey < dy && !(dx == 0 && ey == 0) && #[trigger] in_bounds_spec(
                                self.size,
                                Vector2 { x: (q.x + dx) as i32, y: (q.y + ey) as i32 },
                            ) && has_flag(vtile(self@, Vector2 { x: (q.x + dx) as i32, y: (q.y + ey) as i32 }), FLOOR);
                        assert(in_bounds_spec(self.size, Vector2 { x: (q.x + dx) as i32, y: (q.y + ey) as i32 }));
                    }
                }
            }
            dx = dx + 1;
        }
        found
    }

    /// Clears the walls and the void, then draws walls around the floor:
    /// every cell that is not floor and touches floor, diagonals included.
    fn prepare(&mut self)
        requires
            old(self).grid_wf(),
        ensures
            final(self).grid_wf(),
            final(self)@ == prepared_view(old(self)@),
            final(self).player_position == old(self).player_position,
            final(self).crate_positions == old(self).crate_positions,
            final(self).target_positions == old(self).target_positions,
            final(self).metadata == old(self).metadata,
            final(self).size == old(self).size,
    {
        let w = self.size.x;
        let h = self.size.y;
        let ghost v = self@;
        let mut data: Vec<Tile> = Vec::new();
        let mut y: i32 = 0;
        while y < h
            invariant
                self.grid_wf(),
                self@ == v,
                w == self.size.x,
                h == self.size.y,
                0 <= y <= h,
                data@.len() == y * w,
                forall|j: int| 0 <= j < data@.len() ==> #[trigger] data@[j] == prepared_tile(v, cell_of(v.size, j)),
            decreases h - y,
        {
            let mut x: i32 = 0;
            while x < w
                invariant
                    self.grid_wf(),
                    self@ == v,
                    w == self.size.x,
                    h == self.size.y,
                    0 <= y < h,
                    0 <= x <= w,
                    data@.len() == y * w + x,
                    forall|j: int| 0 <= j < data@.len() ==> #[trigger] data@[j] == prepared_tile(v, cell_of(v.size, j)),
                decreases w - x,
            {
                let q = Vector2::new(x, y);
                let t = self.at_unchecked(&q);
                let cleared = Tile(t.0 & !WALL & !VOID);
                let tile = if !t.intersects(Tile(FLOOR)) && self.floor_nearby_exec(&q) {
                    Tile(cleared.0 | WALL)
                } else {
                    cleared
                };
                proof {
                    let j = data@.len() as int;
                    vstd::arithmetic::div_mod::lemma_fundamental_div_mod_converse(j, w as int, y as int, x as int);
                    assert(cell_of(v.size, j) == q);
                }
                data.push(tile);
                x = x + 1;
            }
            assert(data@.len() == (y + 1) * w) by (nonlinear_arith)
                requires
                    data@.len() == y * w + w,
            ;
            y = y + 1;
        }
        proof {
            assert(data@.len() == w * h) by (nonlinear_arith)
                requires
                    data@.len() == h * w,
            ;
            assert(data@ =~= prepared_view(v).tiles);
        }
        self.data = data;
    }

    /// The cells the player reaches from `player_position` through cells that
    /// hold no flag of `block`, `player_position` included.
    pub fn reachable_area(&self, player_position: &Vector2, block: Tile) -> (r: Vec<Vector2>)
        requires
            self.grid_wf(),
            self.in_bounds_spec(*player_position),
        ensures
            r@.no_duplicates(),
            forall|p: Vector2| #[trigger]
                r@.contains(p) <==> reachable(open_fn(self@, block.0, Set::empty()), *player_position, p),
    {
        let none: Vec<Vector2> = Vec::new();
        let r = self.reachable_cells(player_position, block.0, &none);
        assert(none@.to_set() =~= Set::<Vector2>::empty());
        r
    }

    /// Standardizes the level for telling similar levels apart: clears the
    /// walls and the void, draws walls around the floor, then among the eight
    /// variants obtained by turning the level a quarter at a time, mirroring
    /// it once after four turns, and putting the player in the first cell of
    /// its area, keeps one whose tiles hash lowest, a mirrored one first
    /// where hashes are equal.
    pub fn normalize(&mut self)
        requires
            old(self).grid_wf(),
            old(self).in_bounds_spec(old(self).player_position),
            all_in_bounds(old(self).size, old(self).crate_positions@),
            has_flag(old(self).tile(old(self).player_position), FLOOR),
        ensures
            normal_form(prepared_view(old(self)@), final(self)@),
    {
        self.prepare();
        let ghost p0 = self@;
        let mut best_data: Vec<Tile> = self.data.clone();
        let mut best_size = self.size;
        let mut best_player = self.player_position;
        let mut best_crates: Vec<Vector2> = self.crate_positions.clone();
        let mut best_hash: u64 = 0;
        let mut best_i: usize = 0;
        let ghost mut best_k: nat = 0;
        let mut i: usize = 1;
        while i <= 8
            invariant
                1 <= i <= 9,
                self.grid_wf(),
                self.in_bounds_spec(self.player_position),
                all_in_bounds(self.size, self.crate_positions@),
                self@ == variant(p0, (i - 1) as nat),
                self@.targets == p0.targets,
                self@.metadata == p0.metadata,
                i > 1 ==> 1 <= best_k < i,
                i > 1 ==> (LevelView {
                    size: best_size,
                    tiles: best_data@,
                    player: best_player,
                    crates: best_crates@.to_set(),
                    targets: p0.targets,
                    metadata: p0.metadata,
                }) == variant(p0, best_k),
                i > 1 ==> best_hash == tiles_sip_hash(best_data@),
                forall|n: nat| 1 <= n < i ==> best_hash <= tiles_sip_hash(#[trigger] variant(p0, n).tiles),
                i > 1 ==> best_k == best_i,
                forall|n: nat|
                    1 <= n < i && tie_rank(n) < tie_rank(best_k) ==> best_hash < tiles_sip_hash(
                        #[trigger] variant(p0, n).tiles,
                    ),
            decreases 9 - i,
        {
            let ghost before = self@;
            self.rotate();
            if i == 5 {
                self.flip();
            }
            let ghost f = self@;
            let block = Tile(WALL | CRATE);
            let area = self.reachable_area(&self.player_position, block);
            proof {
                lemma_reachable_start(open_fn(self@, WALL | CRATE, Set::empty()), self.player_position);
                assert(area@.contains(self.player_position));
            }
            let corner = normalized_area(&area);
            proof {
                let open = open_fn(f, WALL | CRATE, Set::empty());
                let a = area_corner(f);
                assert forall|q: Vector2| reachable(open, f.player, q) implies #[trigger] left_top_first(corner, q) by {
                    assert(area@.contains(q));
                    let k = choose|k: int| 0 <= k < area@.len() && area@[k] == q;
                    assert(left_top_first(corner, area@[k]));
                }
                assert(reachable(open, f.player, corner));
                assert(reachable(open, f.player, a) && forall|q: Vector2|
                    reachable(open, f.player, q) ==> #[trigger] left_top_first(a, q));
                assert(left_top_first(a, corner));
                assert(left_top_first(corner, a));
                assert(corner == a);
            }
            assert(self.in_bounds_spec(corner)) by {
                if corner != self.player_position {
                    crate::reach::lemma_reachable_open(open_fn(f, WALL | CRATE, Set::empty()), f.player, corner);
                }
            }
            self.place_player(&corner);
            proof {
                assert(self@ == variant(p0, i as nat));
            }
            let hash = hash_tiles(&self.data);
            if i == 1 || hash < best_hash || (hash == best_hash && i >= 5 && best_i < 5) {
                best_data = self.data.clone();
                best_size = self.size;
                best_player = self.player_position;
                best_crates = self.crate_positions.clone();
                best_hash = hash;
                best_i = i;
                proof {
                    best_k = i as nat;
                }
            }
            i = i + 1;
        }
        self.data = best_data;
        self.size = best_size;
        self.player_position = best_player;
        self.crate_positions = best_crates;
        proof {
            assert(self@ == variant(p0, best_k));
            assert(tiles_sip_hash(self@.tiles) == best_hash);
            assert(normal_form(p0, self@));
        }
    }
}

} // verus!
