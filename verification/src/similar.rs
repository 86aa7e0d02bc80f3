use vstd::prelude::*;
use crate::vector::Vector2;
use crate::tile::{Tile, WALL, VOID, FLOOR, CRATE, PLAYER, has_flag};
use crate::level::{without, with};
use crate::tile::lemma_insert_then_remove;
use crate::level::{
    LevelView, vtile, in_bounds_spec, index_of, lemma_index_bounds, lemma_index_injective,
    move_player_view, open_fn,
};
use crate::reach::{reachable, adjacent, lemma_reachable_start, lemma_reachable_step, lemma_closed_contains_reachable};
use crate::normalize::{
    cell_of, prepared_view, prepared_tile, floor_nearby, rotate_view, rotate_point, rotate_tiles,
    anchored_view, area_corner, left_top_first, variant, normal_form, tie_rank, flip_view, flip_point,
    flip_tiles,
};
use crate::hashing::tiles_sip_hash;

verus! {

/// The cell of an index of a grid lies on the grid and has that index.
pub(crate) proof fn lemma_cell_index(size: Vector2, i: int)
    requires
        0 <= i < size.x * size.y,
        size.x > 0,
    ensures
        in_bounds_spec(size, cell_of(size, i)),
        index_of(size, cell_of(size, i)) == i,
{
    let w = size.x as int;
    let h = size.y as int;
    vstd::arithmetic::div_mod::lemma_fundamental_div_mod(i, w);
    vstd::arithmetic::div_mod::lemma_mod_pos_bound(i, w);
    vstd::arithmetic::div_mod::lemma_div_pos_is_pos(i, w);
    let q = i / w;
    let r = i % w;
    assert(q * w == w * q) by (nonlinear_arith);
    assert(q < h) by (nonlinear_arith)
        requires
            q * w + r == i,
            0 <= r,
            i < w * h,
            w > 0,
    ;
}

/// The bits of a prepared tile: walls and void cleared, a wall added where asked.
pub open spec fn prepared_bits(t: u8, add_wall: bool) -> u8 {
    if add_wall {
        (t & !WALL & !VOID) | WALL
    } else {
        t & !WALL & !VOID
    }
}

/// Preparing a tile keeps its player bit out of the way.
pub(crate) proof fn lemma_prepared_bits_player(t: u8, add_wall: bool)
    ensures
        prepared_bits(t & !PLAYER, add_wall) == prepared_bits(t, add_wall) & !PLAYER,
        prepared_bits(t | PLAYER, add_wall) == prepared_bits(t, add_wall) | PLAYER,
        (t & !PLAYER) & FLOOR == t & FLOOR,
        (t | PLAYER) & FLOOR == t & FLOOR,
{
    if add_wall {
        assert(((t & !PLAYER) & !4u8 & !1u8) | 4u8 == (((t & !4u8 & !1u8) | 4u8) & !32u8)) by (bit_vector);
        assert(((t | 32u8) & !4u8 & !1u8) | 4u8 == (((t & !4u8 & !1u8) | 4u8) | 32u8)) by (bit_vector);
    } else {
        assert((t & !32u8) & !4u8 & !1u8 == ((t & !4u8 & !1u8) & !32u8)) by (bit_vector);
        assert((t | 32u8) & !4u8 & !1u8 == ((t & !4u8 & !1u8) | 32u8)) by (bit_vector);
    }
    assert((t & !32u8) & 2u8 == t & 2u8) by (bit_vector);
    assert((t | 32u8) & 2u8 == t & 2u8) by (bit_vector);
}

/// The tile of a cell after the player moves to `b`.
pub open spec fn moved_tile(u: LevelView, b: Vector2, q: Vector2) -> Tile {
    let t = if q == u.player {
        without(vtile(u, q), PLAYER)
    } else {
        vtile(u, q)
    };
    if q == b {
        with(t, PLAYER)
    } else {
        t
    }
}

/// Whether a level's grid has one tile per cell, with the player on it.
pub open spec fn grid_ok(u: LevelView) -> bool {
    &&& u.size.x >= 0
    &&& u.size.y >= 0
    &&& u.tiles.len() == u.size.x * u.size.y
    &&& in_bounds_spec(u.size, u.player)
}

/// Moving the player changes the player flags of the two cells only.
pub(crate) proof fn lemma_move_player_tile(u: LevelView, b: Vector2, q: Vector2)
    requires
        grid_ok(u),
        in_bounds_spec(u.size, b),
        in_bounds_spec(u.size, q),
    ensures
        vtile(move_player_view(u, b), q) == moved_tile(u, b, q),
{
    lemma_index_bounds(u.size, u.player);
    lemma_index_bounds(u.size, b);
    lemma_index_bounds(u.size, q);
    if index_of(u.size, q) == index_of(u.size, b) {
        lemma_index_injective(u.size, q, b);
    }
    if index_of(u.size, q) == index_of(u.size, u.player) {
        lemma_index_injective(u.size, q, u.player);
    }
    if index_of(u.size, b) == index_of(u.size, u.player) {
        lemma_index_injective(u.size, b, u.player);
    }
}

/// Preparing a level and moving its player can be done in either order.
pub(crate) proof fn lemma_prepared_move_player(v: LevelView, b: Vector2)
    requires
        grid_ok(v),
        in_bounds_spec(v.size, b),
    ensures
        prepared_view(move_player_view(v, b)) == move_player_view(prepared_view(v), b),
{
    let mv = move_player_view(v, b);
    let pv = prepared_view(v);
    let l = prepared_view(mv);
    let r = move_player_view(pv, b);
    lemma_index_bounds(v.size, v.player);
    lemma_index_bounds(v.size, b);
    assert(mv.tiles.len() == v.tiles.len());
    assert(pv.tiles.len() == v.tiles.len());
    assert(r.tiles.len() == v.tiles.len());
    assert forall|q: Vector2| #[trigger] in_bounds_spec(v.size, q) implies has_flag(vtile(mv, q), FLOOR)
        == has_flag(vtile(v, q), FLOOR) by {
        lemma_move_player_tile(v, b, q);
        lemma_prepared_bits_player(vtile(v, q).0, false);
        lemma_prepared_bits_player(vtile(v, q).0 & !PLAYER, false);
    }
    assert forall|q: Vector2| in_bounds_spec(v.size, q) implies floor_nearby(mv, q) == floor_nearby(v, q) by {
        if floor_nearby(mv, q) {
            let (dx, dy) = choose|dx: int, dy: int|
                -1 <= dx <= 1 && -1 <= dy <= 1 && !(dx == 0 && dy == 0) && #[trigger] in_bounds_spec(
                    mv.size,
                    Vector2 { x: (q.x + dx) as i32, y: (q.y + dy) as i32 },
                ) && has_flag(vtile(mv, Vector2 { x: (q.x + dx) as i32, y: (q.y + dy) as i32 }), FLOOR);
            let n = Vector2 { x: (q.x + dx) as i32, y: (q.y + dy) as i32 };
            assert(in_bounds_spec(v.size, n));
        }
        if floor_nearby(v, q) {
            let (dx, dy) = choose|dx: int, dy: int|
                -1 <= dx <= 1 && -1 <= dy <= 1 && !(dx == 0 && dy == 0) && #[trigger] in_bounds_spec(
                    v.size,
                    Vector2 { x: (q.x + dx) as i32, y: (q.y + dy) as i32 },
                ) && has_flag(vtile(v, Vector2 { x: (q.x + dx) as i32, y: (q.y + dy) as i32 }), FLOOR);
            let n = Vector2 { x: (q.x + dx) as i32, y: (q.y + dy) as i32 };
            assert(has_flag(vtile(mv, n), FLOOR));
        }
    }
    assert(l.tiles.len() == r.tiles.len());
    assert forall|i: int| 0 <= i < l.tiles.len() implies l.tiles[i] == r.tiles[i] by {
        let q = cell_of(v.size, i);
        lemma_cell_index(v.size, i);
        lemma_move_player_tile(v, b, q);
        lemma_move_player_tile(pv, b, q);
        assert(vtile(pv, q) == prepared_tile(v, q));
        let add = !has_flag(vtile(v, q), FLOOR) && floor_nearby(v, q);
        let t = vtile(v, q).0;
        lemma_prepared_bits_player(t, add);
        lemma_prepared_bits_player(t & !PLAYER, add);
        assert(prepared_tile(v, q).0 == prepared_bits(t, add));
        assert(prepared_tile(mv, q).0 == prepared_bits(vtile(mv, q).0, add));
        assert(l.tiles[i] == prepared_tile(mv, q));
    }
    assert(l.tiles =~= r.tiles);
}

/// Whether the player flag is set on the player's cell and nowhere else.
pub open spec fn player_unique(u: LevelView) -> bool {
    forall|q: Vector2|
        #[trigger] in_bounds_spec(u.size, q) ==> has_flag(vtile(u, q), PLAYER) == (q == u.player)
}

/// The cell that a quarter turn maps onto `q`.
pub open spec fn unrotate_point(size: Vector2, q: Vector2) -> Vector2 {
    Vector2 { x: (size.x - 1 - q.y) as i32, y: q.x }
}

/// A quarter turn moves each cell with its tile, onto the turned grid, and
/// every cell of the turned grid comes from one cell.
pub(crate) proof fn lemma_rotate_cell(p: LevelView, q: Vector2)
    requires
        grid_ok(p),
        in_bounds_spec(p.size, q),
    ensures
        in_bounds_spec(rotate_view(p).size, rotate_point(p.size, q)),
        vtile(rotate_view(p), rotate_point(p.size, q)) == vtile(p, q),
        unrotate_point(p.size, rotate_point(p.size, q)) == q,
{
    let w = p.size.x as int;
    let h = p.size.y as int;
    let r = rotate_point(p.size, q);
    let rs = rotate_view(p).size;
    let i = index_of(rs, r);
    assert(i == (w - 1 - q.x) * h + q.y);
    assert(0 <= i < w * h) by (nonlinear_arith)
        requires
            i == (w - 1 - q.x) * h + q.y,
            0 <= q.x < w,
            0 <= q.y < h,
    ;
    vstd::arithmetic::div_mod::lemma_fundamental_div_mod_converse(i, h, w - 1 - q.x, q.y as int);
    lemma_index_bounds(p.size, q);
    assert(rotate_tiles(p.tiles, w, h)[i] == p.tiles[(i % h) * w + (w - 1 - i / h)]);
}

/// Every cell of the turned grid is the turn of a cell of the grid.
pub(crate) proof fn lemma_unrotate_cell(p: LevelView, r: Vector2)
    requires
        grid_ok(p),
        in_bounds_spec(rotate_view(p).size, r),
    ensures
        in_bounds_spec(p.size, unrotate_point(p.size, r)),
        rotate_point(p.size, unrotate_point(p.size, r)) == r,
{
}

/// A quarter turn keeps cells side by side.
pub(crate) proof fn lemma_rotate_adjacent(p: LevelView, x: Vector2, y: Vector2)
    requires
        grid_ok(p),
        in_bounds_spec(p.size, x),
        in_bounds_spec(p.size, y),
        adjacent(x, y),
    ensures
        adjacent(rotate_point(p.size, x), rotate_point(p.size, y)),
{
}

/// A turn of a level whose player flag is where the player is keeps it so.
pub(crate) proof fn lemma_rotate_player_unique(p: LevelView)
    requires
        grid_ok(p),
        player_unique(p),
    ensures
        grid_ok(rotate_view(p)),
        player_unique(rotate_view(p)),
{
    let r = rotate_view(p);
    assert(r.tiles.len() == r.size.x * r.size.y) by (nonlinear_arith)
        requires
            r.tiles.len() == p.size.x * p.size.y,
            r.size.x == p.size.y,
            r.size.y == p.size.x,
    ;
    lemma_rotate_cell(p, p.player);
    assert forall|q: Vector2| #[trigger] in_bounds_spec(r.size, q) implies has_flag(vtile(r, q), PLAYER)
        == (q == r.player) by {
        lemma_unrotate_cell(p, q);
        let o = unrotate_point(p.size, q);
        lemma_rotate_cell(p, o);
        if q == r.player {
            assert(o == p.player);
        }
    }
}

/// Moving the player then turning the level is turning it then moving the
/// player to the turned cell.
pub(crate) proof fn lemma_rotate_move_player(p: LevelView, b: Vector2)
    requires
        grid_ok(p),
        in_bounds_spec(p.size, b),
    ensures
        rotate_view(move_player_view(p, b)) == move_player_view(rotate_view(p), rotate_point(p.size, b)),
{
    let mp = move_player_view(p, b);
    let r = rotate_view(p);
    let rb = rotate_point(p.size, b);
    let lhs = rotate_view(mp);
    let rhs = move_player_view(r, rb);
    lemma_index_bounds(p.size, p.player);
    lemma_index_bounds(p.size, b);
    assert(mp.tiles.len() == p.tiles.len());
    lemma_rotate_cell(p, b);
    lemma_rotate_cell(p, p.player);
    lemma_rotate_player_unique_grid(p);
    lemma_rotate_player_unique_grid(mp);
    lemma_index_bounds(r.size, r.player);
    lemma_index_bounds(r.size, rb);
    assert(lhs.tiles.len() == rhs.tiles.len());
    assert forall|i: int| 0 <= i < lhs.tiles.len() implies lhs.tiles[i] == rhs.tiles[i] by {
        let q = cell_of(r.size, i);
        assert(r.size.x * r.size.y == lhs.tiles.len());
        lemma_cell_index(r.size, i);
        lemma_unrotate_cell(p, q);
        let o = unrotate_point(p.size, q);
        lemma_rotate_cell(mp, o);
        lemma_rotate_cell(p, o);
        lemma_move_player_tile(p, b, o);
        lemma_move_player_tile(r, rb, q);
        assert(vtile(lhs, q) == lhs.tiles[i]);
        assert(vtile(rhs, q) == rhs.tiles[i]);
        if q == rb {
            assert(o == b);
        }
        if q == r.player {
            assert(o == p.player);
        }
    }
    assert(lhs.tiles =~= rhs.tiles);
}

/// A turned grid has one tile per cell.
pub(crate) proof fn lemma_rotate_player_unique_grid(p: LevelView)
    requires
        grid_ok(p),
    ensures
        grid_ok(rotate_view(p)),
{
    let r = rotate_view(p);
    assert(r.tiles.len() == r.size.x * r.size.y) by (nonlinear_arith)
        requires
            r.tiles.len() == p.size.x * p.size.y,
            r.size.x == p.size.y,
            r.size.y == p.size.x,
    ;
    lemma_rotate_cell(p, p.player);
}

/// Reachability chains.
pub(crate) proof fn lemma_reach_trans(open: spec_fn(Vector2) -> bool, a: Vector2, b: Vector2, c: Vector2)
    requires
        reachable(open, a, b),
        reachable(open, b, c),
    ensures
        reachable(open, a, c),
{
    let f = Set::new(|x: Vector2| reachable(open, a, x));
    assert forall|q: Vector2, r: Vector2| #[trigger]
        f.contains(q) && adjacent(q, r) && open(r) implies #[trigger] f.contains(r) by {
        lemma_reachable_step(open, a, q, r);
    }
    lemma_closed_contains_reachable(open, b, f, c);
}

/// Reachability goes both ways when the start is open too.
pub(crate) proof fn lemma_reach_sym(open: spec_fn(Vector2) -> bool, a: Vector2, b: Vector2)
    requires
        reachable(open, a, b),
        open(a),
    ensures
        reachable(open, b, a),
{
    let f = Set::new(|x: Vector2| open(x) && reachable(open, x, a));
    lemma_reachable_start(open, a);
    assert forall|q: Vector2, r: Vector2| #[trigger]
        f.contains(q) && adjacent(q, r) && open(r) implies #[trigger] f.contains(r) by {
        lemma_reachable_start(open, r);
        assert(adjacent(r, q));
        lemma_reachable_step(open, r, r, q);
        lemma_reach_trans(open, r, q, a);
    }
    if b != a {
        crate::reach::lemma_reachable_open(open, a, b);
    }
    lemma_closed_contains_reachable(open, a, f, b);
}

/// A quarter turn carries reachability over.
pub(crate) proof fn lemma_rotate_reachable(p: LevelView, mask: u8, a: Vector2, c: Vector2)
    requires
        grid_ok(p),
        in_bounds_spec(p.size, a),
        reachable(open_fn(p, mask, Set::empty()), a, c),
    ensures
        reachable(
            open_fn(rotate_view(p), mask, Set::empty()),
            rotate_point(p.size, a),
            rotate_point(p.size, c),
        ),
{
    let o = open_fn(p, mask, Set::empty());
    let ro = open_fn(rotate_view(p), mask, Set::empty());
    let ra = rotate_point(p.size, a);
    let f = Set::new(|x: Vector2| in_bounds_spec(p.size, x) && reachable(ro, ra, rotate_point(p.size, x)));
    lemma_reachable_start(ro, ra);
    assert forall|q: Vector2, r: Vector2| #[trigger]
        f.contains(q) && adjacent(q, r) && o(r) implies #[trigger] f.contains(r) by {
        lemma_rotate_cell(p, r);
        lemma_rotate_adjacent(p, q, r);
        lemma_reachable_step(ro, ra, rotate_point(p.size, q), rotate_point(p.size, r));
    }
    lemma_closed_contains_reachable(o, a, f, c);
}

/// Among cells of a property whose `x` is bounded below, one has the least `x`.
pub(crate) proof fn lemma_least_x(s: spec_fn(Vector2) -> bool, lo: int, k: nat, w: Vector2)
    requires
        s(w),
        w.x <= lo + k,
        forall|a: Vector2| #[trigger] s(a) ==> a.x >= lo,
    ensures
        exists|m: Vector2| #[trigger] s(m) && forall|q: Vector2| #[trigger] s(q) ==> m.x <= q.x,
    decreases k,
{
    if exists|a: Vector2| #[trigger] s(a) && a.x < w.x {
        let a = choose|a: Vector2| #[trigger] s(a) && a.x < w.x;
        lemma_least_x(s, lo, (a.x - lo) as nat, a);
    } else {
        assert forall|q: Vector2| #[trigger] s(q) implies w.x <= q.x by {
            if q.x < w.x {
                assert(s(q) && q.x < w.x);
            }
        }
    }
}

/// Among cells of a property whose `y` is bounded below, one has the least `y`.
pub(crate) proof fn lemma_least_y(s: spec_fn(Vector2) -> bool, lo: int, k: nat, w: Vector2)
    requires
        s(w),
        w.y <= lo + k,
        forall|a: Vector2| #[trigger] s(a) ==> a.y >= lo,
    ensures
        exists|m: Vector2| #[trigger] s(m) && forall|q: Vector2| #[trigger] s(q) ==> m.y <= q.y,
    decreases k,
{
    if exists|a: Vector2| #[trigger] s(a) && a.y < w.y {
        let a = choose|a: Vector2| #[trigger] s(a) && a.y < w.y;
        lemma_least_y(s, lo, (a.y - lo) as nat, a);
    } else {
        assert forall|q: Vector2| #[trigger] s(q) implies w.y <= q.y by {
            if q.y < w.y {
                assert(s(q) && q.y < w.y);
            }
        }
    }
}

/// The area of the player has a first cell, column by column.
pub(crate) proof fn lemma_corner_exists(u: LevelView)
    requires
        grid_ok(u),
    ensures
        ({
            let open = open_fn(u, WALL | CRATE, Set::empty());
            let a = area_corner(u);
            reachable(open, u.player, a) && forall|q: Vector2|
                reachable(open, u.player, q) ==> #[trigger] left_top_first(a, q)
        }),
{
    let open = open_fn(u, WALL | CRATE, Set::empty());
    let s = |a: Vector2| reachable(open, u.player, a);
    lemma_reachable_start(open, u.player);
    assert forall|a: Vector2| #[trigger] s(a) implies a.x >= 0 && a.y >= 0 by {
        if a != u.player {
            crate::reach::lemma_reachable_open(open, u.player, a);
        }
    }
    lemma_least_x(s, 0, u.player.x as nat, u.player);
    let m = choose|m: Vector2| #[trigger] s(m) && forall|q: Vector2| #[trigger] s(q) ==> m.x <= q.x;
    let s2 = |a: Vector2| s(a) && a.x == m.x;
    lemma_least_y(s2, 0, m.y as nat, m);
    let c = choose|c: Vector2| #[trigger] s2(c) && forall|q: Vector2| #[trigger] s2(q) ==> c.y <= q.y;
    assert forall|q: Vector2| reachable(open, u.player, q) implies #[trigger] left_top_first(c, q) by {
        assert(s(q));
        if q.x == c.x {
            assert(s2(q));
        }
    }
    assert(reachable(open, u.player, c) && forall|q: Vector2|
        reachable(open, u.player, q) ==> #[trigger] left_top_first(c, q));
}

/// The player flag does not change which cells stop the player.
pub(crate) proof fn lemma_player_bit_not_blocking(t: u8)
    ensures
        (t & !PLAYER) & (WALL | CRATE) == t & (WALL | CRATE),
        (t | PLAYER) & (WALL | CRATE) == t & (WALL | CRATE),
        (t & !PLAYER) & PLAYER == 0,
{
    assert((t & !32u8) & (4u8 | 8u8) == t & (4u8 | 8u8)) by (bit_vector);
    assert((t | 32u8) & (4u8 | 8u8) == t & (4u8 | 8u8)) by (bit_vector);
    assert((t & !32u8) & 32u8 == 0) by (bit_vector);
}

/// Moving the player within its area and then putting it in the first cell
/// of the area is the same as putting it there at once.
pub(crate) proof fn lemma_anchor_move(q: LevelView, c: Vector2)
    requires
        grid_ok(q),
        player_unique(q),
        in_bounds_spec(q.size, c),
        reachable(open_fn(q, WALL | CRATE, Set::empty()), q.player, c),
        open_fn(q, WALL | CRATE, Set::empty())(q.player),
    ensures
        anchored_view(move_player_view(q, c)) == anchored_view(q),
{
    let mq = move_player_view(q, c);
    let o = open_fn(q, WALL | CRATE, Set::empty());
    let mo = open_fn(mq, WALL | CRATE, Set::empty());
    lemma_index_bounds(q.size, q.player);
    lemma_index_bounds(q.size, c);
    assert(mq.tiles.len() == q.tiles.len());
    assert forall|x: Vector2| #[trigger] mo(x) == o(x) by {
        if in_bounds_spec(q.size, x) {
            lemma_move_player_tile(q, c, x);
            lemma_player_bit_not_blocking(vtile(q, x).0);
            lemma_player_bit_not_blocking(vtile(q, x).0 & !PLAYER);
        }
    }
    assert(mo =~= o);
    assert forall|x: Vector2| reachable(o, c, x) == reachable(o, q.player, x) by {
        if reachable(o, c, x) {
            lemma_reach_trans(o, q.player, c, x);
        }
        if reachable(o, q.player, x) {
            lemma_reach_sym(o, q.player, c);
            lemma_reach_trans(o, c, q.player, x);
        }
    }
    lemma_corner_exists(mq);
    lemma_corner_exists(q);
    let k1 = area_corner(mq);
    let k2 = area_corner(q);
    assert(reachable(o, q.player, k1));
    assert(reachable(o, c, k2));
    assert(left_top_first(k1, k2));
    assert(left_top_first(k2, k1));
    assert(k1 == k2);
    let k = k1;
    if k != q.player {
        crate::reach::lemma_reachable_open(o, q.player, k);
    }
    let l = move_player_view(mq, k);
    let r = move_player_view(q, k);
    lemma_index_bounds(q.size, k);
    assert(l.tiles.len() == r.tiles.len());
    assert forall|i: int| 0 <= i < l.tiles.len() implies l.tiles[i] == r.tiles[i] by {
        let x = cell_of(q.size, i);
        lemma_cell_index(q.size, i);
        lemma_move_player_tile(mq, k, x);
        lemma_move_player_tile(q, k, x);
        lemma_move_player_tile(q, c, x);
        let t = vtile(q, x).0;
        lemma_player_bit_not_blocking(t);
        if x != q.player {
            lemma_insert_then_remove(t, PLAYER);
        } else {
            lemma_insert_then_remove(t & !PLAYER, PLAYER);
        }
        assert(vtile(l, x) == l.tiles[i]);
        assert(vtile(r, x) == r.tiles[i]);
    }
    assert(l.tiles =~= r.tiles);
}

/// Preparing keeps the player flag and, on a floor cell, keeps walls away.
pub(crate) proof fn lemma_prepared_bits_keep(t: u8, add_wall: bool)
    ensures
        prepared_bits(t, add_wall) & PLAYER == t & PLAYER,
        !add_wall && t & CRATE == 0 ==> prepared_bits(t, add_wall) & (WALL | CRATE) == 0,
{
    assert((t & !4u8 & !1u8) & 32u8 == t & 32u8) by (bit_vector);
    assert(((t & !4u8 & !1u8) | 4u8) & 32u8 == t & 32u8) by (bit_vector);
    assert(t & 8u8 == 0 ==> (t & !4u8 & !1u8) & (4u8 | 8u8) == 0) by (bit_vector);
}

/// A level with its player flag where the player is keeps it so when prepared.
pub(crate) proof fn lemma_prepared_player_unique(v: LevelView)
    requires
        grid_ok(v),
        player_unique(v),
    ensures
        grid_ok(prepared_view(v)),
        player_unique(prepared_view(v)),
{
    let p = prepared_view(v);
    assert forall|q: Vector2| #[trigger] in_bounds_spec(p.size, q) implies has_flag(vtile(p, q), PLAYER)
        == (q == p.player) by {
        lemma_index_bounds(v.size, q);
        let i = index_of(v.size, q);
        lemma_cell_index(v.size, i);
        lemma_index_injective(v.size, cell_of(v.size, i), q);
        let add = !has_flag(vtile(v, q), FLOOR) && floor_nearby(v, q);
        lemma_prepared_bits_keep(vtile(v, q).0, add);
        assert(prepared_tile(v, q).0 == prepared_bits(vtile(v, q).0, add));
    }
}

/// The variants of a level are those of its first variant, from the second on.
pub(crate) proof fn lemma_variant_step(p: LevelView, n: nat)
    requires
        n >= 1,
    ensures
        variant(p, n + 1) == anchored_view(
            if n + 1 == 5 {
                crate::normalize::flip_view(rotate_view(variant(p, n)))
            } else {
                rotate_view(variant(p, n))
            },
        ),
{
}

/// Moving the player to a cell it can walk to gives the same variants.
pub(crate) proof fn lemma_variants_ignore_player_cell(v: LevelView, b: Vector2, n: nat)
    requires
        grid_ok(v),
        player_unique(v),
        has_flag(vtile(v, v.player), FLOOR),
        !has_flag(vtile(v, v.player), CRATE),
        in_bounds_spec(v.size, b),
        reachable(open_fn(prepared_view(v), WALL | CRATE, Set::empty()), v.player, b),
        1 <= n,
    ensures
        variant(prepared_view(move_player_view(v, b)), n) == variant(prepared_view(v), n),
    decreases n,
{
    let p = prepared_view(v);
    let mv = move_player_view(v, b);
    if n == 1 {
        lemma_prepared_move_player(v, b);
        lemma_prepared_player_unique(v);
        lemma_rotate_move_player(p, b);
        lemma_rotate_player_unique(p);
        let q = rotate_view(p);
        let c = rotate_point(p.size, b);
        lemma_rotate_cell(p, b);
        lemma_rotate_cell(p, p.player);
        lemma_rotate_reachable(p, WALL | CRATE, p.player, b);
        lemma_index_bounds(v.size, v.player);
        let i = index_of(v.size, v.player);
        lemma_cell_index(v.size, i);
        lemma_index_injective(v.size, cell_of(v.size, i), v.player);
        lemma_prepared_bits_keep(vtile(v, v.player).0, false);
        assert(prepared_tile(v, v.player).0 == prepared_bits(vtile(v, v.player).0, false));
        assert(vtile(q, q.player) == vtile(p, p.player));
        assert(open_fn(q, WALL | CRATE, Set::empty())(q.player));
        lemma_anchor_move(q, c);
        assert(variant(prepared_view(mv), 0) == prepared_view(mv));
        assert(variant(p, 0) == p);
        assert(variant(prepared_view(mv), 1) == anchored_view(rotate_view(prepared_view(mv))));
        assert(variant(p, 1) == anchored_view(rotate_view(p)));
    } else {
        lemma_variants_ignore_player_cell(v, b, (n - 1) as nat);
        lemma_variant_step(prepared_view(mv), (n - 1) as nat);
        lemma_variant_step(p, (n - 1) as nat);
    }
}

/// A prepared level has one normal form for a given list of variants.
pub(crate) proof fn lemma_normal_form_unique(p1: LevelView, p2: LevelView, w1: LevelView, w2: LevelView)
    requires
        normal_form(p1, w1),
        normal_form(p2, w2),
        forall|n: nat| 1 <= n <= 8 ==> #[trigger] variant(p1, n) == variant(p2, n),
    ensures
        w1 == w2,
{
    let k1 = choose|k: nat|
        1 <= k <= 8 && w1 == variant(p1, k) && (forall|n: nat|
            1 <= n <= 8 ==> tiles_sip_hash(w1.tiles) <= tiles_sip_hash(#[trigger] variant(p1, n).tiles))
            && (forall|n: nat|
            1 <= n <= 8 && tie_rank(n) < tie_rank(k) ==> tiles_sip_hash(w1.tiles) < tiles_sip_hash(#[trigger] variant(p1, n).tiles));
    let k2 = choose|k: nat|
        1 <= k <= 8 && w2 == variant(p2, k) && (forall|n: nat|
            1 <= n <= 8 ==> tiles_sip_hash(w2.tiles) <= tiles_sip_hash(#[trigger] variant(p2, n).tiles))
            && (forall|n: nat|
            1 <= n <= 8 && tie_rank(n) < tie_rank(k) ==> tiles_sip_hash(w2.tiles) < tiles_sip_hash(#[trigger] variant(p2, n).tiles));
    assert(variant(p1, k1) == variant(p2, k1));
    assert(variant(p1, k2) == variant(p2, k2));
    if tie_rank(k1) < tie_rank(k2) {
        assert(tiles_sip_hash(w2.tiles) < tiles_sip_hash(variant(p2, k1).tiles));
        assert(tiles_sip_hash(w1.tiles) <= tiles_sip_hash(variant(p1, k2).tiles));
    } else if tie_rank(k2) < tie_rank(k1) {
        assert(tiles_sip_hash(w1.tiles) < tiles_sip_hash(variant(p1, k2).tiles));
        assert(tiles_sip_hash(w2.tiles) <= tiles_sip_hash(variant(p2, k1).tiles));
    }
}

/// Normalizing a level does not depend on where in its area the player
/// starts: a level and the same level with the player moved to a cell it can
/// walk to (through cells holding no wall or crate once prepared) have the
/// same normal form.
pub proof fn law_normalize_ignores_player_cell(v: LevelView, b: Vector2, w1: LevelView, w2: LevelView)
    requires
        grid_ok(v),
        player_unique(v),
        has_flag(vtile(v, v.player), FLOOR),
        !has_flag(vtile(v, v.player), CRATE),
        in_bounds_spec(v.size, b),
        reachable(open_fn(prepared_view(v), WALL | CRATE, Set::empty()), v.player, b),
        normal_form(prepared_view(v), w1),
        normal_form(prepared_view(move_player_view(v, b)), w2),
    ensures
        w1 == w2,
{
    assert forall|n: nat| 1 <= n <= 8 implies #[trigger] variant(prepared_view(v), n) == variant(
        prepared_view(move_player_view(v, b)),
        n,
    ) by {
        lemma_variants_ignore_player_cell(v, b, n);
    }
    lemma_normal_form_unique(prepared_view(v), prepared_view(move_player_view(v, b)), w1, w2);
}

/// Normalizing a level does not depend on its decorations: two levels that
/// differ only in which of their cells hold walls or void have the same
/// normal form.
pub proof fn law_normalize_ignores_decoration(v1: LevelView, v2: LevelView, w1: LevelView, w2: LevelView)
    requires
        grid_ok(v1),
        v2.size == v1.size,
        v2.tiles.len() == v1.tiles.len(),
        v2.player == v1.player,
        v2.crates == v1.crates,
        v2.targets == v1.targets,
        v2.metadata == v1.metadata,
        forall|q: Vector2| #[trigger]
            in_bounds_spec(v1.size, q) ==> vtile(v1, q).0 & !WALL & !VOID == vtile(v2, q).0 & !WALL & !VOID,
        normal_form(prepared_view(v1), w1),
        normal_form(prepared_view(v2), w2),
    ensures
        w1 == w2,
{
    let p1 = prepared_view(v1);
    let p2 = prepared_view(v2);
    assert forall|q: Vector2| #[trigger] in_bounds_spec(v1.size, q) implies has_flag(vtile(v1, q), FLOOR)
        == has_flag(vtile(v2, q), FLOOR) by {
        let a = vtile(v1, q).0;
        let b = vtile(v2, q).0;
        assert(a & !4u8 & !1u8 == b & !4u8 & !1u8 ==> (a & 2u8 == 0) == (b & 2u8 == 0)) by (bit_vector);
    }
    assert forall|q: Vector2| in_bounds_spec(v1.size, q) implies floor_nearby(v1, q) == floor_nearby(v2, q) by {
        if floor_nearby(v1, q) {
            let (dx, dy) = choose|dx: int, dy: int|
                -1 <= dx <= 1 && -1 <= dy <= 1 && !(dx == 0 && dy == 0) && #[trigger] in_bounds_spec(
                    v1.size,
                    Vector2 { x: (q.x + dx) as i32, y: (q.y + dy) as i32 },
                ) && has_flag(vtile(v1, Vector2 { x: (q.x + dx) as i32, y: (q.y + dy) as i32 }), FLOOR);
            assert(in_bounds_spec(v2.size, Vector2 { x: (q.x + dx) as i32, y: (q.y + dy) as i32 }));
        }
        if floor_nearby(v2, q) {
            let (dx, dy) = choose|dx: int, dy: int|
                -1 <= dx <= 1 && -1 <= dy <= 1 && !(dx == 0 && dy == 0) && #[trigger] in_bounds_spec(
                    v2.size,
                    Vector2 { x: (q.x + dx) as i32, y: (q.y + dy) as i32 },
                ) && has_flag(vtile(v2, Vector2 { x: (q.x + dx) as i32, y: (q.y + dy) as i32 }), FLOOR);
            assert(in_bounds_spec(v1.size, Vector2 { x: (q.x + dx) as i32, y: (q.y + dy) as i32 }));
        }
    }
    assert forall|i: int| 0 <= i < p1.tiles.len() implies p1.tiles[i] == p2.tiles[i] by {
        lemma_cell_index(v1.size, i);
        let q = cell_of(v1.size, i);
        assert(in_bounds_spec(v1.size, q));
    }
    assert(p1.tiles =~= p2.tiles);
    assert(p1 == p2);
    lemma_normal_form_unique(p1, p2, w1, w2);
}

/// A mirror moves each cell with its tile, onto the same grid, and undoes itself.
pub(crate) proof fn lemma_flip_cell(p: LevelView, q: Vector2)
    requires
        grid_ok(p),
        in_bounds_spec(p.size, q),
    ensures
        in_bounds_spec(flip_view(p).size, flip_point(p.size, q)),
        vtile(flip_view(p), flip_point(p.size, q)) == vtile(p, q),
        flip_point(p.size, flip_point(p.size, q)) == q,
{
    let w = p.size.x as int;
    let h = p.size.y as int;
    let r = flip_point(p.size, q);
    let i = index_of(p.size, r);
    assert(i == q.y * w + (w - 1 - q.x));
    assert(0 <= i < w * h) by (nonlinear_arith)
        requires
            i == q.y * w + (w - 1 - q.x),
            0 <= q.x < w,
            0 <= q.y < h,
    ;
    vstd::arithmetic::div_mod::lemma_fundamental_div_mod_converse(i, w, q.y as int, w - 1 - q.x);
    lemma_index_bounds(p.size, q);
    assert(flip_tiles(p.tiles, w, h)[i] == p.tiles[(i / w) * w + (w - 1 - i % w)]);
}

/// A mirror keeps cells side by side.
pub(crate) proof fn lemma_flip_adjacent(p: LevelView, x: Vector2, y: Vector2)
    requires
        grid_ok(p),
        in_bounds_spec(p.size, x),
        in_bounds_spec(p.size, y),
        adjacent(x, y),
    ensures
        adjacent(flip_point(p.size, x), flip_point(p.size, y)),
{
}

/// A mirrored level whose player flag is where the player is keeps it so.
pub(crate) proof fn lemma_flip_player_unique(p: LevelView)
    requires
        grid_ok(p),
        player_unique(p),
    ensures
        grid_ok(flip_view(p)),
        player_unique(flip_view(p)),
{
    let r = flip_view(p);
    lemma_flip_cell(p, p.player);
    assert forall|q: Vector2| #[trigger] in_bounds_spec(r.size, q) implies has_flag(vtile(r, q), PLAYER)
        == (q == r.player) by {
        let o = flip_point(p.size, q);
        lemma_flip_cell(p, o);
        if q == r.player {
            assert(o == p.player);
        }
    }
}

/// A mirrored grid has one tile per cell.
pub(crate) proof fn lemma_flip_grid(p: LevelView)
    requires
        grid_ok(p),
    ensures
        grid_ok(flip_view(p)),
{
    lemma_flip_cell(p, p.player);
}

/// Moving the player then mirroring is mirroring then moving the player to
/// the mirrored cell.
pub(crate) proof fn lemma_flip_move_player(p: LevelView, b: Vector2)
    requires
        grid_ok(p),
        in_bounds_spec(p.size, b),
    ensures
        flip_view(move_player_view(p, b)) == move_player_view(flip_view(p), flip_point(p.size, b)),
{
    let mp = move_player_view(p, b);
    let r = flip_view(p);
    let rb = flip_point(p.size, b);
    let lhs = flip_view(mp);
    let rhs = move_player_view(r, rb);
    lemma_index_bounds(p.size, p.player);
    lemma_index_bounds(p.size, b);
    assert(mp.tiles.len() == p.tiles.len());
    lemma_flip_cell(p, b);
    lemma_flip_cell(p, p.player);
    lemma_flip_grid(p);
    lemma_flip_grid(mp);
    lemma_index_bounds(r.size, r.player);
    lemma_index_bounds(r.size, rb);
    assert(lhs.tiles.len() == rhs.tiles.len());
    assert forall|i: int| 0 <= i < lhs.tiles.len() implies lhs.tiles[i] == rhs.tiles[i] by {
        let q = cell_of(r.size, i);
        lemma_cell_index(r.size, i);
        let o = flip_point(p.size, q);
        lemma_flip_cell(p, q);
        lemma_flip_cell(mp, o);
        lemma_flip_cell(p, o);
        lemma_move_player_tile(p, b, o);
        lemma_move_player_tile(r, rb, q);
        assert(vtile(lhs, q) == lhs.tiles[i]);
        assert(vtile(rhs, q) == rhs.tiles[i]);
        if q == rb {
            assert(o == b);
        }
        if q == r.player {
            assert(o == p.player);
        }
    }
    assert(lhs.tiles =~= rhs.tiles);
}

/// A mirror carries reachability over.
pub(crate) proof fn lemma_flip_reachable(p: LevelView, mask: u8, a: Vector2, c: Vector2)
    requires
        grid_ok(p),
        in_bounds_spec(p.size, a),
        reachable(open_fn(p, mask, Set::empty()), a, c),
    ensures
        reachable(open_fn(flip_view(p), mask, Set::empty()), flip_point(p.size, a), flip_point(p.size, c)),
{
    let o = open_fn(p, mask, Set::empty());
    let ro = open_fn(flip_view(p), mask, Set::empty());
    let ra = flip_point(p.size, a);
    let f = Set::new(|x: Vector2| in_bounds_spec(p.size, x) && reachable(ro, ra, flip_point(p.size, x)));
    lemma_reachable_start(ro, ra);
    assert forall|q: Vector2, r: Vector2| #[trigger]
        f.contains(q) && adjacent(q, r) && o(r) implies #[trigger] f.contains(r) by {
        lemma_flip_cell(p, r);
        lemma_flip_adjacent(p, q, r);
        lemma_reachable_step(ro, ra, flip_point(p.size, q), flip_point(p.size, r));
    }
    lemma_closed_contains_reachable(o, a, f, c);
}

} // verus!
