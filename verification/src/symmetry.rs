use vstd::prelude::*;
use crate::vector::Vector2;
use crate::tile::{WALL, FLOOR, CRATE, PLAYER, has_flag};
use crate::level::{
    LevelView, vtile, in_bounds_spec, index_of, lemma_index_bounds, lemma_index_injective, move_player_view,
    open_fn,
};
use crate::reach::{reachable, lemma_reachable_open};
use crate::normalize::{
    normal_form, tie_rank, prepared_view, prepared_tile, floor_nearby, cell_of, rotate_view, rotate_point,
    flip_view, flip_point, anchored_view, area_corner, variant,
};
use crate::similar::{
    grid_ok, player_unique, lemma_move_player_tile, lemma_rotate_cell, lemma_rotate_player_unique,
    lemma_rotate_move_player, lemma_rotate_reachable, lemma_corner_exists, lemma_player_bit_not_blocking,
    lemma_anchor_move, lemma_flip_cell, lemma_flip_player_unique, lemma_flip_move_player,
    lemma_flip_reachable, lemma_rotate_player_unique_grid, lemma_flip_grid, lemma_cell_index,
    lemma_unrotate_cell, unrotate_point, lemma_prepared_player_unique, lemma_prepared_bits_keep,
    prepared_bits,
};
use crate::hashing::tiles_sip_hash;

verus! {

/// Whether two levels have the same grid, the same tiles and the player on the same cell.
pub open spec fn same_grid(a: LevelView, b: LevelView) -> bool {
    a.size == b.size && a.tiles == b.tiles && a.player == b.player
}

/// A level turned `k` quarters.
pub open spec fn turned(u: LevelView, k: nat) -> LevelView
    decreases k,
{
    if k == 0 {
        u
    } else {
        rotate_view(turned(u, (k - 1) as nat))
    }
}

/// Whether a level has one tile per cell, the player flag only where the
/// player is, and the player on a cell holding no wall and no crate.
pub open spec fn fit(u: LevelView) -> bool {
    &&& grid_ok(u)
    &&& player_unique(u)
    &&& open_fn(u, WALL | CRATE, Set::empty())(u.player)
}

/// A quarter turn keeps a level fit.
proof fn lemma_fit_rotate(u: LevelView)
    requires
        fit(u),
    ensures
        fit(rotate_view(u)),
{
    lemma_rotate_player_unique(u);
    lemma_rotate_cell(u, u.player);
}

/// A mirror keeps a level fit.
proof fn lemma_fit_flip(u: LevelView)
    requires
        fit(u),
    ensures
        fit(flip_view(u)),
{
    lemma_flip_player_unique(u);
    lemma_flip_cell(u, u.player);
}

/// Putting the player in the first cell of its area keeps a level fit.
proof fn lemma_fit_anchor(u: LevelView)
    requires
        fit(u),
    ensures
        fit(anchored_view(u)),
        reachable(open_fn(u, WALL | CRATE, Set::empty()), u.player, area_corner(u)),
        in_bounds_spec(u.size, area_corner(u)),
{
    lemma_corner_exists(u);
    let c = area_corner(u);
    let o = open_fn(u, WALL | CRATE, Set::empty());
    if c != u.player {
        lemma_reachable_open(o, u.player, c);
    }
    let m = move_player_view(u, c);
    lemma_index_bounds(u.size, u.player);
    lemma_index_bounds(u.size, c);
    assert(m.tiles.len() == u.tiles.len());
    assert forall|q: Vector2| #[trigger] in_bounds_spec(m.size, q) implies has_flag(vtile(m, q), PLAYER)
        == (q == m.player) by {
        lemma_move_player_tile(u, c, q);
        let t = vtile(u, q).0;
        assert((t & !32u8) & 32u8 == 0) by (bit_vector);
        assert((t | 32u8) & 32u8 != 0) by (bit_vector);
        assert(((t & !32u8) | 32u8) & 32u8 != 0) by (bit_vector);
    }
    lemma_move_player_tile(u, c, c);
    lemma_player_bit_not_blocking(vtile(u, c).0);
    lemma_player_bit_not_blocking(vtile(u, c).0 & !PLAYER);
}

/// Turning `k` quarters keeps a level fit.
proof fn lemma_fit_turned(u: LevelView, k: nat)
    requires
        fit(u),
    ensures
        fit(turned(u, k)),
    decreases k,
{
    if k > 0 {
        lemma_fit_turned(u, (k - 1) as nat);
        lemma_fit_rotate(turned(u, (k - 1) as nat));
    }
}

/// Putting the player in the first cell of its area before a quarter turn
/// changes nothing once the turned level is anchored too.
proof fn lemma_anchor_rotate(u: LevelView)
    requires
        fit(u),
    ensures
        anchored_view(rotate_view(anchored_view(u))) == anchored_view(rotate_view(u)),
{
    lemma_fit_anchor(u);
    let c = area_corner(u);
    lemma_rotate_move_player(u, c);
    lemma_rotate_reachable(u, WALL | CRATE, u.player, c);
    lemma_fit_rotate(u);
    lemma_rotate_cell(u, c);
    lemma_anchor_move(rotate_view(u), rotate_point(u.size, c));
}

/// Putting the player in the first cell of its area before a quarter turn
/// and a mirror changes nothing once the result is anchored too.
proof fn lemma_anchor_rotate_flip(u: LevelView)
    requires
        fit(u),
    ensures
        anchored_view(flip_view(rotate_view(anchored_view(u)))) == anchored_view(flip_view(rotate_view(u))),
{
    lemma_fit_anchor(u);
    let c = area_corner(u);
    let r = rotate_view(u);
    let rc = rotate_point(u.size, c);
    lemma_rotate_move_player(u, c);
    lemma_rotate_reachable(u, WALL | CRATE, u.player, c);
    lemma_fit_rotate(u);
    lemma_rotate_cell(u, c);
    lemma_rotate_cell(u, u.player);
    lemma_flip_move_player(r, rc);
    lemma_flip_reachable(r, WALL | CRATE, r.player, rc);
    lemma_fit_flip(r);
    lemma_flip_cell(r, rc);
    lemma_anchor_move(flip_view(r), flip_point(r.size, rc));
}

/// The variants of a fit level: the first four are the level turned one to
/// four quarters, the last four the level turned five quarters and mirrored,
/// then turned zero to three quarters more, each with the player put in the
/// first cell of its area.
proof fn lemma_variant_form(p: LevelView, n: nat)
    requires
        fit(p),
        1 <= n <= 8,
    ensures
        n <= 4 ==> variant(p, n) == anchored_view(turned(p, n)),
        n >= 5 ==> variant(p, n) == anchored_view(turned(flip_view(turned(p, 5)), (n - 5) as nat)),
    decreases n,
{
    lemma_fit_turned(p, (n - 1) as nat);
    if n == 1 {
        assert(variant(p, 0) == p);
        assert(turned(p, 0) == p);
    } else if n <= 4 {
        lemma_variant_form(p, (n - 1) as nat);
        lemma_anchor_rotate(turned(p, (n - 1) as nat));
    } else if n == 5 {
        lemma_variant_form(p, 4);
        lemma_anchor_rotate_flip(turned(p, 4));
    } else {
        lemma_variant_form(p, (n - 1) as nat);
        let x = flip_view(turned(p, 5));
        lemma_fit_turned(p, 5);
        lemma_fit_flip(turned(p, 5));
        lemma_fit_turned(x, (n - 6) as nat);
        lemma_anchor_rotate(turned(x, (n - 6) as nat));
    }
}

/// Levels with the same grid stay so when turned.
proof fn lemma_same_grid_rotate(a: LevelView, b: LevelView)
    requires
        same_grid(a, b),
    ensures
        same_grid(rotate_view(a), rotate_view(b)),
{
}

/// Levels with the same grid stay so when mirrored.
proof fn lemma_same_grid_flip(a: LevelView, b: LevelView)
    requires
        same_grid(a, b),
    ensures
        same_grid(flip_view(a), flip_view(b)),
{
}

/// Levels with the same grid stay so when turned `k` quarters.
proof fn lemma_same_grid_turned(a: LevelView, b: LevelView, k: nat)
    requires
        same_grid(a, b),
    ensures
        same_grid(turned(a, k), turned(b, k)),
    decreases k,
{
    if k > 0 {
        lemma_same_grid_turned(a, b, (k - 1) as nat);
    }
}

/// Levels with the same grid stay so when their players are anchored.
proof fn lemma_same_grid_anchor(a: LevelView, b: LevelView)
    requires
        same_grid(a, b),
    ensures
        same_grid(anchored_view(a), anchored_view(b)),
{
    assert(open_fn(a, WALL | CRATE, Set::empty()) =~= open_fn(b, WALL | CRATE, Set::empty()));
    assert(area_corner(a) == area_corner(b));
}

/// Four quarter turns bring a level's grid back.
proof fn lemma_turn_four(x: LevelView)
    requires
        grid_ok(x),
    ensures
        same_grid(turned(x, 4), x),
{
    let x1 = rotate_view(x);
    let x2 = rotate_view(x1);
    let x3 = rotate_view(x2);
    let x4 = rotate_view(x3);
    assert(turned(x, 4) == x4) by {
        reveal_with_fuel(turned, 5);
    }
    lemma_rotate_player_unique_grid(x);
    lemma_rotate_player_unique_grid(x1);
    lemma_rotate_player_unique_grid(x2);
    lemma_rotate_player_unique_grid(x3);
    assert forall|c: Vector2| #[trigger] in_bounds_spec(x.size, c) implies vtile(x4, c) == vtile(x, c) by {
        let c1 = rotate_point(x.size, c);
        lemma_rotate_cell(x, c);
        let c2 = rotate_point(x1.size, c1);
        lemma_rotate_cell(x1, c1);
        let c3 = rotate_point(x2.size, c2);
        lemma_rotate_cell(x2, c2);
        lemma_rotate_cell(x3, c3);
        assert(rotate_point(x3.size, c3) == c);
    }
    lemma_rotate_cell(x, x.player);
    lemma_rotate_cell(x1, x1.player);
    lemma_rotate_cell(x2, x2.player);
    assert(x4.tiles.len() == x.tiles.len());
    assert forall|i: int| 0 <= i < x.tiles.len() implies x4.tiles[i] == x.tiles[i] by {
        lemma_cell_index(x.size, i);
        assert(vtile(x4, cell_of(x.size, i)) == vtile(x, cell_of(x.size, i)));
    }
    assert(x4.tiles =~= x.tiles);
}

/// A quarter turn, a mirror and another quarter turn mirror a level's grid.
proof fn lemma_turn_flip_turn(x: LevelView)
    requires
        grid_ok(x),
    ensures
        same_grid(rotate_view(flip_view(rotate_view(x))), flip_view(x)),
{
    let x1 = rotate_view(x);
    let x2 = flip_view(x1);
    let x3 = rotate_view(x2);
    let f = flip_view(x);
    lemma_rotate_player_unique_grid(x);
    lemma_flip_grid(x1);
    lemma_flip_grid(x);
    assert forall|c: Vector2| #[trigger] in_bounds_spec(x.size, c) implies vtile(x3, flip_point(x.size, c))
        == vtile(f, flip_point(x.size, c)) by {
        let c1 = rotate_point(x.size, c);
        lemma_rotate_cell(x, c);
        let c2 = flip_point(x1.size, c1);
        lemma_flip_cell(x1, c1);
        lemma_rotate_cell(x2, c2);
        lemma_flip_cell(x, c);
        assert(rotate_point(x2.size, c2) == flip_point(x.size, c));
    }
    lemma_rotate_cell(x, x.player);
    lemma_flip_cell(x1, x1.player);
    assert(x3.tiles.len() == f.tiles.len());
    assert forall|i: int| 0 <= i < f.tiles.len() implies x3.tiles[i] == f.tiles[i] by {
        lemma_cell_index(x.size, i);
        let d = cell_of(x.size, i);
        lemma_flip_cell(x, d);
        let c = flip_point(x.size, d);
        assert(flip_point(x.size, c) == d);
        assert(vtile(x3, d) == vtile(f, d));
    }
    assert(x3.tiles =~= f.tiles);
}

/// Two mirrors bring a level's grid back.
proof fn lemma_flip_twice(x: LevelView)
    requires
        grid_ok(x),
    ensures
        same_grid(flip_view(flip_view(x)), x),
{
    let x1 = flip_view(x);
    let x2 = flip_view(x1);
    lemma_flip_grid(x);
    lemma_flip_cell(x, x.player);
    assert forall|c: Vector2| #[trigger] in_bounds_spec(x.size, c) implies vtile(x2, c) == vtile(x, c) by {
        lemma_flip_cell(x, c);
        lemma_flip_cell(x1, flip_point(x.size, c));
    }
    assert(x2.tiles.len() == x.tiles.len());
    assert forall|i: int| 0 <= i < x.tiles.len() implies x2.tiles[i] == x.tiles[i] by {
        lemma_cell_index(x.size, i);
        assert(vtile(x2, cell_of(x.size, i)) == vtile(x, cell_of(x.size, i)));
    }
    assert(x2.tiles =~= x.tiles);
}

/// Turning keeps a level's grid whole.
proof fn lemma_grid_turned(x: LevelView, k: nat)
    requires
        grid_ok(x),
    ensures
        grid_ok(turned(x, k)),
    decreases k,
{
    if k > 0 {
        lemma_grid_turned(x, (k - 1) as nat);
        lemma_rotate_player_unique_grid(turned(x, (k - 1) as nat));
    }
}

/// Turning a level turned once is turning it one quarter more.
proof fn lemma_turned_shift(x: LevelView, k: nat)
    ensures
        turned(rotate_view(x), k) == turned(x, k + 1),
    decreases k,
{
    if k > 0 {
        lemma_turned_shift(x, (k - 1) as nat);
    } else {
        assert(turned(x, 0) == x);
    }
}

/// A mirror then a quarter turn is three quarter turns then a mirror.
proof fn lemma_turn_after_flip(x: LevelView)
    requires
        grid_ok(x),
    ensures
        same_grid(rotate_view(flip_view(x)), flip_view(turned(x, 3))),
        same_grid(rotate_view(rotate_view(flip_view(x))), flip_view(turned(x, 2))),
        same_grid(rotate_view(rotate_view(rotate_view(flip_view(x)))), flip_view(rotate_view(x))),
{
    reveal_with_fuel(turned, 5);
    let y = turned(x, 3);
    lemma_grid_turned(x, 3);
    lemma_grid_turned(x, 2);
    lemma_rotate_player_unique_grid(x);
    lemma_turn_four(x);
    lemma_turn_flip_turn(y);
    lemma_same_grid_flip(rotate_view(y), x);
    lemma_same_grid_rotate(flip_view(rotate_view(y)), flip_view(x));
    let a = rotate_view(flip_view(x));
    lemma_same_grid_rotate(a, flip_view(y));
    lemma_turn_flip_turn(turned(x, 2));
    let b = rotate_view(a);
    lemma_same_grid_rotate(b, flip_view(turned(x, 2)));
    lemma_turn_flip_turn(rotate_view(x));
}

/// The level turned `k` quarters, with the player put in the first cell of its area.
spec fn plain_variant(p: LevelView, k: nat) -> LevelView {
    anchored_view(turned(p, k))
}

/// The level turned `k` quarters and mirrored, with the player put in the
/// first cell of its area.
spec fn mirrored_variant(p: LevelView, k: nat) -> LevelView {
    anchored_view(flip_view(turned(p, k)))
}

/// Each variant of a fit level has the grid of one of the eight plain or
/// mirrored turns, each turn once.
proof fn lemma_variants_canonical(p: LevelView)
    requires
        fit(p),
    ensures
        same_grid(variant(p, 1), plain_variant(p, 1)),
        same_grid(variant(p, 2), plain_variant(p, 2)),
        same_grid(variant(p, 3), plain_variant(p, 3)),
        same_grid(variant(p, 4), plain_variant(p, 0)),
        same_grid(variant(p, 5), mirrored_variant(p, 1)),
        same_grid(variant(p, 6), mirrored_variant(p, 0)),
        same_grid(variant(p, 7), mirrored_variant(p, 3)),
        same_grid(variant(p, 8), mirrored_variant(p, 2)),
{
    reveal_with_fuel(turned, 6);
    lemma_variant_form(p, 1);
    lemma_variant_form(p, 2);
    lemma_variant_form(p, 3);
    lemma_variant_form(p, 4);
    lemma_variant_form(p, 5);
    lemma_variant_form(p, 6);
    lemma_variant_form(p, 7);
    lemma_variant_form(p, 8);
    lemma_turn_four(p);
    lemma_same_grid_anchor(turned(p, 4), p);
    let t5 = turned(p, 5);
    lemma_same_grid_rotate(turned(p, 4), p);
    lemma_same_grid_flip(t5, rotate_view(p));
    lemma_same_grid_anchor(flip_view(t5), flip_view(rotate_view(p)));
    let x = flip_view(t5);
    lemma_same_grid_rotate(x, flip_view(rotate_view(p)));
    lemma_turn_flip_turn(p);
    lemma_same_grid_anchor(rotate_view(x), flip_view(p));
    lemma_turn_after_flip(p);
    lemma_same_grid_rotate(rotate_view(x), flip_view(p));
    lemma_same_grid_anchor(rotate_view(rotate_view(x)), flip_view(turned(p, 3)));
    lemma_same_grid_rotate(rotate_view(rotate_view(x)), rotate_view(flip_view(p)));
    lemma_same_grid_anchor(rotate_view(rotate_view(rotate_view(x))), flip_view(turned(p, 2)));
    assert(turned(x, 1) == rotate_view(x));
    assert(turned(x, 2) == rotate_view(rotate_view(x)));
    assert(turned(x, 3) == rotate_view(rotate_view(rotate_view(x))));
}

/// The plain and mirrored turns of a level turned a quarter are those of the
/// level, one quarter further on.
proof fn lemma_rotate_canonical(p: LevelView)
    requires
        grid_ok(p),
    ensures
        plain_variant(rotate_view(p), 0) == plain_variant(p, 1),
        plain_variant(rotate_view(p), 1) == plain_variant(p, 2),
        plain_variant(rotate_view(p), 2) == plain_variant(p, 3),
        same_grid(plain_variant(rotate_view(p), 3), plain_variant(p, 0)),
        mirrored_variant(rotate_view(p), 0) == mirrored_variant(p, 1),
        mirrored_variant(rotate_view(p), 1) == mirrored_variant(p, 2),
        mirrored_variant(rotate_view(p), 2) == mirrored_variant(p, 3),
        same_grid(mirrored_variant(rotate_view(p), 3), mirrored_variant(p, 0)),
{
    lemma_turned_shift(p, 0);
    lemma_turned_shift(p, 1);
    lemma_turned_shift(p, 2);
    lemma_turned_shift(p, 3);
    lemma_turn_four(p);
    assert(turned(p, 0) == p);
    lemma_same_grid_anchor(turned(p, 4), p);
    lemma_same_grid_flip(turned(p, 4), p);
    lemma_same_grid_anchor(flip_view(turned(p, 4)), flip_view(p));
}

/// The plain and mirrored turns of a mirrored level are the mirrored and
/// plain turns of the level, turned the other way.
proof fn lemma_flip_canonical(p: LevelView)
    requires
        grid_ok(p),
    ensures
        plain_variant(flip_view(p), 0) == mirrored_variant(p, 0),
        same_grid(plain_variant(flip_view(p), 1), mirrored_variant(p, 3)),
        same_grid(plain_variant(flip_view(p), 2), mirrored_variant(p, 2)),
        same_grid(plain_variant(flip_view(p), 3), mirrored_variant(p, 1)),
        same_grid(mirrored_variant(flip_view(p), 0), plain_variant(p, 0)),
        same_grid(mirrored_variant(flip_view(p), 1), plain_variant(p, 3)),
        same_grid(mirrored_variant(flip_view(p), 2), plain_variant(p, 2)),
        same_grid(mirrored_variant(flip_view(p), 3), plain_variant(p, 1)),
{
    reveal_with_fuel(turned, 4);
    let f = flip_view(p);
    let a = rotate_view(f);
    let b = rotate_view(a);
    let c = rotate_view(b);
    assert(turned(f, 1) == a);
    assert(turned(f, 2) == b);
    assert(turned(f, 3) == c);
    lemma_turn_after_flip(p);
    lemma_grid_turned(p, 1);
    lemma_grid_turned(p, 2);
    lemma_grid_turned(p, 3);
    lemma_same_grid_anchor(a, flip_view(turned(p, 3)));
    lemma_same_grid_anchor(b, flip_view(turned(p, 2)));
    lemma_same_grid_anchor(c, flip_view(turned(p, 1)));
    lemma_flip_twice(p);
    lemma_same_grid_anchor(flip_view(f), p);
    lemma_flip_twice(turned(p, 3));
    lemma_same_grid_flip(a, flip_view(turned(p, 3)));
    lemma_same_grid_anchor(flip_view(a), turned(p, 3));
    lemma_flip_twice(turned(p, 2));
    lemma_same_grid_flip(b, flip_view(turned(p, 2)));
    lemma_same_grid_anchor(flip_view(b), turned(p, 2));
    lemma_flip_twice(turned(p, 1));
    lemma_same_grid_flip(c, flip_view(turned(p, 1)));
    lemma_same_grid_anchor(flip_view(c), turned(p, 1));
}

/// The variants of a level, by their number.
spec fn variants_of(a: LevelView) -> spec_fn(nat) -> LevelView {
    |n: nat| variant(a, n)
}

/// Whether each of the first eight grids of `f` has the tiles and size of one
/// of the first eight grids of `g`.
spec fn grids_within(f: spec_fn(nat) -> LevelView, g: spec_fn(nat) -> LevelView) -> bool {
    forall|n: nat|
        #![trigger f(n)]
        1 <= n <= 8 ==> exists|m: nat|
            #![trigger g(m)]
            1 <= m <= 8 && f(n).tiles == g(m).tiles && f(n).size == g(m).size
}

/// Whether every variant of `a` has the tiles and size of some variant of `b`.
spec fn variants_within(a: LevelView, b: LevelView) -> bool {
    grids_within(variants_of(a), variants_of(b))
}

/// Eight grids that each match one of eight others are within them.
proof fn lemma_grids_within(
    f: spec_fn(nat) -> LevelView,
    g: spec_fn(nat) -> LevelView,
    m1: nat, m2: nat, m3: nat, m4: nat, m5: nat, m6: nat, m7: nat, m8: nat,
)
    requires
        1 <= m1 <= 8,
        1 <= m2 <= 8,
        1 <= m3 <= 8,
        1 <= m4 <= 8,
        1 <= m5 <= 8,
        1 <= m6 <= 8,
        1 <= m7 <= 8,
        1 <= m8 <= 8,
        same_grid(f(1), g(m1)),
        same_grid(f(2), g(m2)),
        same_grid(f(3), g(m3)),
        same_grid(f(4), g(m4)),
        same_grid(f(5), g(m5)),
        same_grid(f(6), g(m6)),
        same_grid(f(7), g(m7)),
        same_grid(f(8), g(m8)),
    ensures
        grids_within(f, g),
{
    assert forall|n: nat| #![trigger f(n)] 1 <= n <= 8 implies exists|k: nat|
        #![trigger g(k)]
        1 <= k <= 8 && f(n).tiles == g(k).tiles && f(n).size == g(k).size by {
        if n == 1 {
            assert(same_grid(f(1), g(m1)));
        } else if n == 2 {
            assert(same_grid(f(2), g(m2)));
        } else if n == 3 {
            assert(same_grid(f(3), g(m3)));
        } else if n == 4 {
            assert(same_grid(f(4), g(m4)));
        } else if n == 5 {
            assert(same_grid(f(5), g(m5)));
        } else if n == 6 {
            assert(same_grid(f(6), g(m6)));
        } else if n == 7 {
            assert(same_grid(f(7), g(m7)));
        } else {
            assert(same_grid(f(8), g(m8)));
        }
    }
}

/// Each variant of a fit level turned a quarter has the grid of a variant of the level.
proof fn lemma_rotate_pairs(p: LevelView)
    requires
        fit(p),
    ensures
        same_grid(variant(rotate_view(p), 1), variant(p, 2)),
        same_grid(variant(rotate_view(p), 2), variant(p, 3)),
        same_grid(variant(rotate_view(p), 3), variant(p, 4)),
        same_grid(variant(rotate_view(p), 4), variant(p, 1)),
        same_grid(variant(rotate_view(p), 5), variant(p, 8)),
        same_grid(variant(rotate_view(p), 6), variant(p, 5)),
        same_grid(variant(rotate_view(p), 7), variant(p, 6)),
        same_grid(variant(rotate_view(p), 8), variant(p, 7)),
{
    let q = rotate_view(p);
    lemma_fit_rotate(p);
    lemma_variants_canonical(p);
    lemma_variants_canonical(q);
    lemma_rotate_canonical(p);
}

/// The variants of a fit level and of the level turned a quarter have the same grids.
proof fn lemma_variants_rotate(p: LevelView)
    requires
        fit(p),
    ensures
        variants_within(rotate_view(p), p),
        variants_within(p, rotate_view(p)),
{
    let q = rotate_view(p);
    let f = variants_of(q);
    let g = variants_of(p);
    lemma_rotate_pairs(p);
    assert(f(1) == variant(q, 1) && g(2) == variant(p, 2));
    assert(f(2) == variant(q, 2) && g(3) == variant(p, 3));
    assert(f(3) == variant(q, 3) && g(4) == variant(p, 4));
    assert(f(4) == variant(q, 4) && g(1) == variant(p, 1));
    assert(f(5) == variant(q, 5) && g(8) == variant(p, 8));
    assert(f(6) == variant(q, 6) && g(5) == variant(p, 5));
    assert(f(7) == variant(q, 7) && g(6) == variant(p, 6));
    assert(f(8) == variant(q, 8) && g(7) == variant(p, 7));
    lemma_grids_within(f, g, 2, 3, 4, 1, 8, 5, 6, 7);
    assert(g(1) == variant(p, 1) && f(4) == variant(q, 4));
    assert(g(2) == variant(p, 2) && f(1) == variant(q, 1));
    assert(g(3) == variant(p, 3) && f(2) == variant(q, 2));
    assert(g(4) == variant(p, 4) && f(3) == variant(q, 3));
    assert(g(5) == variant(p, 5) && f(6) == variant(q, 6));
    assert(g(6) == variant(p, 6) && f(7) == variant(q, 7));
    assert(g(7) == variant(p, 7) && f(8) == variant(q, 8));
    assert(g(8) == variant(p, 8) && f(5) == variant(q, 5));
    lemma_grids_within(g, f, 4, 1, 2, 3, 6, 7, 8, 5);
}

/// Each variant of a fit mirrored level has the grid of a variant of the level.
proof fn lemma_flip_pairs(p: LevelView)
    requires
        fit(p),
    ensures
        same_grid(variant(flip_view(p), 1), variant(p, 7)),
        same_grid(variant(flip_view(p), 2), variant(p, 8)),
        same_grid(variant(flip_view(p), 3), variant(p, 5)),
        same_grid(variant(flip_view(p), 4), variant(p, 6)),
        same_grid(variant(flip_view(p), 5), variant(p, 3)),
        same_grid(variant(flip_view(p), 6), variant(p, 4)),
        same_grid(variant(flip_view(p), 7), variant(p, 1)),
        same_grid(variant(flip_view(p), 8), variant(p, 2)),
{
    let q = flip_view(p);
    lemma_fit_flip(p);
    lemma_variants_canonical(p);
    lemma_variants_canonical(q);
    lemma_flip_canonical(p);
}

/// The variants of a fit level and of the mirrored level have the same grids.
proof fn lemma_variants_flip(p: LevelView)
    requires
        fit(p),
    ensures
        variants_within(flip_view(p), p),
        variants_within(p, flip_view(p)),
{
    let q = flip_view(p);
    let f = variants_of(q);
    let g = variants_of(p);
    lemma_flip_pairs(p);
    assert(f(1) == variant(q, 1) && g(7) == variant(p, 7));
    assert(f(2) == variant(q, 2) && g(8) == variant(p, 8));
    assert(f(3) == variant(q, 3) && g(5) == variant(p, 5));
    assert(f(4) == variant(q, 4) && g(6) == variant(p, 6));
    assert(f(5) == variant(q, 5) && g(3) == variant(p, 3));
    assert(f(6) == variant(q, 6) && g(4) == variant(p, 4));
    assert(f(7) == variant(q, 7) && g(1) == variant(p, 1));
    assert(f(8) == variant(q, 8) && g(2) == variant(p, 2));
    lemma_grids_within(f, g, 7, 8, 5, 6, 3, 4, 1, 2);
    assert(g(1) == variant(p, 1) && f(7) == variant(q, 7));
    assert(g(2) == variant(p, 2) && f(8) == variant(q, 8));
    assert(g(3) == variant(p, 3) && f(5) == variant(q, 5));
    assert(g(4) == variant(p, 4) && f(6) == variant(q, 6));
    assert(g(5) == variant(p, 5) && f(3) == variant(q, 3));
    assert(g(6) == variant(p, 6) && f(4) == variant(q, 4));
    assert(g(7) == variant(p, 7) && f(1) == variant(q, 1));
    assert(g(8) == variant(p, 8) && f(2) == variant(q, 2));
    lemma_grids_within(g, f, 7, 8, 5, 6, 3, 4, 1, 2);
}

/// A quarter turn keeps the floor next to each cell next to it.
proof fn lemma_floor_nearby_rotate(v: LevelView, o: Vector2)
    requires
        grid_ok(v),
        in_bounds_spec(v.size, o),
    ensures
        floor_nearby(rotate_view(v), rotate_point(v.size, o)) == floor_nearby(v, o),
{
    let r = rotate_view(v);
    let ro = rotate_point(v.size, o);
    if floor_nearby(v, o) {
        let (dx, dy) = choose|dx: int, dy: int|
            -1 <= dx <= 1 && -1 <= dy <= 1 && !(dx == 0 && dy == 0) && #[trigger] in_bounds_spec(
                v.size,
                Vector2 { x: (o.x + dx) as i32, y: (o.y + dy) as i32 },
            ) && has_flag(vtile(v, Vector2 { x: (o.x + dx) as i32, y: (o.y + dy) as i32 }), FLOOR);
        let n = Vector2 { x: (o.x + dx) as i32, y: (o.y + dy) as i32 };
        lemma_rotate_cell(v, n);
        let m = Vector2 { x: (ro.x + dy) as i32, y: (ro.y + -dx) as i32 };
        assert(rotate_point(v.size, n) == m);
        assert(in_bounds_spec(r.size, m));
    }
    if floor_nearby(r, ro) {
        let (ex, ey) = choose|dx: int, dy: int|
            -1 <= dx <= 1 && -1 <= dy <= 1 && !(dx == 0 && dy == 0) && #[trigger] in_bounds_spec(
                r.size,
                Vector2 { x: (ro.x + dx) as i32, y: (ro.y + dy) as i32 },
            ) && has_flag(vtile(r, Vector2 { x: (ro.x + dx) as i32, y: (ro.y + dy) as i32 }), FLOOR);
        let m = Vector2 { x: (ro.x + ex) as i32, y: (ro.y + ey) as i32 };
        lemma_unrotate_cell(v, m);
        let n = unrotate_point(v.size, m);
        lemma_rotate_cell(v, n);
        assert(n == Vector2 { x: (o.x + -ey) as i32, y: (o.y + ex) as i32 });
        assert(in_bounds_spec(v.size, n));
    }
}

/// A mirror keeps the floor next to each cell next to it.
proof fn lemma_floor_nearby_flip(v: LevelView, o: Vector2)
    requires
        grid_ok(v),
        in_bounds_spec(v.size, o),
    ensures
        floor_nearby(flip_view(v), flip_point(v.size, o)) == floor_nearby(v, o),
{
    let r = flip_view(v);
    let ro = flip_point(v.size, o);
    if floor_nearby(v, o) {
        let (dx, dy) = choose|dx: int, dy: int|
            -1 <= dx <= 1 && -1 <= dy <= 1 && !(dx == 0 && dy == 0) && #[trigger] in_bounds_spec(
                v.size,
                Vector2 { x: (o.x + dx) as i32, y: (o.y + dy) as i32 },
            ) && has_flag(vtile(v, Vector2 { x: (o.x + dx) as i32, y: (o.y + dy) as i32 }), FLOOR);
        let n = Vector2 { x: (o.x + dx) as i32, y: (o.y + dy) as i32 };
        lemma_flip_cell(v, n);
        let m = Vector2 { x: (ro.x + -dx) as i32, y: (ro.y + dy) as i32 };
        assert(flip_point(v.size, n) == m);
        assert(in_bounds_spec(r.size, m));
    }
    if floor_nearby(r, ro) {
        let (ex, ey) = choose|dx: int, dy: int|
            -1 <= dx <= 1 && -1 <= dy <= 1 && !(dx == 0 && dy == 0) && #[trigger] in_bounds_spec(
                r.size,
                Vector2 { x: (ro.x + dx) as i32, y: (ro.y + dy) as i32 },
            ) && has_flag(vtile(r, Vector2 { x: (ro.x + dx) as i32, y: (ro.y + dy) as i32 }), FLOOR);
        let m = Vector2 { x: (ro.x + ex) as i32, y: (ro.y + ey) as i32 };
        let n = flip_point(v.size, m);
        assert(in_bounds_spec(v.size, n));
        lemma_flip_cell(v, n);
        assert(n == Vector2 { x: (o.x + -ex) as i32, y: (o.y + ey) as i32 });
    }
}

/// The prepared tile of a cell of a level, read from the prepared level.
proof fn lemma_prepared_cell(v: LevelView, o: Vector2)
    requires
        grid_ok(v),
        in_bounds_spec(v.size, o),
    ensures
        vtile(prepared_view(v), o) == prepared_tile(v, o),
{
    lemma_index_bounds(v.size, o);
    let j = index_of(v.size, o);
    lemma_cell_index(v.size, j);
    lemma_index_injective(v.size, cell_of(v.size, j), o);
}

/// Preparing a level and turning it a quarter can be done in either order.
proof fn lemma_prepared_rotate(v: LevelView)
    requires
        grid_ok(v),
    ensures
        prepared_view(rotate_view(v)) == rotate_view(prepared_view(v)),
{
    let r = rotate_view(v);
    let pv = prepared_view(v);
    let l = prepared_view(r);
    let rr = rotate_view(pv);
    lemma_rotate_player_unique_grid(v);
    assert(grid_ok(pv));
    lemma_rotate_player_unique_grid(pv);
    assert(l.tiles.len() == rr.tiles.len());
    assert forall|i: int| 0 <= i < l.tiles.len() implies l.tiles[i] == rr.tiles[i] by {
        let d = cell_of(r.size, i);
        lemma_cell_index(r.size, i);
        lemma_unrotate_cell(v, d);
        let o = unrotate_point(v.size, d);
        lemma_rotate_cell(pv, o);
        lemma_rotate_cell(v, o);
        lemma_prepared_cell(v, o);
        lemma_floor_nearby_rotate(v, o);
        assert(vtile(rr, d) == rr.tiles[i]);
        assert(l.tiles[i] == prepared_tile(r, d));
    }
    assert(l.tiles =~= rr.tiles);
    assert(l.crates =~= rr.crates);
}

/// Preparing a level and mirroring it can be done in either order.
proof fn lemma_prepared_flip(v: LevelView)
    requires
        grid_ok(v),
    ensures
        prepared_view(flip_view(v)) == flip_view(prepared_view(v)),
{
    let r = flip_view(v);
    let pv = prepared_view(v);
    let l = prepared_view(r);
    let rr = flip_view(pv);
    lemma_flip_grid(v);
    assert(grid_ok(pv));
    lemma_flip_grid(pv);
    assert(l.tiles.len() == rr.tiles.len());
    assert forall|i: int| 0 <= i < l.tiles.len() implies l.tiles[i] == rr.tiles[i] by {
        let d = cell_of(r.size, i);
        lemma_cell_index(r.size, i);
        let o = flip_point(v.size, d);
        lemma_flip_cell(v, d);
        lemma_flip_cell(pv, o);
        lemma_flip_cell(v, o);
        lemma_prepared_cell(v, o);
        lemma_floor_nearby_flip(v, o);
        assert(vtile(rr, d) == rr.tiles[i]);
        assert(l.tiles[i] == prepared_tile(r, d));
    }
    assert(l.tiles =~= rr.tiles);
    assert(l.crates =~= rr.crates);
}

/// A level whose player stands alone on floor without a crate is fit once prepared.
proof fn lemma_fit_prepared(v: LevelView)
    requires
        grid_ok(v),
        player_unique(v),
        has_flag(vtile(v, v.player), FLOOR),
        !has_flag(vtile(v, v.player), CRATE),
    ensures
        fit(prepared_view(v)),
{
    lemma_prepared_player_unique(v);
    lemma_prepared_cell(v, v.player);
    lemma_prepared_bits_keep(vtile(v, v.player).0, false);
    assert(prepared_tile(v, v.player).0 == prepared_bits(vtile(v, v.player).0, false));
}

/// Whether variants of a level whose tiles hash alike have the same tiles and
/// the same size: no two different variants share a hash.
pub open spec fn variant_hashes_distinct(p: LevelView) -> bool {
    forall|n: nat, m: nat|
        #![trigger variant(p, n), variant(p, m)]
        1 <= n <= 8 && 1 <= m <= 8 && tiles_sip_hash(variant(p, n).tiles) == tiles_sip_hash(
            variant(p, m).tiles,
        ) ==> variant(p, n).tiles == variant(p, m).tiles && variant(p, n).size == variant(p, m).size
}

/// Two prepared levels whose variants have the same grids have normal forms
/// that hash alike, the second one with the tiles and size of a variant of
/// the first; where no two different variants of the first share a hash, the
/// two normal forms have the same tiles and size.
#[verifier::rlimit(40)]
proof fn lemma_normal_hash(p: LevelView, q: LevelView, w1: LevelView, w2: LevelView)
    requires
        normal_form(p, w1),
        normal_form(q, w2),
        variants_within(p, q),
        variants_within(q, p),
    ensures
        tiles_sip_hash(w1.tiles) == tiles_sip_hash(w2.tiles),
        exists|m: nat|
            1 <= m <= 8 && w2.tiles == #[trigger] variant(p, m).tiles && w2.size == variant(p, m).size,
        variant_hashes_distinct(p) ==> w1.tiles == w2.tiles && w1.size == w2.size,
{
    let k1 = choose|k: nat|
        1 <= k <= 8 && w1 == variant(p, k) && (forall|n: nat|
            1 <= n <= 8 ==> tiles_sip_hash(w1.tiles) <= tiles_sip_hash(#[trigger] variant(p, n).tiles))
            && (forall|n: nat|
            1 <= n <= 8 && tie_rank(n) < tie_rank(k) ==> tiles_sip_hash(w1.tiles) < tiles_sip_hash(#[trigger] variant(p, n).tiles));
    let k2 = choose|k: nat|
        1 <= k <= 8 && w2 == variant(q, k) && (forall|n: nat|
            1 <= n <= 8 ==> tiles_sip_hash(w2.tiles) <= tiles_sip_hash(#[trigger] variant(q, n).tiles))
            && (forall|n: nat|
            1 <= n <= 8 && tie_rank(n) < tie_rank(k) ==> tiles_sip_hash(w2.tiles) < tiles_sip_hash(#[trigger] variant(q, n).tiles));
    assert(variant(p, k1) == w1);
    assert(variants_of(p)(k1) == w1);
    let m1 = choose|m: nat|
        #![trigger variants_of(q)(m)]
        1 <= m <= 8 && variants_of(p)(k1).tiles == variants_of(q)(m).tiles;
    assert(variants_of(q)(m1) == variant(q, m1));
    assert(tiles_sip_hash(w2.tiles) <= tiles_sip_hash(variant(q, m1).tiles));
    assert(variant(q, k2) == w2);
    assert(variants_of(q)(k2) == w2);
    let m2 = choose|m: nat|
        #![trigger variants_of(p)(m)]
        1 <= m <= 8 && variants_of(q)(k2).tiles == variants_of(p)(m).tiles && variants_of(q)(k2).size
            == variants_of(p)(m).size;
    assert(variants_of(p)(m2) == variant(p, m2));
    assert(tiles_sip_hash(w1.tiles) <= tiles_sip_hash(variant(p, m2).tiles));
    if variant_hashes_distinct(p) {
        assert(tiles_sip_hash(variant(p, k1).tiles) == tiles_sip_hash(variant(p, m2).tiles));
    }
}

/// Normalizing a level does not depend on a quarter turn: the variants of a
/// level and of the level turned a quarter have the same grids, so the two
/// normal forms hash alike, the normal form of the turned level has the tiles
/// and size of a variant of the level, and where no two different variants
/// of the level share a hash the two normal forms have the same tiles and size.
pub proof fn law_normalize_ignores_rotation(v: LevelView, w1: LevelView, w2: LevelView)
    requires
        grid_ok(v),
        player_unique(v),
        has_flag(vtile(v, v.player), FLOOR),
        !has_flag(vtile(v, v.player), CRATE),
        normal_form(prepared_view(v), w1),
        normal_form(prepared_view(rotate_view(v)), w2),
    ensures
        tiles_sip_hash(w1.tiles) == tiles_sip_hash(w2.tiles),
        exists|m: nat|
            1 <= m <= 8 && w2.tiles == #[trigger] variant(prepared_view(v), m).tiles && w2.size == variant(
                prepared_view(v),
                m,
            ).size,
        variant_hashes_distinct(prepared_view(v)) ==> w1.tiles == w2.tiles && w1.size == w2.size,
{
    lemma_fit_prepared(v);
    lemma_prepared_rotate(v);
    lemma_variants_rotate(prepared_view(v));
    lemma_normal_hash(prepared_view(v), prepared_view(rotate_view(v)), w1, w2);
}

/// Normalizing a level does not depend on a mirror: the variants of a level
/// and of the level mirrored left to right have the same grids, so the two
/// normal forms hash alike, the normal form of the mirrored level has the
/// tiles and size of a variant of the level, and where no two different
/// variants of the level share a hash the two normal forms have the same
/// tiles and size.
pub proof fn law_normalize_ignores_mirror(v: LevelView, w1: LevelView, w2: LevelView)
    requires
        grid_ok(v),
        player_unique(v),
        has_flag(vtile(v, v.player), FLOOR),
        !has_flag(vtile(v, v.player), CRATE),
        normal_form(prepared_view(v), w1),
        normal_form(prepared_view(flip_view(v)), w2),
    ensures
        tiles_sip_hash(w1.tiles) == tiles_sip_hash(w2.tiles),
        exists|m: nat|
            1 <= m <= 8 && w2.tiles == #[trigger] variant(prepared_view(v), m).tiles && w2.size == variant(
                prepared_view(v),
                m,
            ).size,
        variant_hashes_distinct(prepared_view(v)) ==> w1.tiles == w2.tiles && w1.size == w2.size,
{
    lemma_fit_prepared(v);
    lemma_prepared_flip(v);
    lemma_variants_flip(prepared_view(v));
    lemma_normal_hash(prepared_view(v), prepared_view(flip_view(v)), w1, w2);
}

} // verus!
