use vstd::prelude::*;
use crate::vector::Vector2;
use crate::direction::{Direction, step};
use crate::movement::{Movement, movement_direction};
use crate::tile::{has_flag, WALL, CRATE, PLAYER, lemma_insert_flag, lemma_remove_flag};
use crate::level::{
    LevelView, vtile, view_wf, in_bounds_spec, index_of, move_player_view, move_crate_view,
    lemma_index_bounds, lemma_index_injective,
};
use crate::board::{action_of, apply, lemma_apply_unapply, BoardView, do_spec, solved_spec};

verus! {

/// Whether `p` stops the player and the crates for good: off the grid or a wall.
pub open spec fn wall_at(v: LevelView, p: Vector2) -> bool {
    !in_bounds_spec(v.size, p) || has_flag(vtile(v, p), WALL)
}

/// Whether two levels have the same grid size, walls and targets.
pub open spec fn same_ground(v: LevelView, w: LevelView) -> bool {
    &&& v.size == w.size
    &&& v.targets == w.targets
    &&& forall|p: Vector2| #[trigger] wall_at(w, p) == wall_at(v, p)
}

/// The level after the movements `ms`, made one after the other from `v`,
/// each by a step that makes exactly that movement; `None` where one of them
/// cannot be made.
pub open spec fn replay(v: LevelView, ms: Seq<Movement>) -> Option<LevelView>
    decreases ms.len(),
{
    if ms.len() == 0 {
        Some(v)
    } else {
        match replay(v, ms.drop_last()) {
            None => None,
            Some(w) => {
                let m = ms.last();
                if action_of(w, movement_direction(m)) == Some(m) {
                    Some(apply(w, movement_direction(m)))
                } else {
                    None
                }
            },
        }
    }
}

/// Whether every crate stands on a target.
pub open spec fn crates_on_targets(v: LevelView) -> bool {
    v.crates.subset_of(v.targets)
}

/// Moving the player keeps every wall flag.
proof fn lemma_move_player_keeps_walls(v: LevelView, to: Vector2)
    requires
        view_wf(v),
        in_bounds_spec(v.size, to),
    ensures
        forall|p: Vector2| #[trigger] wall_at(move_player_view(v, to), p) == wall_at(v, p),
{
    let w = move_player_view(v, to);
    let pl = v.player;
    lemma_index_bounds(v.size, pl);
    lemma_index_bounds(v.size, to);
    assert forall|p: Vector2| #[trigger] wall_at(w, p) == wall_at(v, p) by {
        if in_bounds_spec(v.size, p) {
            lemma_index_bounds(v.size, p);
            let t0 = vtile(v, p).0;
            if index_of(v.size, p) == index_of(v.size, to) {
                lemma_index_injective(v.size, p, to);
            }
            if index_of(v.size, p) == index_of(v.size, pl) {
                lemma_index_injective(v.size, p, pl);
            }
            if p == to && p == pl {
                lemma_remove_flag(t0, PLAYER, WALL);
                lemma_insert_flag(t0 & !PLAYER, PLAYER, WALL);
            } else if p == to {
                lemma_insert_flag(t0, PLAYER, WALL);
            } else if p == pl {
                lemma_remove_flag(t0, PLAYER, WALL);
            }
        }
    }
}

/// Moving a crate keeps every wall flag.
proof fn lemma_move_crate_keeps_walls(v: LevelView, from: Vector2, to: Vector2)
    requires
        view_wf(v),
        in_bounds_spec(v.size, from),
        in_bounds_spec(v.size, to),
    ensures
        forall|p: Vector2| #[trigger] wall_at(move_crate_view(v, from, to), p) == wall_at(v, p),
{
    let w = move_crate_view(v, from, to);
    lemma_index_bounds(v.size, from);
    lemma_index_bounds(v.size, to);
    assert forall|p: Vector2| #[trigger] wall_at(w, p) == wall_at(v, p) by {
        if in_bounds_spec(v.size, p) {
            lemma_index_bounds(v.size, p);
            let t0 = vtile(v, p).0;
            if index_of(v.size, p) == index_of(v.size, to) {
                lemma_index_injective(v.size, p, to);
            }
            if index_of(v.size, p) == index_of(v.size, from) {
                lemma_index_injective(v.size, p, from);
            }
            if p == to && p == from {
                lemma_remove_flag(t0, CRATE, WALL);
                lemma_insert_flag(t0 & !CRATE, CRATE, WALL);
            } else if p == to {
                lemma_insert_flag(t0, CRATE, WALL);
            } else if p == from {
                lemma_remove_flag(t0, CRATE, WALL);
            }
        }
    }
}

/// A step keeps the level well formed and its ground unchanged.
pub proof fn lemma_apply_keeps_ground(v: LevelView, d: Direction)
    requires
        view_wf(v),
    ensures
        view_wf(apply(v, d)),
        same_ground(v, apply(v, d)),
{
    let next = step(v.player, d);
    match action_of(v, d) {
        None => {},
        Some(Movement::Move(_)) => {
            lemma_apply_unapply(v, d);
            lemma_move_player_keeps_walls(v, next);
        },
        Some(Movement::Push(_)) => {
            lemma_apply_unapply(v, d);
            let u = move_crate_view(v, next, step(next, d));
            lemma_move_crate_keeps_walls(v, next, step(next, d));
            lemma_index_bounds(v.size, next);
            lemma_index_bounds(v.size, step(next, d));
            crate::board::lemma_view_wf_move_crate(v, next, step(next, d));
            lemma_move_player_keeps_walls(u, next);
            assert forall|p: Vector2| #[trigger] wall_at(apply(v, d), p) == wall_at(v, p) by {
                assert(wall_at(apply(v, d), p) == wall_at(u, p));
                assert(wall_at(u, p) == wall_at(v, p));
            }
        },
    }
}

/// Replaying one more movement: the replay so far, then that movement.
pub proof fn lemma_replay_push(v: LevelView, ms: Seq<Movement>, m: Movement)
    ensures
        replay(v, ms.push(m)) == (match replay(v, ms) {
            None => None,
            Some(w) => if action_of(w, movement_direction(m)) == Some(m) {
                Some(apply(w, movement_direction(m)))
            } else {
                None
            },
        }),
{
    assert(ms.push(m).drop_last() =~= ms);
}

/// A successful replay from a well-formed level ends in a well-formed level
/// on the same ground.
pub proof fn lemma_replay_keeps_ground(v: LevelView, ms: Seq<Movement>)
    requires
        view_wf(v),
        replay(v, ms) is Some,
    ensures
        view_wf(replay(v, ms).unwrap()),
        same_ground(v, replay(v, ms).unwrap()),
    decreases ms.len(),
{
    if ms.len() > 0 {
        lemma_replay_keeps_ground(v, ms.drop_last());
        let w = replay(v, ms.drop_last()).unwrap();
        lemma_apply_keeps_ground(w, movement_direction(ms.last()));
        let u = replay(v, ms).unwrap();
        assert forall|p: Vector2| #[trigger] wall_at(u, p) == wall_at(v, p) by {
            assert(wall_at(u, p) == wall_at(w, p));
            assert(wall_at(w, p) == wall_at(v, p));
        }
    }
}

/// The board after stepping in the direction of each movement of `ms`, one
/// after the other.
pub open spec fn do_all(b: BoardView, ms: Seq<Movement>) -> BoardView
    decreases ms.len(),
{
    if ms.len() == 0 {
        b
    } else {
        do_spec(do_all(b, ms.drop_last()), movement_direction(ms.last()))
    }
}

/// Stepping on a board in the directions of movements that can be replayed
/// from its level makes exactly those movements: the board's level ends where
/// the replay ends and its history grows by the movements.
pub proof fn law_board_follows_replay(b: BoardView, ms: Seq<Movement>)
    requires
        replay(b.map, ms) is Some,
    ensures
        do_all(b, ms).map == replay(b.map, ms).unwrap(),
        do_all(b, ms).actions == b.actions + ms,
    decreases ms.len(),
{
    if ms.len() == 0 {
        assert(b.actions + ms =~= b.actions);
    } else {
        law_board_follows_replay(b, ms.drop_last());
        assert(b.actions + ms =~= (b.actions + ms.drop_last()).push(ms.last()));
    }
}

/// A step keeps the number of crates.
proof fn lemma_apply_keeps_crate_count(v: LevelView, d: Direction)
    requires
        view_wf(v),
        v.crates.finite(),
    ensures
        apply(v, d).crates.finite(),
        apply(v, d).crates.len() == v.crates.len(),
{
    let next = step(v.player, d);
    if action_of(v, d) matches Some(Movement::Push(_)) {
        let beyond = step(next, d);
        assert(has_flag(vtile(v, beyond), CRATE) == v.crates.contains(beyond));
        assert(!v.crates.contains(beyond));
    }
}

/// A replay keeps the number of crates.
proof fn lemma_replay_keeps_crate_count(v: LevelView, ms: Seq<Movement>)
    requires
        view_wf(v),
        v.crates.finite(),
        replay(v, ms) is Some,
    ensures
        replay(v, ms).unwrap().crates.finite(),
        replay(v, ms).unwrap().crates.len() == v.crates.len(),
    decreases ms.len(),
{
    if ms.len() > 0 {
        lemma_replay_keeps_crate_count(v, ms.drop_last());
        lemma_replay_keeps_ground(v, ms.drop_last());
        let w = replay(v, ms.drop_last()).unwrap();
        lemma_apply_keeps_crate_count(w, movement_direction(ms.last()));
    }
}

/// Movements that can be replayed from a level and leave every crate on a
/// target, made on a board at that level, solve it, where the level has as
/// many crates as targets.
pub proof fn law_solution_solves_board(b: BoardView, ms: Seq<Movement>)
    requires
        view_wf(b.map),
        b.map.crates.finite(),
        b.map.targets.finite(),
        b.map.crates.len() == b.map.targets.len(),
        replay(b.map, ms) matches Some(w) && crates_on_targets(w),
    ensures
        solved_spec(do_all(b, ms).map),
{
    law_board_follows_replay(b, ms);
    lemma_replay_keeps_crate_count(b.map, ms);
    lemma_replay_keeps_ground(b.map, ms);
    let w = replay(b.map, ms).unwrap();
    vstd::set_lib::lemma_subset_equality(w.crates, w.targets);
}

} // verus!
