use vstd::prelude::*;
use crate::vector::Vector2;
use crate::direction::{Direction, step, step_back, step_exec, step_back_exec, lemma_step_back_step, steppable};
use crate::reach::adjacent;
use crate::movement::{Movement, Movements, movement_direction};
use crate::tile::{
    Tile, has_flag, WALL, CRATE, TARGET, PLAYER, lemma_insert_flag, lemma_remove_flag,
    lemma_remove_then_insert, lemma_insert_then_remove,
};
use crate::positions::contains_position;
use crate::path::{find_path, path_ok};
use crate::interaction::{
    shortest_walk, path_directions, lemma_walk_shape, push_plan, apply_all, lemma_apply_all_split,
    lemma_plan_extend, lemma_plan_metadata, grid_copy,
};
use crate::level::{
    Level, LevelView, vtile, view_wf, in_bounds_spec, index_of, move_player_view,
    move_crate_view, without, with, lemma_index_injective, lemma_index_bounds,
};

verus! {

/// The movement that stepping in direction `d` makes on level `v`: `None`
/// where a wall, the edge of the grid, or a crate that cannot move is in the way.
pub open spec fn action_of(v: LevelView, d: Direction) -> Option<Movement> {
    let next = step(v.player, d);
    if !in_bounds_spec(v.size, next) || has_flag(vtile(v, next), WALL) {
        None
    } else if v.crates.contains(next) {
        let beyond = step(next, d);
        if !in_bounds_spec(v.size, beyond) || has_flag(vtile(v, beyond), WALL)
            || has_flag(vtile(v, beyond), CRATE) {
            None
        } else {
            Some(Movement::Push(d))
        }
    } else {
        Some(Movement::Move(d))
    }
}

/// The level after stepping in direction `d`.
pub open spec fn apply(v: LevelView, d: Direction) -> LevelView {
    let next = step(v.player, d);
    match action_of(v, d) {
        None => v,
        Some(Movement::Move(_)) => move_player_view(v, next),
        Some(Movement::Push(_)) => move_player_view(move_crate_view(v, next, step(next, d)), next),
    }
}

/// Whether movement `m` can be taken back on level `v`: the cell behind the
/// player is free and, for a push, a crate stands in front of the player.
pub open spec fn undoable(v: LevelView, m: Movement) -> bool {
    let d = movement_direction(m);
    let back = step_back(v.player, d);
    &&& in_bounds_spec(v.size, back)
    &&& !has_flag(vtile(v, back), WALL)
    &&& !v.crates.contains(back)
    &&& m is Push ==> v.crates.contains(step(v.player, d))
}

/// The level with movement `m` taken back.
pub open spec fn unapply(v: LevelView, m: Movement) -> LevelView {
    let d = movement_direction(m);
    let back = step_back(v.player, d);
    match m {
        Movement::Move(_) => move_player_view(v, back),
        Movement::Push(_) => move_crate_view(move_player_view(v, back), step(v.player, d), v.player),
    }
}

/// Whether the movements `hs`, the last one first, can be taken back from `v`.
pub open spec fn history_ok(v: LevelView, hs: Seq<Movement>) -> bool
    decreases hs.len(),
{
    if hs.len() == 0 {
        true
    } else {
        undoable(v, hs.last()) && history_ok(unapply(v, hs.last()), hs.drop_last())
    }
}

/// Whether the movements `us`, the last one first, can be made again from `v`.
pub open spec fn redo_ok(v: LevelView, us: Seq<Movement>) -> bool
    decreases us.len(),
{
    if us.len() == 0 {
        true
    } else {
        let m = us.last();
        action_of(v, movement_direction(m)) == Some(m) && redo_ok(
            apply(v, movement_direction(m)),
            us.drop_last(),
        )
    }
}

/// The abstract value of a board: the level and the two histories.
#[verifier::ext_equal]
pub struct BoardView {
    pub map: LevelView,
    pub actions: Seq<Movement>,
    pub undone_actions: Seq<Movement>,
}

/// A well-formed abstract board: its level is well formed, its history can be
/// taken back and its undone movements can be made again.
pub open spec fn board_view_wf(b: BoardView) -> bool {
    &&& view_wf(b.map)
    &&& history_ok(b.map, b.actions)
    &&& redo_ok(b.map, b.undone_actions)
}

/// The board after stepping in direction `d`: a movement that happens is
/// recorded and forgets the undone movements.
pub open spec fn do_spec(b: BoardView, d: Direction) -> BoardView {
    match action_of(b.map, d) {
        None => b,
        Some(m) => BoardView {
            map: apply(b.map, d),
            actions: b.actions.push(m),
            undone_actions: Seq::empty(),
        },
    }
}

/// The board with its last movement taken back.
pub open spec fn undo_spec(b: BoardView) -> BoardView {
    let m = b.actions.last();
    BoardView {
        map: unapply(b.map, m),
        actions: b.actions.drop_last(),
        undone_actions: b.undone_actions.push(m),
    }
}

/// The board with its last undone movement made again.
pub open spec fn redo_spec(b: BoardView) -> BoardView {
    let m = b.undone_actions.last();
    BoardView {
        map: apply(b.map, movement_direction(m)),
        actions: b.actions.push(m),
        undone_actions: b.undone_actions.drop_last(),
    }
}

/// Movements taken back up to and including the last push, or all of them.
pub open spec fn undo_push_spec(b: BoardView) -> BoardView
    decreases b.actions.len(),
{
    if b.actions.len() == 0 {
        b
    } else if b.actions.last() is Push {
        undo_spec(b)
    } else {
        undo_push_spec(undo_spec(b))
    }
}

/// Movements made again up to and including the next push, or all of them.
pub open spec fn redo_push_spec(b: BoardView) -> BoardView
    decreases b.undone_actions.len(),
{
    if b.undone_actions.len() == 0 {
        b
    } else if b.undone_actions.last() is Push {
        redo_spec(b)
    } else {
        redo_push_spec(redo_spec(b))
    }
}

/// Whether every crate stands on a target and every target holds a crate.
pub open spec fn solved_spec(v: LevelView) -> bool {
    v.crates == v.targets
}


/// Stepping and then taking the movement back gives the level back.
pub proof fn lemma_apply_unapply(v: LevelView, d: Direction)
    requires
        view_wf(v),
        action_of(v, d) is Some,
    ensures
        undoable(apply(v, d), action_of(v, d).unwrap()),
        unapply(apply(v, d), action_of(v, d).unwrap()) == v,
        view_wf(apply(v, d)),
{
    let p = v.player;
    let n = step(p, d);
    let m = action_of(v, d).unwrap();
    lemma_step_back_step(p, d);
    let ip = index_of(v.size, p);
    let inn = index_of(v.size, n);
    lemma_index_bounds(v.size, p);
    lemma_index_bounds(v.size, n);
    if ip == inn {
        lemma_index_injective(v.size, p, n);
    }
    let tp = vtile(v, p).0;
    let tn = vtile(v, n).0;
    assert(vtile(v, p) == vtile(v, p));
    assert(vtile(v, n) == vtile(v, n));
    let w = apply(v, d);
    match m {
        Movement::Move(_) => {
            lemma_remove_flag(tp, PLAYER, WALL);
            assert(vtile(w, p) == without(vtile(v, p), PLAYER));
            lemma_remove_then_insert(tp, PLAYER);
            lemma_insert_then_remove(tn, PLAYER);
            assert(unapply(w, m).tiles =~= v.tiles);
            assert(unapply(w, m) =~= v);
            lemma_view_wf_move_player(v, n);
        },
        Movement::Push(_) => {
            let c = step(n, d);
            lemma_step_back_step(n, d);
            let ic = index_of(v.size, c);
            lemma_index_bounds(v.size, c);
            if ic == inn {
                lemma_index_injective(v.size, c, n);
            }
            if ic == ip {
                lemma_index_injective(v.size, c, p);
            }
            let tc = vtile(v, c).0;
            assert(vtile(v, c) == vtile(v, c));
            lemma_remove_flag(tp, PLAYER, WALL);
            lemma_remove_flag(tn, CRATE, WALL);
            let mc = move_crate_view(v, n, c);
            assert(vtile(mc, n) == without(vtile(v, n), CRATE));
            assert(vtile(w, p) == without(vtile(mc, p), PLAYER));
            assert(vtile(mc, p) == vtile(v, p));
            assert(w.crates.contains(c));
            assert(!w.crates.contains(p));
            lemma_remove_then_insert(tp, PLAYER);
            lemma_remove_flag(tn, CRATE, PLAYER);
            lemma_insert_then_remove(tn & !CRATE, PLAYER);
            lemma_remove_then_insert(tn, CRATE);
            lemma_insert_then_remove(tc, CRATE);
            assert(unapply(w, m).tiles =~= v.tiles);
            assert(unapply(w, m).crates =~= v.crates);
            assert(unapply(w, m) =~= v);
            lemma_view_wf_move_crate(v, n, c);
            lemma_view_wf_move_player(move_crate_view(v, n, c), n);
        },
    }
}

/// Taking a movement back and making it again gives the level back.
pub proof fn lemma_unapply_apply(v: LevelView, m: Movement)
    requires
        view_wf(v),
        undoable(v, m),
    ensures
        view_wf(unapply(v, m)),
        action_of(unapply(v, m), movement_direction(m)) == Some(m),
        apply(unapply(v, m), movement_direction(m)) == v,
{
    let d = movement_direction(m);
    let p = v.player;
    let b = step_back(p, d);
    lemma_step_back_step(p, d);
    lemma_index_bounds(v.size, p);
    lemma_index_bounds(v.size, b);
    if index_of(v.size, p) == index_of(v.size, b) {
        lemma_index_injective(v.size, p, b);
    }
    let tp = vtile(v, p).0;
    let tb = vtile(v, b).0;
    assert(vtile(v, p) == vtile(v, p));
    assert(vtile(v, b) == vtile(v, b));
    let u1 = move_player_view(v, b);
    lemma_view_wf_move_player(v, b);
    lemma_remove_flag(tp, PLAYER, WALL);
    lemma_remove_flag(tp, PLAYER, CRATE);
    lemma_remove_then_insert(tp, PLAYER);
    lemma_insert_then_remove(tb, PLAYER);
    assert(vtile(u1, p) == without(vtile(v, p), PLAYER));
    match m {
        Movement::Move(_) => {
            let u = unapply(v, m);
            assert(u == u1);
            assert(apply(u, d).tiles =~= v.tiles);
            assert(apply(u, d) =~= v);
        },
        Movement::Push(_) => {
            let c = step(p, d);
            lemma_index_bounds(v.size, c);
            if index_of(v.size, c) == index_of(v.size, p) {
                lemma_index_injective(v.size, c, p);
            }
            if index_of(v.size, c) == index_of(v.size, b) {
                lemma_index_injective(v.size, c, b);
            }
            let tc = vtile(v, c).0;
            assert(vtile(v, c) == vtile(v, c));
            lemma_view_wf_move_crate(u1, c, p);
            let u = unapply(v, m);
            assert(u == move_crate_view(u1, c, p));
            lemma_remove_flag(tc, CRATE, WALL);
            lemma_remove_flag(tc, CRATE, CRATE);
            lemma_insert_then_remove(tp & !PLAYER, CRATE);
            lemma_remove_then_insert(tc, CRATE);
            assert(vtile(u, c) == without(vtile(v, c), CRATE));
            assert(apply(u, d).tiles =~= v.tiles);
            assert(apply(u, d).crates =~= v.crates);
            assert(apply(u, d) =~= v);
        },
    }
}

/// Moving the player to a free cell keeps the level well formed.
pub proof fn lemma_view_wf_move_player(v: LevelView, to: Vector2)
    requires
        view_wf(v),
        in_bounds_spec(v.size, to),
        !has_flag(vtile(v, to), WALL),
        !v.crates.contains(to),
    ensures
        view_wf(move_player_view(v, to)),
{
    let w = move_player_view(v, to);
    let p = v.player;
    lemma_index_bounds(v.size, p);
    lemma_index_bounds(v.size, to);
    assert forall|q: Vector2| #![trigger vtile(w, q)] in_bounds_spec(w.size, q) implies {
        &&& has_flag(vtile(w, q), PLAYER) == (q == w.player)
        &&& has_flag(vtile(w, q), CRATE) == w.crates.contains(q)
        &&& has_flag(vtile(w, q), TARGET) == w.targets.contains(q)
        &&& has_flag(vtile(w, q), WALL) ==> !has_flag(vtile(w, q), PLAYER) && !has_flag(
            vtile(w, q),
            CRATE,
        )
    } by {
        lemma_index_bounds(v.size, q);
        let t0 = vtile(v, q).0;
        assert(vtile(v, q) == vtile(v, q));
        if index_of(v.size, q) == index_of(v.size, to) {
            lemma_index_injective(v.size, q, to);
        }
        if index_of(v.size, q) == index_of(v.size, p) {
            lemma_index_injective(v.size, q, p);
        }

        if q == to && q == p {
            lemma_remove_flag(t0, PLAYER, PLAYER);
            lemma_insert_flag(t0 & !PLAYER, PLAYER, PLAYER);
            lemma_remove_flag(t0, PLAYER, CRATE);
            lemma_insert_flag(t0 & !PLAYER, PLAYER, CRATE);
            lemma_remove_flag(t0, PLAYER, TARGET);
            lemma_insert_flag(t0 & !PLAYER, PLAYER, TARGET);
            lemma_remove_flag(t0, PLAYER, WALL);
            lemma_insert_flag(t0 & !PLAYER, PLAYER, WALL);
        } else if q == to {
            lemma_insert_flag(t0, PLAYER, PLAYER);
            lemma_insert_flag(t0, PLAYER, CRATE);
            lemma_insert_flag(t0, PLAYER, TARGET);
            lemma_insert_flag(t0, PLAYER, WALL);
        } else if q == p {
            lemma_remove_flag(t0, PLAYER, PLAYER);
            lemma_remove_flag(t0, PLAYER, CRATE);
            lemma_remove_flag(t0, PLAYER, TARGET);
            lemma_remove_flag(t0, PLAYER, WALL);
        }
    }
}

/// Moving a crate to a free cell keeps the level well formed.
pub proof fn lemma_view_wf_move_crate(v: LevelView, from: Vector2, to: Vector2)
    requires
        view_wf(v),
        v.crates.contains(from),
        !v.crates.contains(to),
        in_bounds_spec(v.size, to),
        !has_flag(vtile(v, to), WALL),
        to != v.player,
    ensures
        view_wf(move_crate_view(v, from, to)),
{
    let w = move_crate_view(v, from, to);
    assert forall|q: Vector2| #[trigger] w.crates.contains(q) implies in_bounds_spec(w.size, q) by {
        if q != to {
            assert(v.crates.contains(q));
        }
    }
    assert(in_bounds_spec(v.size, from));
    assert(from != to);
    lemma_index_bounds(v.size, from);
    lemma_index_bounds(v.size, to);
    assert forall|q: Vector2| #![trigger vtile(w, q)] in_bounds_spec(w.size, q) implies {
        &&& has_flag(vtile(w, q), PLAYER) == (q == w.player)
        &&& has_flag(vtile(w, q), CRATE) == w.crates.contains(q)
        &&& has_flag(vtile(w, q), TARGET) == w.targets.contains(q)
        &&& has_flag(vtile(w, q), WALL) ==> !has_flag(vtile(w, q), PLAYER) && !has_flag(
            vtile(w, q),
            CRATE,
        )
    } by {
        lemma_index_bounds(v.size, q);
        let t0 = vtile(v, q).0;
        assert(vtile(v, q) == vtile(v, q));
        if index_of(v.size, q) == index_of(v.size, to) {
            lemma_index_injective(v.size, q, to);
        }
        if index_of(v.size, q) == index_of(v.size, from) {
            lemma_index_injective(v.size, q, from);
        }
        if q == to {
            lemma_insert_flag(t0, CRATE, PLAYER);
            lemma_insert_flag(t0, CRATE, CRATE);
            lemma_insert_flag(t0, CRATE, TARGET);
            lemma_insert_flag(t0, CRATE, WALL);
        } else if q == from {
            lemma_remove_flag(t0, CRATE, PLAYER);
            lemma_remove_flag(t0, CRATE, CRATE);
            lemma_remove_flag(t0, CRATE, TARGET);
            lemma_remove_flag(t0, CRATE, WALL);
        }
    }
}

/// A level being played, with the movements made so far and those undone.
pub struct Board {
    pub map: Level,
    actions: Movements,
    undone_actions: Movements,
}

impl View for Board {
    type V = BoardView;

    closed spec fn view(&self) -> BoardView {
        BoardView {
            map: self.map@,
            actions: self.actions@,
            undone_actions: self.undone_actions@,
        }
    }
}

impl Board {
    /// A well-formed board: the level is well formed and both histories can be replayed.
    pub closed spec fn wf(&self) -> bool {
        &&& self.map.wf()
        &&& history_ok(self.map@, self.actions@)
        &&& redo_ok(self.map@, self.undone_actions@)
    }

    /// A well-formed board has a well-formed abstract value, so the laws
    /// stated of abstract boards hold of it.
    pub proof fn lemma_wf_board_view(&self)
        requires
            self.wf(),
        ensures
            board_view_wf(self@),
    {
        self.map.lemma_wf_view();
    }

    /// The level being played: the field `map`, whose abstract value is the
    /// level of the board's abstract value, well formed on a well-formed board.
    pub fn level(&self) -> (r: &Level)
        ensures
            r@ == self@.map,
            self.wf() ==> r.wf(),
    {
        &self.map
    }

    /// Creates a new board with the specified level.
    pub fn with_map(map: Level) -> (r: Self)
        requires
            map.wf(),
        ensures
            r.wf(),
            r@ == (BoardView {
                map: map@,
                actions: Seq::empty(),
                undone_actions: Seq::empty(),
            }),
    {
        Board { map, actions: Movements::new(), undone_actions: Movements::new() }
    }

    /// Checks if the player can move or push in the specified direction.
    pub fn moveable(&self, direction: Direction) -> (r: bool)
        requires
            self.wf(),
        ensures
            r == (action_of(self@.map, direction) is Some),
    {
        proof {
            self.map.lemma_wf_view();
        }
        let player = self.map.player_position;
        let next = step_exec(&player, direction);
        if !self.map.in_bounds(&next) {
            return false;
        }
        let tile = self.map.at_unchecked(&next);
        assert(tile == vtile(self@.map, next));
        if tile.intersects(Tile(WALL)) {
            return false;
        }
        if tile.intersects(Tile(CRATE)) {
            let beyond = step_exec(&next, direction);
            if !self.map.in_bounds(&beyond) {
                return false;
            }
            let beyond_tile = self.map.at_unchecked(&beyond);
            assert(beyond_tile == vtile(self@.map, beyond));
            if beyond_tile.intersects(Tile(WALL)) || beyond_tile.intersects(Tile(CRATE)) {
                return false;
            }
        }
        true
    }

    /// Moves the player or pushes a crate in the specified direction.
    pub fn do_action(&mut self, direction: Direction)
        requires
            old(self).wf(),
        ensures
            final(self).wf(),
            final(self)@ == do_spec(old(self)@, direction),
    {
        proof {
            self.map.lemma_wf_view();
        }
        let ghost v = self.map@;
        let ghost old_actions = self.actions@;
        let player = self.map.player_position;
        let next = step_exec(&player, direction);
        if !self.map.in_bounds(&next) {
            return;
        }
        let tile = self.map.at_unchecked(&next);
        assert(tile == vtile(v, next));
        if tile.intersects(Tile(WALL)) {
            return;
        }
        let movement;
        if tile.intersects(Tile(CRATE)) {
            let beyond = step_exec(&next, direction);
            if !self.map.in_bounds(&beyond) {
                return;
            }
            let beyond_tile = self.map.at_unchecked(&beyond);
            assert(beyond_tile == vtile(v, beyond));
            if beyond_tile.intersects(Tile(WALL)) || beyond_tile.intersects(Tile(CRATE)) {
                return;
            }
            self.map.set_crate_position(&next, &beyond);
            proof {
                lemma_remove_flag(tile.0, CRATE, WALL);
            }
            movement = Movement::Push(direction);
        } else {
            movement = Movement::Move(direction);
        }
        assert(!self.map.crate_positions@.contains(next));
        self.map.set_player_position(&next);
        self.actions.push(movement);
        self.undone_actions.clear();
        proof {
            assert(action_of(v, direction) == Some(movement));
            lemma_apply_unapply(v, direction);
            assert(self.map@ == apply(v, direction));
            assert(self.actions@.drop_last() == old_actions);
            assert(self.actions@.last() == movement);
            assert(history_ok(self.map@, self.actions@));
        }
    }

    /// Undoes the last push, and the moves after it.
    pub fn undo_push(&mut self)
        requires
            old(self).wf(),
        ensures
            final(self).wf(),
            final(self)@ == undo_push_spec(old(self)@),
    {
        while !self.actions.is_empty()
            invariant
                self.wf(),
                undo_push_spec(self@) == undo_push_spec(old(self)@),
            decreases self.actions@.len(),
        {
            let history = self.actions.last().unwrap();
            if history.is_push() {
                self.undo_move();
                return;
            }
            self.undo_move();
        }
    }

    /// Undoes the last move.
    pub fn undo_move(&mut self)
        requires
            old(self).wf(),
            old(self)@.actions.len() > 0,
        ensures
            final(self).wf(),
            final(self)@ == undo_spec(old(self)@),
    {
        proof {
            self.map.lemma_wf_view();
        }
        let ghost v = self.map@;
        let ghost old_undone = self.undone_actions@;
        let history = self.actions.pop().unwrap();
        let direction = history.direction();
        let player = self.map.player_position;
        let back = step_back_exec(&player, direction);
        proof {
            assert(undoable(v, history));
            lemma_unapply_apply(v, history);
            lemma_step_back_step(player, direction);
            assert(self.map.tile(back) == vtile(v, back));
        }
        if history.is_push() {
            let box_position = step_exec(&player, direction);
            self.map.set_player_position(&back);
            proof {
                assert(self.map.tile(player) == without(vtile(v, player), PLAYER));
                lemma_remove_flag(vtile(v, player).0, PLAYER, WALL);
            }
            self.map.set_crate_position(&box_position, &player);
        } else {
            self.map.set_player_position(&back);
        }
        self.undone_actions.push(history);
        proof {
            assert(self.map@ == unapply(v, history));
            assert(self.undone_actions@.drop_last() == old_undone);
            assert(self.undone_actions@.last() == history);
        }
    }

    /// Redoes the last undone push, and the moves before it.
    pub fn redo_push(&mut self)
        requires
            old(self).wf(),
        ensures
            final(self).wf(),
            final(self)@ == redo_push_spec(old(self)@),
    {
        while !self.undone_actions.is_empty()
            invariant
                self.wf(),
                redo_push_spec(self@) == redo_push_spec(old(self)@),
            decreases self.undone_actions@.len(),
        {
            let history = self.undone_actions.last().unwrap();
            if history.is_push() {
                self.redo_move();
                return;
            }
            self.redo_move();
        }
    }

    /// Redoes the last undone move.
    pub fn redo_move(&mut self)
        requires
            old(self).wf(),
            old(self)@.undone_actions.len() > 0,
        ensures
            final(self).wf(),
            final(self)@ == redo_spec(old(self)@),
    {
        let ghost b = self@;
        let history = self.undone_actions.pop().unwrap();
        let mut saved = Movements::new();
        std::mem::swap(&mut saved, &mut self.undone_actions);
        proof {
            assert(action_of(b.map, movement_direction(history)) == Some(history));
        }
        self.do_action(history.direction());
        self.undone_actions = saved;
    }

    /// Checks if the level is solved: the crates stand exactly on the targets.
    pub fn is_solved(&self) -> (r: bool)
        requires
            self.wf(),
        ensures
            r == solved_spec(self@.map),
    {
        let crates = &self.map.crate_positions;
        let targets = &self.map.target_positions;
        let mut i: usize = 0;
        let mut all_on_target = true;
        while i < crates.len()
            invariant
                i <= crates@.len(),
                all_on_target == (forall|k: int| 0 <= k < i ==> targets@.contains(#[trigger] crates@[k])),
            decreases crates@.len() - i,
        {
            if !contains_position(targets, &crates[i]) {
                all_on_target = false;
            }
            i = i + 1;
        }
        let mut j: usize = 0;
        let mut all_covered = true;
        while j < targets.len()
            invariant
                j <= targets@.len(),
                all_covered == (forall|k: int| 0 <= k < j ==> crates@.contains(#[trigger] targets@[k])),
            decreases targets@.len() - j,
        {
            if !contains_position(crates, &targets[j]) {
                all_covered = false;
            }
            j = j + 1;
        }
        proof {
            let cs = self@.map.crates;
            let ts = self@.map.targets;
            if all_on_target && all_covered {
                assert forall|p: Vector2| cs.contains(p) == ts.contains(p) by {
                    if cs.contains(p) {
                        let k = choose|k: int| 0 <= k < crates@.len() && crates@[k] == p;
                        assert(targets@.contains(crates@[k]));
                    }
                    if ts.contains(p) {
                        let k = choose|k: int| 0 <= k < targets@.len() && targets@[k] == p;
                        assert(crates@.contains(targets@[k]));
                    }
                }
                assert(cs =~= ts);
            } else if !all_on_target {
                let k = choose|k: int| 0 <= k < crates@.len() && !targets@.contains(#[trigger] crates@[k]);
                assert(cs.contains(crates@[k]));
            } else {
                let k = choose|k: int| 0 <= k < targets@.len() && !crates@.contains(#[trigger] targets@[k]);
                assert(ts.contains(targets@[k]));
            }
        }
        all_on_target && all_covered
    }

    /// The movements made so far.
    pub fn actions(&self) -> (r: &Movements)
        ensures
            r@ == self@.actions,
    {
        &self.actions
    }

    /// The movements undone and not yet redone, the next one to redo last.
    pub fn undone_actions(&self) -> (r: &Movements)
        ensures
            r@ == self@.undone_actions,
    {
        &self.undone_actions
    }

    /// Returns the player's current orientation: the direction of the last
    /// movement, or down before any.
    pub fn player_orientation(&self) -> (r: Direction)
        ensures
            self@.actions.len() == 0 ==> r == Direction::Down,
            self@.actions.len() > 0 ==> r == movement_direction(self@.actions.last()),
    {
        match self.actions.last() {
            Some(action) => action.direction(),
            None => Direction::Down,
        }
    }
}

/// A movement that happens can be undone, and undoing it restores the level and
/// the history; the movement then waits to be redone.
pub proof fn law_undo_after_do(b: BoardView, d: Direction)
    requires
        board_view_wf(b),
        action_of(b.map, d) is Some,
    ensures
        undo_spec(do_spec(b, d)).map == b.map,
        undo_spec(do_spec(b, d)).actions == b.actions,
        undo_spec(do_spec(b, d)).undone_actions == seq![action_of(b.map, d).unwrap()],
{
    lemma_apply_unapply(b.map, d);
    assert(do_spec(b, d).actions.drop_last() == b.actions);
    assert(Seq::<Movement>::empty().push(action_of(b.map, d).unwrap()) == seq![action_of(b.map, d).unwrap()]);
}

/// Redoing an undone movement restores the board exactly.
pub proof fn law_redo_after_undo(b: BoardView)
    requires
        board_view_wf(b),
        b.actions.len() > 0,
    ensures
        redo_spec(undo_spec(b)) == b,
{
    lemma_unapply_apply(b.map, b.actions.last());
    assert(undo_spec(b).undone_actions.drop_last() == b.undone_actions);
    assert(b.actions.drop_last().push(b.actions.last()) == b.actions);
    assert(redo_spec(undo_spec(b)) =~= b);
}

/// Undoing a movement keeps an abstract board well formed.
pub proof fn lemma_undo_keeps_wf(b: BoardView)
    requires
        board_view_wf(b),
        b.actions.len() > 0,
    ensures
        board_view_wf(undo_spec(b)),
{
    let m = b.actions.last();
    lemma_unapply_apply(b.map, m);
    assert(undo_spec(b).undone_actions.drop_last() == b.undone_actions);
    assert(undo_spec(b).undone_actions.last() == m);
}

/// The board with the plain moves made after its last push taken back.
pub open spec fn undo_moves(b: BoardView) -> BoardView
    decreases b.actions.len(),
{
    if b.actions.len() == 0 || b.actions.last() is Push {
        b
    } else {
        undo_moves(undo_spec(b))
    }
}

/// Redoing a push after undoing it restores the board as it was right after
/// that push: with the plain moves made after it still taken back.
pub proof fn law_redo_push_after_undo_push(b: BoardView)
    requires
        board_view_wf(b),
        exists|i: int| 0 <= i < b.actions.len() && #[trigger] b.actions[i] is Push,
    ensures
        redo_push_spec(undo_push_spec(b)) == undo_moves(b),
    decreases b.actions.len(),
{
    if b.actions.last() is Push {
        law_redo_after_undo(b);
        assert(undo_spec(b).undone_actions.last() == b.actions.last());
    } else {
        let i = choose|i: int| 0 <= i < b.actions.len() && #[trigger] b.actions[i] is Push;
        lemma_undo_keeps_wf(b);
        let b2 = undo_spec(b);
        assert(i < b.actions.len() - 1);
        assert(b2.actions[i] == b.actions[i]);
        law_redo_push_after_undo_push(b2);
    }
}

/// Undoing a redone movement restores the board exactly.
pub proof fn law_undo_after_redo(b: BoardView)
    requires
        board_view_wf(b),
        b.undone_actions.len() > 0,
    ensures
        undo_spec(redo_spec(b)) == b,
{
    let m = b.undone_actions.last();
    lemma_apply_unapply(b.map, movement_direction(m));
    assert(redo_spec(b).actions.drop_last() == b.actions);
    assert(b.undone_actions.drop_last().push(m) == b.undone_actions);
    assert(undo_spec(redo_spec(b)) =~= b);
}

/// A step into a wall, or against a crate that cannot move, changes nothing.
pub proof fn law_blocked_step_changes_nothing(b: BoardView, d: Direction)
    requires
        action_of(b.map, d) is None,
    ensures
        do_spec(b, d) == b,
{
}

/// Stepping keeps the level well formed: the player and the crates stay off
/// the walls and the targets stay where they are.
pub proof fn law_step_keeps_level_wf(v: LevelView, d: Direction)
    requires
        view_wf(v),
    ensures
        view_wf(apply(v, d)),
        apply(v, d).targets == v.targets,
        apply(v, d).size == v.size,
{
    if action_of(v, d) is Some {
        lemma_apply_unapply(v, d);
    }
}

impl Board {
    /// The directions that walk the player along a shortest path to `target`
    /// through cells holding no wall and no crate; none where no path leads
    /// there.
    pub fn directions_to(&self, target: &Vector2) -> (r: Vec<Direction>)
        requires
            self.wf(),
        ensures
            shortest_walk(self@.map, *target, r@),
    {
        proof {
            self.map.lemma_wf_view();
        }
        if !self.map.in_bounds(target) {
            proof {
                reveal(shortest_walk);
                let v = self@.map;
                assert forall|q: Seq<Vector2>| !path_ok(v, v.crates, v.player, *target, q) by {
                    if path_ok(v, v.crates, v.player, *target, q) && q.len() >= 2 {
                        assert(crate::path::player_open(v, v.crates, q[q.len() - 1]));
                    }
                }
            }
            return Vec::new();
        }
        match find_path(&self.map, &self.map.crate_positions, self.map.player_position, *target) {
            Some(path) => {
                let r = path_directions(&path);
                proof {
                    lemma_walk_shape(self.map.player_position, r@);
                    reveal(shortest_walk);
                }
                r
            },
            None => {
                proof {
                    reveal(shortest_walk);
                }
                Vec::new()
            },
        }
    }
    /// The directions that push a crate along `path`: for each step of the
    /// path, a shortest walk of the player to the cell behind the crate (none
    /// where no walk leads there), then a step in the direction of the push,
    /// each taken on the board as the earlier ones left it.
    pub fn push_directions(&self, path: &Vec<Vector2>) -> (r: Vec<Direction>)
        requires
            self.wf(),
            forall|k: int| 1 <= k < path@.len() ==> adjacent(path@[k - 1], #[trigger] path@[k]),
            forall|k: int| 0 <= k < path@.len() ==> steppable(#[trigger] path@[k]),
        ensures
            exists|lens: Seq<nat>| push_plan(self@.map, path@, r@, lens),
    {
        let mut r: Vec<Direction> = Vec::new();
        if path.len() == 0 {
            assert(push_plan(self@.map, path@, r@, Seq::empty()));
            return r;
        }
        let mut scratch = Board::with_map(grid_copy(&self.map));
        let ghost v0 = scratch@.map;
        let ghost mut lens: Seq<nat> = Seq::empty();
        let mut i: usize = 1;
        proof {
            assert(path@.take(1).len() == 1);
            assert(push_plan(v0, path@.take(1), r@, lens));
        }
        while i < path.len()
            invariant
                1 <= i <= path@.len(),
                forall|k: int| 1 <= k < path@.len() ==> adjacent(path@[k - 1], #[trigger] path@[k]),
                forall|k: int| 0 <= k < path@.len() ==> steppable(#[trigger] path@[k]),
                scratch.wf(),
                scratch@.map == apply_all(v0, r@),
                push_plan(v0, path@.take(i as int), r@, lens),
            decreases path@.len() - i,
        {
            let p = path[i - 1];
            let q = path[i];
            proof {
                assert(adjacent(path@[i - 1], path@[i as int]));
                assert(steppable(path@[i - 1]));
            }
            let d = Direction::from_vector(q.sub(&p)).unwrap();
            let behind = step_back_exec(&p, d);
            let walk = scratch.directions_to(&behind);
            let ghost before = r@;
            let mut j: usize = 0;
            while j < walk.len()
                invariant
                    j <= walk@.len(),
                    scratch.wf(),
                    r@ == before + walk@.take(j as int),
                    scratch@.map == apply_all(v0, r@),
                decreases walk@.len() - j,
            {
                let ghost prev = r@;
                scratch.do_action(walk[j]);
                r.push(walk[j]);
                proof {
                    assert(r@.drop_last() == prev);
                    assert(r@ =~= before + walk@.take(j + 1));
                }
                j = j + 1;
            }
            let ghost prev = r@;
            scratch.do_action(d);
            r.push(d);
            proof {
                assert(r@.drop_last() == prev);
                assert(walk@.take(walk@.len() as int) =~= walk@);
                assert(path@.take(i as int).last() == p);
                lemma_apply_all_split(v0, r@, 0);
                lemma_plan_extend(v0, path@.take(i as int), before, lens, q, walk@);
                lens = lens.push(walk@.len());
                assert(path@.take(i as int).push(q) =~= path@.take(i + 1));
                assert(r@ =~= before + walk@ + seq![d]);
            }
            i = i + 1;
        }
        proof {
            assert(path@.take(path@.len() as int) =~= path@);
            lemma_plan_metadata(self@.map, path@, r@, lens);
        }
        r
    }

    /// The level on the board.
    pub fn map(&self) -> (r: &Level)
        requires
            self.wf(),
        ensures
            r.wf(),
            r@ == self@.map,
    {
        &self.map
    }
}

} // verus!
