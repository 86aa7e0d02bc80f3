use sokoban::board::Board;
use sokoban::direction::Direction;
use sokoban::level::Level;
use sokoban::vector::Vector2;

fn board(text: &str) -> Board {
    Board::with_map(Level::load_from_memory(text).unwrap().remove(0))
}

#[test]
fn push_solves_and_undo_restores() {
    let mut b = board("######\n#@ $.#\n######\n");
    assert!(b.moveable(Direction::Right));
    assert!(!b.moveable(Direction::Up));
    b.do_action(Direction::Right);
    assert!(!b.is_solved());
    b.do_action(Direction::Right);
    assert!(b.is_solved());
    assert_eq!(b.actions().lurd(), "rR");
    assert_eq!(b.player_orientation(), Direction::Right);
    b.undo_push();
    assert_eq!(b.actions().lurd(), "r");
    assert_eq!(b.undone_actions().lurd(), "R");
    assert_eq!(b.map.crate_positions, vec![Vector2::new(3, 1)]);
    b.redo_push();
    assert!(b.is_solved());
    assert_eq!(b.undone_actions().lurd(), "");
}

#[test]
fn blocked_step_changes_nothing() {
    let mut b = board("#####\n#@$.#\n#####\n");
    b.do_action(Direction::Left);
    b.do_action(Direction::Up);
    assert!(b.actions().is_empty());
    assert_eq!(b.map.player_position, Vector2::new(1, 1));
    assert_eq!(b.player_orientation(), Direction::Down);
}

#[test]
fn undo_move_then_redo_move() {
    let mut b = board("######\n#@ $.#\n######\n");
    b.do_action(Direction::Right);
    b.undo_move();
    assert_eq!(b.map.player_position, Vector2::new(1, 1));
    b.redo_move();
    assert_eq!(b.map.player_position, Vector2::new(2, 1));
    assert_eq!(b.actions().lurd(), "r");
}

#[test]
fn new_step_forgets_undone_movements() {
    let mut b = board("######\n#@ $.#\n######\n");
    b.do_action(Direction::Right);
    b.undo_move();
    b.do_action(Direction::Right);
    assert_eq!(b.undone_actions().lurd(), "");
}

#[test]
fn redo_push_after_undo_push_leaves_later_moves_undone() {
    let mut b = board("#######\n#@ $ .#\n#    .#\n#   $ #\n#######\n");
    b.do_action(Direction::Right);
    b.do_action(Direction::Right);
    b.do_action(Direction::Down);
    b.do_action(Direction::Left);
    assert_eq!(b.actions().lurd(), "rRdl");
    b.undo_push();
    assert_eq!(b.actions().lurd(), "r");
    b.redo_push();
    assert_eq!(b.actions().lurd(), "rR");
    assert_eq!(b.map.player_position, Vector2::new(3, 1));
    assert_eq!(b.undone_actions().lurd(), "ld");
}

#[test]
fn level_is_the_map_being_played() {
    let mut b = board("######\n#@ $.#\n######\n");
    b.do_action(Direction::Right);
    assert_eq!(b.level().player_position, Vector2::new(2, 1));
    assert_eq!(b.level().player_position, b.map.player_position);
}
