use sokoban::board::Board;
use sokoban::direction::Direction;
use sokoban::interaction::{
    auto_move_marks, auto_solve_step, mouse_click, take_all_steps, take_step, AppState, AutoMoveState,
    GoalChange, SolveStatus,
};
use sokoban::level::Level;
use sokoban::solver::{LowerBoundMethod, Solver, Strategy};
use sokoban::vector::Vector2;
use std::time::Duration;

fn level(text: &str) -> Level {
    Level::load_from_memory(text).unwrap().remove(0)
}

fn board(text: &str) -> Board {
    Board::with_map(level(text))
}

const ROOM: &str = "#######\n#     #\n# $ . #\n#  @  #\n#######\n";

#[test]
fn directions_to_walk_a_shortest_path() {
    let b = board(ROOM);
    let ds = b.directions_to(&Vector2::new(1, 1));
    assert_eq!(ds.len(), 4);
    let mut p = b.map.player_position;
    for d in &ds {
        let v = d.to_vector();
        p = Vector2::new(p.x + v.x, p.y + v.y);
    }
    assert_eq!(p, Vector2::new(1, 1));
    assert!(b.directions_to(&Vector2::new(0, 0)).is_empty());
    assert!(b.directions_to(&Vector2::new(2, 2)).is_empty());
    assert!(b.directions_to(&b.map.player_position).is_empty());
}

#[test]
fn push_directions_walk_behind_then_push() {
    let b = board("######\n#@ $.#\n######\n");
    let ds = b.push_directions(&vec![Vector2::new(3, 1), Vector2::new(4, 1)]);
    assert_eq!(ds, vec![Direction::Right, Direction::Right]);
    assert!(b.push_directions(&vec![Vector2::new(3, 1)]).is_empty());
}

#[test]
fn click_on_crate_starts_a_crate_move() {
    let b = board(ROOM);
    let r = mouse_click(&b, AppState::Main, AutoMoveState::Player, Vector2::new(2, 2));
    assert_eq!(r.state, AppState::AutoMove);
    assert!(matches!(r.auto_move, AutoMoveState::Box { position, ref paths } if position == Vector2::new(2, 2) && paths.is_empty()));
    assert!(r.directions.is_empty());
}

#[test]
fn click_on_player_starts_a_player_move() {
    let b = board(ROOM);
    let r = mouse_click(&b, AppState::Main, AutoMoveState::Player, Vector2::new(3, 3));
    assert_eq!(r.state, AppState::AutoMove);
    assert!(matches!(r.auto_move, AutoMoveState::Player));
    assert!(r.directions.is_empty());
}

#[test]
fn click_elsewhere_walks_there() {
    let b = board(ROOM);
    let r = mouse_click(&b, AppState::Main, AutoMoveState::Player, Vector2::new(5, 3));
    assert_eq!(r.state, AppState::Main);
    assert_eq!(r.directions, vec![Direction::Right, Direction::Right]);
    let r = mouse_click(&b, AppState::AutoMove, AutoMoveState::Player, Vector2::new(3, 1));
    assert_eq!(r.state, AppState::Main);
    assert_eq!(r.directions, vec![Direction::Up, Direction::Up]);
}

#[test]
fn crate_move_marks_and_click_push_the_crate() {
    let b = board("######\n#@ $.#\n######\n");
    let entered = auto_move_marks(&b, AutoMoveState::Box { position: Vector2::new(3, 1), paths: Vec::new() });
    assert_eq!(entered.state, AppState::AutoMove);
    assert_eq!(entered.marks, vec![Vector2::new(4, 1)]);
    let r = mouse_click(&b, AppState::AutoMove, entered.auto_move, Vector2::new(4, 1));
    assert_eq!(r.state, AppState::Main);
    assert_eq!(r.directions, vec![Direction::Right, Direction::Right]);
    let mut played = board("######\n#@ $.#\n######\n");
    assert!(take_all_steps(&mut played, &r.directions));
}

#[test]
fn crate_move_drops_dead_corners() {
    // Pushing the crate left would leave it in a corner off any target.
    let b = board("#####\n#  .#\n# $@#\n#####\n");
    let entered = auto_move_marks(&b, AutoMoveState::Box { position: Vector2::new(2, 2), paths: Vec::new() });
    assert!(!entered.marks.contains(&Vector2::new(1, 2)));
    let stuck = board("#####\n#@$.#\n#####\n");
    let none = auto_move_marks(&stuck, AutoMoveState::Box { position: Vector2::new(2, 1), paths: Vec::new() });
    assert_eq!(none.marks, vec![Vector2::new(3, 1)]);
}

#[test]
fn player_move_marks_the_walkable_cells() {
    let b = board("######\n#@ $.#\n######\n");
    let entered = auto_move_marks(&b, AutoMoveState::Player);
    assert_eq!(entered.state, AppState::AutoMove);
    assert_eq!(entered.marks, vec![Vector2::new(2, 1)]);
}

#[test]
fn steps_report_targets_and_solving() {
    let mut b = board("#######\n#@ $. #\n#######\n");
    let r = take_step(&mut b, Direction::Right);
    assert_eq!(r.goal_change, GoalChange::Unchanged);
    assert!(!r.solved);
    let r = take_step(&mut b, Direction::Right);
    assert_eq!(r.goal_change, GoalChange::Entered);
    assert!(r.solved);
    let r = take_step(&mut b, Direction::Right);
    assert_eq!(r.goal_change, GoalChange::Left);
    assert!(!r.solved);
}

#[test]
fn auto_solve_hands_over_a_solution() {
    let origin = level("######\n#@ $.#\n######\n");
    let mut solver = Solver::new(origin.clone(), Strategy::Fast, LowerBoundMethod::MinimumMove);
    let step = auto_solve_step(&mut solver, origin, Duration::from_secs(5));
    assert_eq!(step.status, SolveStatus::Solved);
    assert_eq!(step.state, AppState::Main);
    assert_eq!(step.directions, vec![Direction::Right, Direction::Right]);
    let mut b = step.board;
    assert!(take_all_steps(&mut b, &step.directions));
}

#[test]
fn auto_solve_reports_no_solution() {
    let stuck = level("######\n#@ .$#\n######\n");
    let mut solver = Solver::new(stuck.clone(), Strategy::Fast, LowerBoundMethod::MinimumMove);
    let step = auto_solve_step(&mut solver, stuck, Duration::from_secs(5));
    assert_eq!(step.status, SolveStatus::NoSolution);
    assert_eq!(step.state, AppState::Main);
    assert!(step.directions.is_empty());
}

#[test]
fn walking_to_a_reachable_cell_gets_there() {
    let mut b = board(ROOM);
    let crates = b.map.crate_positions.clone();
    let ds = b.directions_to(&Vector2::new(1, 1));
    take_all_steps(&mut b, &ds);
    assert_eq!(b.map.player_position, Vector2::new(1, 1));
    assert_eq!(b.map.crate_positions, crates);
}

#[test]
fn pushing_along_a_path_moves_only_that_crate() {
    let text = "#######\n#     #\n# $ . #\n# $@. #\n#######\n";
    let b = board(text);
    let entered = auto_move_marks(&b, AutoMoveState::Box { position: Vector2::new(2, 2), paths: Vec::new() });
    assert!(entered.marks.contains(&Vector2::new(4, 2)));
    let r = mouse_click(&b, AppState::AutoMove, entered.auto_move, Vector2::new(4, 2));
    let mut played = board(text);
    take_all_steps(&mut played, &r.directions);
    let mut crates = played.map.crate_positions.clone();
    crates.sort_by_key(|p| (p.x, p.y));
    assert_eq!(crates, vec![Vector2::new(2, 3), Vector2::new(4, 2)]);
}
