use sokoban::board::Board;
use sokoban::level::Level;
use sokoban::solver::{LowerBoundMethod, SolveError, Solver, Strategy};
use std::time::Duration;

fn solve(text: &str, strategy: Strategy, method: LowerBoundMethod) -> Result<String, SolveError> {
    let level = Level::load_from_memory(text).unwrap().remove(0);
    let mut solver = Solver::new(level.clone(), strategy, method);
    let solution = solver.search(Duration::from_secs(10))?;
    let mut board = Board::with_map(level);
    for movement in &solution.0 {
        board.do_action(movement.direction());
    }
    assert!(board.is_solved());
    Ok(solution.lurd())
}

const CORRIDOR: &str = "######\n#@ $.#\n######\n";
const ROOM: &str = "#######\n#     #\n# $ . #\n#  @  #\n#######\n";
const TWO: &str = "#######\n#.  $ #\n# @ $.#\n#     #\n#######\n";

#[test]
fn solves_a_corridor() {
    assert_eq!(solve(CORRIDOR, Strategy::Fast, LowerBoundMethod::MinimumMove), Ok("rR".to_string()));
}

#[test]
fn every_strategy_and_method_solves() {
    for strategy in [Strategy::Fast, Strategy::Mixed, Strategy::OptimalMovePush, Strategy::OptimalPushMove] {
        for method in [
            LowerBoundMethod::MinimumPush,
            LowerBoundMethod::MinimumMove,
            LowerBoundMethod::ManhattanDistance,
        ] {
            assert!(solve(ROOM, strategy, method).is_ok());
            assert!(solve(TWO, strategy, method).is_ok());
        }
    }
}

#[test]
fn unsolvable_level_has_no_solution() {
    let text = "#####\n#@ .#\n#$  #\n#####\n";
    assert_eq!(solve(text, Strategy::Fast, LowerBoundMethod::MinimumMove), Err(SolveError::NoSolution));
}

#[test]
fn solved_start_needs_no_movement() {
    let text = "####\n#@*#\n####\n";
    assert_eq!(solve(text, Strategy::Fast, LowerBoundMethod::ManhattanDistance), Ok(String::new()));
}

#[test]
fn lower_bounds_are_zero_on_targets() {
    let level = Level::load_from_memory(ROOM).unwrap().remove(0);
    let width = level.dimensions().x as usize;
    for method in [LowerBoundMethod::MinimumPush, LowerBoundMethod::MinimumMove, LowerBoundMethod::ManhattanDistance] {
        let solver = Solver::new(level.clone(), Strategy::Fast, method);
        let bounds = solver.lower_bounds();
        assert_eq!(bounds[2 * width + 4], Some(0));
        assert!(bounds[2 * width + 2].unwrap() >= 1);
        assert_eq!(bounds[0], None);
    }
}

#[test]
fn manhattan_bounds_are_distances() {
    let level = Level::load_from_memory(ROOM).unwrap().remove(0);
    let width = level.dimensions().x as usize;
    let solver = Solver::new(level, Strategy::Fast, LowerBoundMethod::ManhattanDistance);
    let bounds = solver.lower_bounds();
    assert_eq!(bounds[2 * width + 2], Some(2));
    assert_eq!(bounds[width + 1], Some(4));
}

#[test]
fn first_state_is_the_start() {
    let level = Level::load_from_memory(ROOM).unwrap().remove(0);
    let solver = Solver::new(level.clone(), Strategy::Mixed, LowerBoundMethod::ManhattanDistance);
    let state = solver.best_state().unwrap();
    assert_eq!(state.player_position, level.player_position);
    assert_eq!(state.box_positions, level.crate_positions);
    assert!(state.actions.is_empty());
    assert_eq!(state.heuristic(), 2);
    assert_eq!(solver.strategy(), Strategy::Mixed);
}

#[test]
fn tunnels_are_found_in_corridors() {
    let level = Level::load_from_memory("########\n#@ $  .#\n########\n").unwrap().remove(0);
    let solver = Solver::new(level, Strategy::Fast, LowerBoundMethod::MinimumPush);
    let width = 8;
    assert_eq!(solver.tunnels().len(), 24);
    // pushing right from (3,1) lands the crate on (4,1), between walls
    let right = 3;
    assert!(solver.tunnels()[width + 3][right]);
}

#[test]
fn successors_push_each_crate_in_turn() {
    let level = Level::load_from_memory(CORRIDOR).unwrap().remove(0);
    let solver = Solver::new(level, Strategy::Fast, LowerBoundMethod::MinimumMove);
    let start = solver.best_state().unwrap();
    let next = start.successors(&solver);
    assert_eq!(next.len(), 1);
    assert_eq!(next[0].player_position, sokoban::vector::Vector2::new(3, 1));
    assert_eq!(next[0].box_positions, vec![sokoban::vector::Vector2::new(4, 1)]);
    assert_eq!(next[0].actions.lurd(), "rR");
}

#[test]
fn successors_carry_crates_through_tunnels() {
    let level = Level::load_from_memory("########\n#@ $  .#\n########\n").unwrap().remove(0);
    let solver = Solver::new(level, Strategy::Fast, LowerBoundMethod::MinimumPush);
    let start = solver.best_state().unwrap();
    let next = start.successors(&solver);
    assert_eq!(next.len(), 1);
    assert_eq!(next[0].box_positions, vec![sokoban::vector::Vector2::new(6, 1)]);
    assert_eq!(next[0].player_position, sokoban::vector::Vector2::new(5, 1));
    assert_eq!(next[0].actions.lurd(), "rRRR");
}

#[test]
fn minimum_move_bounds_count_the_fewest_moves() {
    let level = Level::load_from_memory("#######\n#@ $ .#\n#######\n").unwrap().remove(0);
    let width = level.dimensions().x as usize;
    let solver = Solver::new(level, Strategy::Fast, LowerBoundMethod::MinimumMove);
    let bounds = solver.lower_bounds();
    assert_eq!(bounds[width + 5], Some(0));
    // walk two cells to the crate, then one push
    assert_eq!(bounds[width + 4], Some(3));
    assert_eq!(bounds[width + 3], Some(3));
    assert_eq!(bounds[width + 2], Some(3));
    assert_eq!(bounds[width + 1], None);
}

#[test]
fn minimum_push_bounds_count_the_fewest_pushes() {
    let level = Level::load_from_memory("######\n#@ $.#\n######\n").unwrap().remove(0);
    let solver = Solver::new(level, Strategy::Fast, LowerBoundMethod::MinimumPush);
    let bounds = solver.lower_bounds();
    let width = 6;
    assert_eq!(bounds[width + 4], Some(0));
    assert_eq!(bounds[width + 3], Some(1));
    assert_eq!(bounds[width + 2], Some(2));
    assert_eq!(bounds[width + 1], None);
}

#[test]
fn optimal_strategies_find_the_shortest_solution() {
    for method in [LowerBoundMethod::MinimumPush, LowerBoundMethod::MinimumMove] {
        assert_eq!(solve(ROOM, Strategy::OptimalMovePush, method), Ok("lluRR".to_string()));
        assert_eq!(solve(ROOM, Strategy::OptimalPushMove, method), Ok("lluRR".to_string()));
    }
    let moves = solve(TWO, Strategy::OptimalMovePush, LowerBoundMethod::MinimumMove).unwrap();
    for strategy in [Strategy::Fast, Strategy::Mixed, Strategy::OptimalPushMove] {
        let other = solve(TWO, strategy, LowerBoundMethod::MinimumMove).unwrap();
        assert!(moves.len() <= other.len());
    }
}

#[test]
fn optimal_strategies_prove_a_level_unsolvable() {
    let text = "#####\n#@ .#\n#$  #\n#####\n";
    for strategy in [Strategy::OptimalMovePush, Strategy::OptimalPushMove] {
        assert_eq!(solve(text, strategy, LowerBoundMethod::MinimumPush), Err(SolveError::NoSolution));
    }
}
