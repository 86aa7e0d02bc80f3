# sokoban

A Sokoban library verified with Verus: levels in XSB format, a board that
plays, undoes and redoes movements, and a best-first solver whose solutions
are proved to solve the level.

## Layout

- `src/` — the verified library.
  - `vector`, `direction`, `movement`, `tile`: positions, the four
    directions, moves and pushes with their LURD notation, cell flags.
  - `run_length`, `text`: run-length encoding of rows; character helpers.
  - `level`, `parse`, `load`, `export`, `reload`: the level grid, building a
    level from rows, reading every level of an XSB text, writing it back, and
    why what is written reads back as the same level.
  - `board`, `replay`: playing a level; replaying a list of movements.
  - `reach`, `positions`, `path`: reachability, position lists, paths.
  - `optimal`: the cheapest-first search of the two optimal strategies.
  - `solver`, `pushable`, `moves`, `deadlock`: the solver, its lower bounds
    and tunnels; the paths along which a crate can be pushed; the fewest
    moves of the player that bring a crate onto a target; freeze deadlocks.
  - `normalize`, `similar`, `symmetry`: standardizing a level for telling
    similar levels apart, and why similar levels get the same standard form.
  - `crate_path`, `records`: the cells a crate can be pushed to; which
    stored solution to keep.
  - `interaction`, `playback`: the decisions of the game screen: where a
    click leads, walking the player and pushing a crate along a path, the
    marks of an automatic move, reporting targets reached and left, a frame
    of automatic solving; and what playing those steps does to the board.
  - `hashing`, `clock`: SipHash of a grid; the time limit of the solver.
- `tests/` — tests of the library.
- `app/` — a command-line program: reads level files, solves the levels,
  keeps levels and solutions in SQLite, reads its configuration from TOML.

## Main properties

- A solution returned by `Solver::search` can be made move by move on a
  board from the start of the level and leaves every crate on a target
  (`solves`, `law_solution_solves_board`). With `OptimalMovePush` it has the
  fewest moves of all solutions, then the fewest pushes; with
  `OptimalPushMove` the fewest pushes, then the fewest moves; with either,
  `NoSolution` means the level has none (`optimal::optimal_search`, a
  cheapest-first search over where the player and the crates stand).
- Undoing a step gives back the board; redoing an undone step gives it back
  again (`law_undo_after_do`, `law_redo_after_undo`, `law_undo_after_redo`).
- Run-length decoding undoes encoding (`law_rle_decode_undoes_encode`).
- The map `export_map` writes reads back as one level with the same grid,
  player, crates, targets and walls, for a level with no wall on a target,
  as many crates as targets and no blank row (`law_export_then_load`).
- LURD text and movements convert back and forth (`law_lurd_roundtrip`).
- Standardizing a level ignores where in its area the player starts and its
  decorations (`law_normalize_ignores_player_cell`,
  `law_normalize_ignores_decoration`); a quarter turn or a mirror image gets
  a standard form with the same hash, and the same grid wherever no two
  different turns of the level share a hash (`law_normalize_ignores_rotation`,
  `law_normalize_ignores_mirror`).
- The paths along which a crate can be pushed are all found, each with the
  fewest pushes (`box_pushable_paths_with_positions`); `crate_reachable_path`
  lists every cell the crate can be pushed to, each once, with the cell it is
  pushed from.
- The minimum-push bounds are the fewest pushes, and the minimum-move bounds
  the fewest moves of the player, pushes included, that bring a crate alone
  onto a target (`pushes_to_target_bound`, `moves_to_target_bound`).
- Each search step takes the first state of smallest priority and adds
  exactly its successors with a new hash (`search_step`); each successor's
  added movements are a shortest walk to the cell behind a crate followed by
  pushes in one direction.
- A map built from rows and written back gives the rows back
  (`law_load_then_export`); redoing a push after undoing it restores the
  board as it was right after that push (`law_redo_push_after_undo_push`).
- A click on a cell to which the selected crate can be pushed brings that
  crate, and only it, there; a walk to a cell the player reaches brings the
  player there (`law_click_pushes_crate`, `law_push_plan_moves_crate`,
  `law_walk_reaches_target`).
- Storing solutions keeps the best one (`law_record_keeps_the_best`).
