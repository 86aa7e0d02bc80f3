use sokoban::level::{Error, Level};
use sokoban::tile::{Tile, CRATE, FLOOR, PLAYER, TARGET, WALL};
use sokoban::vector::Vector2;

const SIMPLE: &str = "#####\n#@$.#\n#####\n";

#[test]
fn load_one_level() {
    let levels = Level::load_from_memory(SIMPLE).unwrap();
    assert_eq!(levels.len(), 1);
    let level = &levels[0];
    assert_eq!(level.dimensions(), Vector2::new(5, 3));
    assert_eq!(level.player_position(), Vector2::new(1, 1));
    assert_eq!(level.crate_positions, vec![Vector2::new(2, 1)]);
    assert_eq!(level.target_positions, vec![Vector2::new(3, 1)]);
    let tile = level.at(&Vector2::new(2, 1)).unwrap();
    assert!(tile.contains(Tile(CRATE)));
    assert!(tile.contains(Tile(FLOOR)));
    assert!(level.at(&Vector2::new(0, 0)).unwrap().contains(Tile(WALL)));
    assert!(level.at(&Vector2::new(1, 1)).unwrap().contains(Tile(PLAYER)));
    assert!(level.at(&Vector2::new(3, 1)).unwrap().contains(Tile(TARGET)));
    assert_eq!(level.at(&Vector2::new(5, 1)), None);
}

#[test]
fn load_levels_with_metadata_and_comments() {
    let text = "; a comment\n#####\n#@$.#\n#####\nTitle: First\n\n\
                Comment:\nanything here\ncomment-end\n####\n#@*#\n####\nauthor: someone\n";
    let levels = Level::load_from_memory(text).unwrap();
    assert_eq!(levels.len(), 2);
    assert_eq!(levels[0].metadata, vec![("title".to_string(), "First".to_string())]);
    assert_eq!(levels[1].dimensions(), Vector2::new(4, 3));
    assert_eq!(levels[1].metadata, vec![("author".to_string(), "someone".to_string())]);
}

#[test]
fn load_run_length_rows() {
    let levels = Level::load_from_memory("5#|#@$.#|5#").unwrap();
    assert_eq!(levels.len(), 1);
    assert_eq!(levels[0].dimensions(), Vector2::new(5, 3));
}

#[test]
fn load_errors() {
    assert_eq!(
        Level::load_from_memory("#####\n#@@$.#\n#####\n").err(),
        Some(Error::MoreThanOnePlayer)
    );
    assert_eq!(Level::load_from_memory("#####\n# $.#\n#####\n").err(), Some(Error::NoPlayer));
    assert_eq!(
        Level::load_from_memory("#####\n#@$$.#\n#####\n").err(),
        Some(Error::MismatchBetweenCratesAndTargets)
    );
    assert_eq!(
        Level::load_from_memory("#####\n#@$x.#\n#####\n").err(),
        Some(Error::InvalidCharacter('x'))
    );
}

#[test]
fn new_level_from_rows() {
    let rows = vec!["####".to_string(), "#@*#".to_string(), "####".to_string()];
    let level = Level::new(rows, Vector2::new(4, 3), Vec::new()).unwrap();
    assert_eq!(level.crate_positions, vec![Vector2::new(2, 1)]);
    assert_eq!(level.target_positions, vec![Vector2::new(2, 1)]);
}

#[test]
fn reachable_cells_stop_at_walls_and_crates() {
    let levels = Level::load_from_memory("######\n#@ $ #\n######\n").err();
    assert_eq!(levels, Some(Error::MismatchBetweenCratesAndTargets));
    let level = &Level::load_from_memory("######\n#@ $.#\n######\n").unwrap()[0];
    let mut cells = level.reachable_cells(&Vector2::new(1, 1), WALL, &level.crate_positions);
    cells.sort_by_key(|p| (p.y, p.x));
    assert_eq!(cells, vec![Vector2::new(1, 1), Vector2::new(2, 1)]);
}

#[test]
fn exported_map_loads_back() {
    let text = "  ####\n###  #\n#  $ #\n# #.@#\n#    #\n######\n";
    let level = Level::load_from_memory(text).unwrap().remove(0);
    let exported = level.export_map();
    let back = Level::load_from_memory(&exported).unwrap();
    assert_eq!(back.len(), 1);
    let back = &back[0];
    assert_eq!(back.dimensions(), level.dimensions());
    assert_eq!(back.player_position(), level.player_position());
    assert_eq!(back.crate_positions, level.crate_positions);
    assert_eq!(back.target_positions, level.target_positions);
    for y in 0..level.dimensions().y {
        for x in 0..level.dimensions().x {
            let p = Vector2::new(x, y);
            assert_eq!(
                back.at(&p).unwrap().contains(Tile(WALL)),
                level.at(&p).unwrap().contains(Tile(WALL))
            );
        }
    }
}

#[test]
fn blank_row_splits_an_exported_map() {
    let level = Level::new(
        vec!["####".to_string(), "".to_string(), "#@*#".to_string(), "####".to_string()],
        Vector2::new(4, 4),
        Vec::new(),
    )
    .unwrap();
    let exported = level.export_map();
    assert_eq!(exported, "####\n    \n#@*#\n####\n");
    assert_eq!(Level::load_from_memory(&exported).err(), Some(Error::NoPlayer));
}

#[test]
fn loaded_rows_export_as_written() {
    let rows = vec!["#####".to_string(), "#@$.#".to_string(), "# *+#".to_string(), "#####".to_string()];
    let err = Level::new(rows.clone(), Vector2::new(5, 4), Vec::new()).err();
    assert_eq!(err, Some(Error::MoreThanOnePlayer));
    let rows = vec!["#####".to_string(), "#@$.#".to_string(), "# * #".to_string(), "#####".to_string()];
    let level = Level::new(rows.clone(), Vector2::new(5, 4), Vec::new()).unwrap();
    let expected: String = rows.iter().map(|r| format!("{}\n", r)).collect();
    assert_eq!(level.export_map(), expected);
}

#[test]
fn checked_loading() {
    let levels = Level::load_checked(SIMPLE, 8).unwrap().unwrap();
    assert_eq!(levels.len(), 1);
    assert_eq!(Level::load_checked("5#|#@$.#|5#", 8).unwrap().unwrap()[0].dimensions(), Vector2::new(5, 3));
    assert!(Level::load_checked("2(2(#\n", 8).is_none());
}
