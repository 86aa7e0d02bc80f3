use sokoban::direction::Direction;
use sokoban::level::Level;
use sokoban::movement::Movements;
use sokoban::normalize::normalized_area;
use sokoban::pushable::{box_pushable_paths, box_pushable_paths_with_positions, PushState};
use sokoban::records::{best_move_change, best_push_change, RecordChange};
use sokoban::tile::{Tile, CRATE, FLOOR, TARGET, VOID, WALL};
use sokoban::vector::Vector2;

fn level(text: &str) -> Level {
    Level::load_from_memory(text).unwrap().remove(0)
}

#[test]
fn export_map_writes_xsb() {
    let l = level("#####\n#@$.#\n#####\n");
    assert_eq!(l.export_map(), "#####\n#@$.#\n#####\n");
    let l = level("#####\n#+*$#\n#####\n");
    assert_eq!(l.export_map(), "#####\n#+*$#\n#####\n");
}

#[test]
fn export_metadata_writes_key_value_lines() {
    let l = level("#####\n#@$.#\n#####\ntitle: First\nauthor: Someone\n");
    assert_eq!(l.export_metadata(), "title: First\nauthor: Someone\n");
}

#[test]
fn clear_removes_flags_everywhere() {
    let mut l = level("#####\n#@$.#\n#####\n");
    l.clear(Tile(WALL | TARGET));
    for t in &l.data {
        assert!(!t.intersects(Tile(WALL | TARGET)));
    }
    assert!(l.at(&Vector2::new(2, 1)).unwrap().contains(Tile(CRATE)));
}

#[test]
fn at_mut_changes_one_tile() {
    let mut l = level("#####\n#@$.#\n#####\n");
    if let Some(tile) = l.at_mut(&Vector2::new(0, 0)) {
        tile.remove(Tile(WALL));
    }
    assert!(!l.at(&Vector2::new(0, 0)).unwrap().intersects(Tile(WALL)));
    assert!(l.at_mut(&Vector2::new(9, 9)).is_none());
    l.at_unchecked_mut(&Vector2::new(4, 2)).insert(Tile(FLOOR));
    assert!(l.at(&Vector2::new(4, 2)).unwrap().contains(Tile(FLOOR | WALL)));
}

#[test]
fn normalized_area_is_leftmost_then_topmost() {
    let area = vec![Vector2::new(3, 1), Vector2::new(1, 4), Vector2::new(1, 2), Vector2::new(2, 0)];
    assert_eq!(normalized_area(&area), Vector2::new(1, 2));
}

#[test]
fn reachable_area_follows_the_floor() {
    let l = level("######\n#@ $.#\n######\n");
    let mut area = l.reachable_area(&Vector2::new(1, 1), Tile(WALL | CRATE));
    area.sort_by_key(|p| (p.x, p.y));
    assert_eq!(area, vec![Vector2::new(1, 1), Vector2::new(2, 1)]);
}

#[test]
fn normalize_makes_mirror_images_alike() {
    let mut a = level("#####\n#@$.#\n#####\n");
    let mut b = level("#####\n#.$@#\n#####\n");
    a.normalize();
    b.normalize();
    assert_eq!(a.data, b.data);
    assert_eq!(a.size, b.size);
    assert_eq!(a.player_position, b.player_position);
}

#[test]
fn normalize_makes_quarter_turns_alike() {
    let mut a = level("#####\n#@$.#\n#####\n");
    let mut b = level("###\n#.#\n#$#\n#@#\n###\n");
    a.normalize();
    b.normalize();
    assert_eq!(a.data, b.data);
    assert_eq!(a.size, b.size);
}

#[test]
fn normalize_ignores_decorations() {
    let mut a = level("######\n#@$.##\n######\n");
    let mut b = a.clone();
    b.data[0] = Tile(VOID);
    b.data[5] = Tile(VOID);
    a.normalize();
    b.normalize();
    assert_eq!(a.data, b.data);
}

#[test]
fn normalize_ignores_where_the_player_starts() {
    let mut a = level("######\n#@  .#\n# $  #\n######\n");
    let mut b = level("######\n#   .#\n# $ @#\n######\n");
    a.normalize();
    b.normalize();
    assert_eq!(a.data, b.data);
}

#[test]
fn crate_reachable_path_lists_pushes() {
    let l = level("######\n#@ $.#\n######\n");
    let path = l.crate_reachable_path(&Vector2::new(3, 1));
    assert_eq!(path, vec![(Vector2::new(4, 1), Vector2::new(3, 1))]);
    let room = level("#######\n#     #\n# $ . #\n#  @  #\n#######\n");
    let tree = room.crate_reachable_path(&Vector2::new(2, 2));
    assert!(!tree.is_empty());
    for (to, from) in &tree {
        assert_eq!((to.x - from.x).abs() + (to.y - from.y).abs(), 1);
    }
}

#[test]
fn pushable_paths_end_with_their_push() {
    let l = level("#######\n#     #\n# $ . #\n#  @  #\n#######\n");
    let paths = box_pushable_paths(&l, &Vector2::new(2, 2));
    assert!(paths
        .iter()
        .any(|(state, path)| state.box_position == Vector2::new(4, 2) && path.len() == 3));
    for (state, path) in &paths {
        assert_eq!(path[0], Vector2::new(2, 2));
        assert_eq!(*path.last().unwrap(), state.box_position);
    }
    let corridor = level("######\n#@ $.#\n######\n");
    let paths = box_pushable_paths_with_positions(&corridor, &Vector2::new(3, 1), &Vec::new());
    // With no other crate given, the player may stand on either side.
    assert_eq!(
        paths,
        vec![
            (
                PushState { box_position: Vector2::new(4, 1), push_direction: Direction::Right },
                vec![Vector2::new(3, 1), Vector2::new(4, 1)]
            ),
            (
                PushState { box_position: Vector2::new(2, 1), push_direction: Direction::Left },
                vec![Vector2::new(3, 1), Vector2::new(2, 1)]
            ),
            (
                PushState { box_position: Vector2::new(1, 1), push_direction: Direction::Left },
                vec![Vector2::new(3, 1), Vector2::new(2, 1), Vector2::new(1, 1)]
            ),
        ]
    );
}

#[test]
fn record_changes() {
    let long = Movements::from_lurd("rrrR");
    let short = Movements::from_lurd("rR");
    let pushy = Movements::from_lurd("RRl");
    assert_eq!(best_move_change(&short, None), RecordChange::Insert);
    assert_eq!(best_move_change(&short, Some(&long)), RecordChange::Replace);
    assert_eq!(best_move_change(&long, Some(&short)), RecordChange::Keep);
    assert_eq!(best_push_change(&short, Some(&pushy)), RecordChange::Replace);
    assert_eq!(best_push_change(&pushy, Some(&short)), RecordChange::Keep);
    assert_eq!(best_push_change(&pushy, None), RecordChange::Insert);
}

#[test]
fn pushable_paths_are_shortest() {
    let room = level("#######\n#     #\n# $ . #\n#  @  #\n#######\n");
    let paths = box_pushable_paths(&room, &Vector2::new(2, 2));
    for (state, path) in &paths {
        let dx = (state.box_position.x - 2).abs();
        let dy = (state.box_position.y - 2).abs();
        assert!(path.len() as i32 - 1 >= dx + dy);
    }
    let to_target = paths
        .iter()
        .filter(|(s, _)| s.box_position == Vector2::new(4, 2))
        .map(|(_, p)| p.len())
        .min();
    assert_eq!(to_target, Some(3));
}

#[test]
fn crate_reachable_path_follows_the_player() {
    let l = level("######\n#@$ .#\n######\n");
    let path = l.crate_reachable_path(&Vector2::new(2, 1));
    assert_eq!(
        path,
        vec![(Vector2::new(3, 1), Vector2::new(2, 1)), (Vector2::new(4, 1), Vector2::new(3, 1))]
    );
}
