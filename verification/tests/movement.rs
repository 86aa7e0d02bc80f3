use sokoban::direction::Direction;
use sokoban::movement::{Movement, Movements};
use sokoban::vector::Vector2;

#[test]
fn lurd_round_trip() {
    let movements = Movements::from_lurd("ulDRrdLU");
    assert_eq!(movements.len(), 8);
    assert_eq!(movements.lurd(), "ulDRrdLU");
    assert_eq!(movements.move_count(), 8);
    assert_eq!(movements.push_count(), 4);
}

#[test]
fn movement_direction_and_push() {
    let push = Movement::Push(Direction::Left);
    let step = Movement::Move(Direction::Down);
    assert_eq!(push.direction(), Direction::Left);
    assert!(push.is_push());
    assert_eq!(step.direction(), Direction::Down);
    assert!(!step.is_push());
    assert_eq!(push.to_char(), 'L');
    assert_eq!(Movement::from_char('d'), step);
}

#[test]
fn empty_movements() {
    let movements = Movements::new();
    assert!(movements.is_empty());
    assert_eq!(movements.lurd(), "");
    assert_eq!(movements.push_count(), 0);
}

#[test]
fn direction_vectors_round_trip() {
    for d in Direction::all() {
        assert_eq!(Direction::from_vector(d.to_vector()), Some(d));
    }
    assert_eq!(Direction::Up.to_vector(), Vector2::new(0, -1));
    assert_eq!(Direction::from_vector(Vector2::new(1, 1)), None);
}
