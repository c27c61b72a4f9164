use rust_bomberman::commands::{try_move_player, Direction};
use rust_bomberman::coord::Coord;
use rust_bomberman::map::GameMap;
use rust_bomberman::map_config::MapConfig;
use rust_bomberman::player::Player;

#[test]
fn test_move_up() {
    let expected = Coord::from(5, 4);
    test_move_command(Direction::Up, expected)
}

#[test]
fn test_move_up_blocked_by_wall() {
    let start = Coord::from(5, 5);
    test_move_command_cannot_move(Direction::Up, start)
}

#[test]
fn test_move_down() {
    let expected = Coord::from(5, 6);
    test_move_command(Direction::Down, expected)
}

#[test]
fn test_move_down_blocked() {
    let start = Coord::from(5, 5);
    test_move_command_cannot_move(Direction::Down, start)
}

#[test]
fn test_move_left() {
    let expected = Coord::from(4, 5);
    test_move_command(Direction::Left, expected)
}

#[test]
fn test_move_left_blocked() {
    let start = Coord::from(5, 5);
    test_move_command_cannot_move(Direction::Left, start)
}

#[test]
fn test_move_right() {
    let expected = Coord::from(6, 5);
    test_move_command(Direction::Right, expected)
}

#[test]
fn test_move_right_blocked() {
    let start = Coord::from(5, 5);
    test_move_command_cannot_move(Direction::Right, start)
}

fn test_move_command(direction: Direction, expected: Coord) {
    let start = Coord::from(5, 5);
    let mut map = GameMap::new(
        MapConfig { size: 11, ..MapConfig::default() },
        vec![Player::new("player1".to_string(), start, 0)],
    );

    try_move_player(&mut map, 0, direction);

    let new_pos = map.players[0].position;
    assert_eq!(new_pos.row, expected.row);
    assert_eq!(new_pos.col, expected.col);
}

fn test_move_command_cannot_move(direction: Direction, start: Coord) {
    let mut map = GameMap::new(
        MapConfig { size: 11, ..MapConfig::default() },
        vec![Player::new("player1".to_string(), start, 0)],
    );
    map.grid.set_wall(start.move_up().expect("Controlled test"));
    map.grid.set_wall(start.move_down().expect("Controlled test"));
    map.grid.set_wall(start.move_left().expect("Controlled test"));
    map.grid.set_wall(start.move_right().expect("Controlled test"));

    try_move_player(&mut map, 0, direction);

    let new_pos = map.players[0].position;
    assert_eq!(new_pos.row, start.row);
    assert_eq!(new_pos.col, start.col);
}
