use rust_bomberman::commands::{PlaceBomb, PlayerCommand, Wait};
use rust_bomberman::coord::Coord;
use rust_bomberman::map::GameMap;
use rust_bomberman::map_config::MapConfig;
use rust_bomberman::player::Player;

#[test]
fn test_place_bomb_basic() {
    let mut map = GameMap::new(MapConfig { size: 7, ..MapConfig::default() }, vec![]);

    let player_pos = Coord::from(3, 3);
    map.players = vec![Player::new("player1".to_string(), player_pos, 0)];

    let place_bomb = PlaceBomb;
    place_bomb.try_execute(&mut map, 0);

    assert!(map.bombs[0].position == player_pos);
}

#[test]
fn wait_should_not_move() {
    let start = Coord::from(5, 5);
    let mut map = GameMap::new(MapConfig { size: 11, ..MapConfig::default() }, vec![]);
    map.players = vec![Player::new("player1".to_string(), start, 0)];

    let wait = Wait;
    wait.try_execute(&mut map, 0);

    let new_pos = map.players[0].position;
    assert_eq!(new_pos.row, start.row);
    assert_eq!(new_pos.col, start.col);
}

#[test]
fn wait_should_not_bomb() {
    let config = MapConfig { size: 7, ..MapConfig::default() };
    let mut map = GameMap::new(config, vec![]);

    let wait = Wait;
    wait.try_execute(&mut map, 0);

    assert!(map.bombs.is_empty());
}
