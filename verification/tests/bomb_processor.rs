use rust_bomberman::bomb::Bomb;
use rust_bomberman::bomb_processor::BombProcessor;
use rust_bomberman::cell::CellType;
use rust_bomberman::coord::Coord;
use rust_bomberman::map::GameMap;
use rust_bomberman::map_config::MapConfig;
use rust_bomberman::player::Player;

fn seven_by_seven() -> GameMap {
    let map_settings = MapConfig { size: 7, ..Default::default() };
    let players = vec![
        Player::new("Player 1".to_string(), Coord::from(1, 1), 0),
        Player::new("Player 2".to_string(), Coord::from(1, 6), 1),
    ];
    GameMap::new(map_settings, players)
}

#[test]
fn bomb_processor_test_bomb_explosion_center_clear_path() {
    let map = &mut seven_by_seven();

    map.grid.clear_destructable(Coord::from(3, 3));
    map.grid.clear_destructable(Coord::from(2, 3));
    map.grid.clear_destructable(Coord::from(4, 3));
    map.grid.clear_destructable(Coord::from(3, 2));
    map.grid.clear_destructable(Coord::from(3, 4));

    let result = BombProcessor::bomb_explosion_locations(Coord::from(3, 3), map);

    let expected = vec![
        Coord::from(3, 3),
        Coord::from(2, 3),
        Coord::from(3, 2),
        Coord::from(4, 3),
        Coord::from(3, 4),
        Coord::from(1, 3),
        Coord::from(3, 1),
        Coord::from(5, 3),
        Coord::from(3, 5),
    ];

    assert_eq!(result.len(), expected.len());

    for coord in expected {
        assert_eq!(result.contains(&coord), true);
    }
}

#[test]
fn bomb_processor_test_bomb_explosion_corner() {
    let map = &mut seven_by_seven();

    let result = BombProcessor::bomb_explosion_locations(Coord::from(1, 1), map);

    let expected = vec![
        Coord::from(1, 1),
        Coord::from(1, 2),
        Coord::from(1, 3),
        Coord::from(2, 1),
        Coord::from(3, 1),
    ];
    assert_eq!(result, expected);
}

#[test]
fn bomb_processor_test_bomb_explosion_corner_with_destructable() {
    let map = &mut seven_by_seven();

    let result = BombProcessor::bomb_explosion_locations(Coord::from(3, 3), map);

    let expected = vec![
        Coord::from(3, 3),
        Coord::from(3, 2),
        Coord::from(3, 4),
        Coord::from(2, 3),
        Coord::from(4, 3),
    ];
    assert_eq!(result, expected);
}

#[test]
fn bomb_processor_test_bomb_explosion_range_1() {
    let map = &mut seven_by_seven();

    let result = BombProcessor::bomb_explosion_locations(Coord::from(2, 2), map);

    let expected = vec![
        Coord::from(2, 2),
        Coord::from(2, 1),
        Coord::from(2, 3),
        Coord::from(1, 2),
        Coord::from(3, 2),
    ];
    assert_eq!(result, expected);
}

#[test]
fn blast_kills_only_the_first_living_player_per_occurrence() {
    let map_settings = MapConfig { size: 7, ..Default::default() };
    let players = vec![
        Player::new("A".to_string(), Coord::from(1, 1), 0),
        Player::new("B".to_string(), Coord::from(1, 1), 1),
        Player::new("C".to_string(), Coord::from(5, 5), 2),
    ];
    let map = &mut GameMap::new(map_settings, players);
    map.bombs.push(Bomb { position: Coord::from(1, 1), timer: 1, player_id: 2 });

    BombProcessor::process(map);

    assert!(map.bombs.is_empty());
    assert_eq!(map.explosions[0], Coord::from(1, 1));
    assert_eq!(map.explosions.iter().filter(|c| **c == Coord::from(1, 1)).count(), 1);
    assert!(!map.players[0].alive);
    assert_eq!(map.players[0].killed_by, usize::MAX);
    assert_eq!(map.players[0].reason_killed, "bomb");
    assert!(map.players[1].alive);
    assert!(map.players[2].alive);
    assert!(map.winner.is_none());
    for tile in map.explosions.clone() {
        assert!(map.grid.cell_type(tile) != CellType::Destroyable);
    }
    assert!(map.grid.cell_type(Coord::from(1, 1)) == CellType::Empty);
}

#[test]
fn blast_leaves_a_lone_survivor_as_winner() {
    let map_settings = MapConfig { size: 7, ..Default::default() };
    let players = vec![
        Player::new("A".to_string(), Coord::from(1, 1), 0),
        Player::new("B".to_string(), Coord::from(5, 5), 1),
    ];
    let map = &mut GameMap::new(map_settings, players);
    map.bombs.push(Bomb { position: Coord::from(1, 1), timer: 1, player_id: 1 });

    BombProcessor::process(map);

    assert!(!map.players[0].alive);
    assert!(map.players[1].alive);
    assert_eq!(map.winner.as_ref().map(|p| p.id), Some(1));
}

#[test]
fn bomb_not_yet_due_only_ticks() {
    let map = &mut seven_by_seven();
    map.bombs.push(Bomb { position: Coord::from(1, 1), timer: 3, player_id: 0 });

    BombProcessor::process(map);

    assert_eq!(map.bombs.len(), 1);
    assert_eq!(map.bombs[0].timer, 2);
    assert!(map.explosions.is_empty());
    assert!(map.players[0].alive);
    assert!(map.players[1].alive);
}

#[test]
fn blast_of_the_last_two_leaves_the_last_victim_as_winner() {
    let map_settings = MapConfig { size: 7, ..Default::default() };
    let players = vec![
        Player::new("A".to_string(), Coord::from(1, 1), 0),
        Player::new("B".to_string(), Coord::from(1, 2), 1),
    ];
    let map = &mut GameMap::new(map_settings, players);
    map.bombs.push(Bomb { position: Coord::from(1, 1), timer: 1, player_id: 0 });

    BombProcessor::process(map);

    assert!(!map.players[0].alive);
    assert!(!map.players[1].alive);
    assert_eq!(map.winner.as_ref().map(|p| p.id), Some(1));
}
