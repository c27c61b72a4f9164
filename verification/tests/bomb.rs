use rust_bomberman::bomb::Bomb;
use rust_bomberman::coord::Coord;
use rust_bomberman::map::GameMap;
use rust_bomberman::map_config::MapConfig;
use rust_bomberman::player::Player;

fn seven_by_seven() -> GameMap {
    let map_settings = MapConfig { size: 7, ..Default::default() };
    let players = vec![
        Player::new("Player 1".to_string(), Coord::from(1, 1), 0),
        Player::new("Player 2".to_string(), Coord::from(1, 6), 1),
    ];
    GameMap::new(map_settings, players)
}

#[test]
fn bomb_test_bomb_explosion_center_clear_path() {
    let map = &mut seven_by_seven();

    map.grid.clear_destructable(Coord::from(3, 3));
    map.grid.clear_destructable(Coord::from(2, 3));
    map.grid.clear_destructable(Coord::from(4, 3));
    map.grid.clear_destructable(Coord::from(3, 2));
    map.grid.clear_destructable(Coord::from(3, 4));

    let bomb = Bomb::new(Coord::from(3, 3), 0, 0);

    let result = bomb.explosion_locations(map);

    let expected = vec![
        Coord::from(3, 3),
        Coord::from(2, 3),
        Coord::from(3, 2),
        Coord::from(4, 3),
        Coord::from(3, 4),
        Coord::from(1, 3),
        Coord::from(3, 1),
        Coord::from(5, 3),
        Coord::from(3, 5),
    ];

    assert_eq!(result.len(), expected.len());

    for coord in expected {
        assert_eq!(result.contains(&coord), true);
    }
}

#[test]
fn bomb_test_bomb_explosion_corner() {
    let map = &mut seven_by_seven();

    let bomb = Bomb::new(Coord::from(1, 1), 0, 0);

    let result = bomb.explosion_locations(map);

    let expected = vec![
        Coord::from(1, 1),
        Coord::from(1, 2),
        Coord::from(1, 3),
        Coord::from(2, 1),
        Coord::from(3, 1),
    ];
    assert_eq!(result, expected);
}

#[test]
fn bomb_test_bomb_explosion_corner_with_destructable() {
    let map = &mut seven_by_seven();

    let bomb = Bomb::new(Coord::from(3, 3), 0, 0);

    let result = bomb.explosion_locations(map);

    let expected = vec![
        Coord::from(3, 3),
        Coord::from(3, 2),
        Coord::from(3, 4),
        Coord::from(2, 3),
        Coord::from(4, 3),
    ];
    assert_eq!(result, expected);
}

#[test]
fn bomb_test_bomb_explosion_range_1() {
    let map = &mut seven_by_seven();

    let bomb = Bomb::new(Coord::from(2, 2), 0, 0);

    let result = bomb.explosion_locations(map);

    let expected = vec![
        Coord::from(2, 2),
        Coord::from(2, 1),
        Coord::from(2, 3),
        Coord::from(1, 2),
        Coord::from(3, 2),
    ];
    assert_eq!(result, expected);
}
