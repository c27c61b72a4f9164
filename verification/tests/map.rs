use rust_bomberman::bomb::Bomb;
use rust_bomberman::cell::CellType;
use rust_bomberman::coord::Coord;
use rust_bomberman::map::GameMap;
use rust_bomberman::map_config::MapConfig;
use rust_bomberman::player::Player;

#[test]
fn test_bomb_kills_player() {
    let map_settings = MapConfig { size: 7, bomb_timer: 0, ..Default::default() };
    let players = vec![Player::new("P1".to_string(), Coord::from(1, 1), 1)];

    let map = &mut GameMap::new(map_settings, players);
    map.add_bomb(Coord::from(1, 2), 0);

    map.process_bombs();

    let p1 = map.get_player(1).expect("player 1 should exist");
    assert_eq!(p1.is_alive(), false);
    assert_eq!(p1.reason_killed, "bomb");
}

#[test]
fn test_kills_player_when_other_player_was_killed_at_same_location() {
    let map_settings = MapConfig { size: 7, ..Default::default() };
    let players = vec![
        Player::new("P1".to_string(), Coord::from(1, 1), 1),
        Player::new("P2".to_string(), Coord::from(1, 1), 2),
        Player::new("P3".to_string(), Coord::from(1, 2), 3),
    ];
    let map = &mut GameMap::new(map_settings, players);
    map.players.get_mut(0).expect("player 1 should exist").kill(&"bomb".to_string(), 3);

    map.kill_at_location(Coord::from(1, 1), "bomb".to_string(), 3);

    let p1 = map.get_player(1).expect("player 1 should exist");
    assert_eq!(p1.is_alive(), false);
    let p2 = map.get_player(2).expect("player 2 should exist");
    assert_eq!(p2.is_alive(), false);
    let p3 = map.get_player(3).expect("player 3 should exist");
    assert_eq!(p3.is_alive(), true);
}

#[test]
fn test_own_bomb_kills_player_suicide() {
    let map_settings = MapConfig { size: 7, bomb_timer: 0, ..Default::default() };
    let players = vec![Player::new("P1".to_string(), Coord::from(1, 1), 1)];

    let map = &mut GameMap::new(map_settings, players);
    map.add_bomb(Coord::from(1, 2), 1);

    map.process_bombs();

    let p1 = map.get_player(1).expect("player 1 should exist");
    assert_eq!(p1.is_alive(), false);
    assert_eq!(p1.reason_killed, "suicide");
}

#[test]
fn test_handle_shrink_sets_wall_and_kills() {
    let map_settings = MapConfig { size: 7, endgame: 0, ..Default::default() };
    let players = vec![Player::new("P1".to_string(), Coord::from(1, 1), 0)];
    let map = &mut GameMap::new(map_settings, players);

    map.handle_shrink(map.map_settings.endgame);

    assert_eq!(map.grid.cell_type(Coord::from(1, 1)), CellType::Wall);
    let p = map.get_player(0).expect("player exists");
    assert_eq!(p.is_alive(), false);
    assert_eq!(p.reason_killed, "shrink");
}

#[test]
fn test_bomb_chaining_in_range_explodes() {
    let map_settings = MapConfig { size: 7, ..Default::default() };
    let players = vec![Player::new("P1".to_string(), Coord::from(1, 1), 0)];
    let map = &mut GameMap::new(map_settings, players);
    for col in 1..5 {
        map.grid.clear_destructable(Coord::from(col, 5));
    }

    map.bombs.push(Bomb::new(Coord::from(1, 5), 0, 0));
    map.add_bomb(Coord::from(3, 5), 0);
    map.add_bomb(Coord::from(5, 5), 0);

    map.process_bombs();

    assert_eq!(map.bombs.len(), 0)
}

#[test]
fn test_bomb_chaining_ioutside_range_does_not_explodes() {
    let map_settings = MapConfig { size: 7, ..Default::default() };
    let players = vec![Player::new("P1".to_string(), Coord::from(1, 1), 0)];
    let map = &mut GameMap::new(map_settings, players);
    for col in 1..5 {
        map.grid.clear_destructable(Coord::from(col, 5));
    }
    map.bombs.push(Bomb::new(Coord::from(1, 5), 0, 0));
    map.add_bomb(Coord::from(5, 5), 0);

    map.process_bombs();

    assert_eq!(map.bombs.len(), 1)
}

#[test]
fn test_place_bomb_no_duplicate_placement() {
    let map_settings = MapConfig { size: 7, ..Default::default() };
    let players = vec![Player::new("P1".to_string(), Coord::from(1, 1), 0)];
    let map = &mut GameMap::new(map_settings, players);
    map.add_bomb(Coord::from(3, 3), 0);

    map.add_bomb(Coord::from(3, 3), 0);

    assert_eq!(map.bombs.len(), 1);
}

#[test]
fn test_bomb_timer_decreases_all_bomb() {
    let map_settings = MapConfig { size: 7, ..Default::default() };
    let players = vec![Player::new("P1".to_string(), Coord::from(1, 1), 0)];
    let map = &mut GameMap::new(map_settings, players);

    map.add_bomb(Coord::from(1, 2), 0);
    map.add_bomb(Coord::from(2, 1), 0);

    map.bomb_timer_decrease();

    assert!(map.bombs.iter().all(|b| b.timer == 2));
}

#[test]
fn test_remove_bomb_at_location() {
    let map_settings = MapConfig { size: 7, ..Default::default() };
    let players = vec![Player::new("P1".to_string(), Coord::from(1, 1), 0)];
    let map = &mut GameMap::new(map_settings, players);

    map.add_bomb(Coord::from(1, 2), 0);

    map.remove_bombs_at_location(Coord::from(1, 2));
    assert_eq!(map.bombs.len(), 0);
}

#[test]
fn test_two_players_different_tiles_killed_by_one_explosion() {
    let map_settings = MapConfig { size: 7, bomb_timer: 0, bomb_radius: 2, ..Default::default() };
    let players = vec![
        Player::new("P1".to_string(), Coord::from(1, 2), 0),
        Player::new("P2".to_string(), Coord::from(2, 1), 1),
    ];
    let map = &mut GameMap::new(map_settings, players);
    map.add_bomb(Coord::from(1, 1), 0);

    map.process_bombs();

    assert_eq!(map.get_player(0).unwrap().is_alive(), false);
    assert_eq!(map.get_player(1).unwrap().is_alive(), false);
}

#[test]
fn test_simultaneous_bombs_kill_multiple_players() {
    let map_settings = MapConfig { size: 7, bomb_timer: 0, bomb_radius: 1, ..Default::default() };
    let players = vec![
        Player::new("P1".to_string(), Coord::from(2, 2), 0),
        Player::new("P2".to_string(), Coord::from(4, 4), 1),
    ];
    let map = &mut GameMap::new(map_settings, players);

    map.add_bomb(Coord::from(2, 2), 0);
    map.add_bomb(Coord::from(4, 4), 1);

    map.process_bombs();

    assert_eq!(map.get_player(0).unwrap().is_alive(), false);
    assert_eq!(map.get_player(1).unwrap().is_alive(), false);
}

#[test]
fn process_bombs_kills_one_player_per_blast_of_a_tile() {
    let map_settings = MapConfig { size: 7, ..Default::default() };
    let players = vec![
        Player::new("P1".to_string(), Coord::from(1, 1), 1),
        Player::new("P2".to_string(), Coord::from(1, 1), 2),
        Player::new("P3".to_string(), Coord::from(5, 5), 3),
    ];
    let map = &mut GameMap::new(map_settings, players);
    map.bombs.push(Bomb { position: Coord::from(1, 1), timer: 1, player_id: 3 });

    map.process_bombs();

    assert!(map.bombs.is_empty());
    assert_eq!(map.explosions.iter().filter(|c| **c == Coord::from(1, 1)).count(), 1);
    assert!(!map.players[0].alive);
    assert_eq!(map.players[0].killed_by, 3);
    assert!(map.players[1].alive);
    assert!(map.players[2].alive);
}

#[test]
fn a_blast_names_the_bomb_owner_and_leaves_a_sole_winner() {
    let map_settings = MapConfig { size: 7, bomb_timer: 0, ..Default::default() };
    let players = vec![
        Player::new("P1".to_string(), Coord::from(1, 1), 0),
        Player::new("P2".to_string(), Coord::from(5, 5), 1),
    ];
    let map = &mut GameMap::new(map_settings, players);
    map.add_bomb(Coord::from(1, 2), 1);

    map.process_bombs();

    let p1 = map.get_player(0).expect("player 0 should exist");
    assert!(!p1.is_alive());
    assert_eq!(p1.killed_by, 1);
    assert_eq!(p1.reason_killed, "bomb");
    assert!(map.has_winner());
    assert_eq!(map.winner.as_ref().map(|p| p.id), Some(1));
}

#[test]
fn explosions_stay_on_the_rays_of_the_bombs_that_went_off() {
    let map_settings = MapConfig { size: 7, bomb_timer: 0, bomb_radius: 1, ..Default::default() };
    let players = vec![Player::new("P1".to_string(), Coord::from(5, 5), 0)];
    let map = &mut GameMap::new(map_settings, players);
    for col in 1..6 {
        map.grid.clear_destructable(Coord::from(col, 3));
    }
    map.bombs.push(Bomb::new(Coord::from(3, 3), 0, 0));
    map.bombs.push(Bomb::new(Coord::from(1, 5), 4, 0));

    map.process_bombs();

    assert!(!map.explosions.is_empty());
    for tile in &map.explosions {
        let (col, row) = (tile.col.get(), tile.row.get());
        assert!((row == 3 && col >= 2 && col <= 4) || (col == 3 && row >= 2 && row <= 4));
    }
    assert_eq!(map.bombs.len(), 1);
    assert_eq!(map.bombs[0].timer, 3);
}

#[test]
fn a_blast_leaves_the_tiles_outside_it_alone() {
    let map_settings = MapConfig { size: 7, bomb_timer: 0, bomb_radius: 1, ..Default::default() };
    let players = vec![Player::new("P1".to_string(), Coord::from(5, 5), 0)];
    let map = &mut GameMap::new(map_settings, players);
    let before = map.grid.tiles.clone();
    map.add_bomb(Coord::from(3, 3), 0);

    map.process_bombs();

    for row in 0..7usize {
        for col in 0..7usize {
            let tile = Coord::from(col, row);
            if !map.explosions.contains(&tile) {
                assert_eq!(map.grid.tiles[row * 7 + col], before[row * 7 + col]);
            }
        }
    }
    assert_eq!(map.grid.cell_type(Coord::from(0, 0)), CellType::Wall);
}
