use rust_bomberman::bomb::Bomb;
use rust_bomberman::bots::apex_bot::{best_by_survival, ApexBot, Field, NEVER};
use rust_bomberman::bots::ml_bot::MlBot;
use rust_bomberman::command::Command;
use rust_bomberman::coord::Coord;
use rust_bomberman::grid::Grid;
use rust_bomberman::map::GameMap;
use rust_bomberman::map_config::MapConfig;
use rust_bomberman::player::Player;

fn open_board(size: usize) -> GameMap {
    let settings = MapConfig { size, ..MapConfig::default() };
    let players = vec![Player::new("P1".to_string(), Coord::from(1, 1), 0)];
    let mut map = GameMap::new(settings, players);
    map.grid = Grid::new(vec![' '; size * size], size);
    map
}

#[test]
fn apex_prepare_finds_the_last_walled_tile() {
    let mut bot = ApexBot::new();
    bot.prepare(7);
    assert_eq!(bot.size, 7);
    assert_eq!(bot.neighbours.len(), 49);
    assert_eq!(bot.neighbours[0], vec![7, 1]);
    assert_eq!(bot.refuge, 3 * 7 + 3);
    assert_eq!(bot.shrink_order[7 + 1], 0);
    assert_eq!(bot.shrink_order[0], NEVER);
}

#[test]
fn apex_walk_span_is_manhattan_on_tiles() {
    let mut bot = ApexBot::new();
    bot.prepare(7);
    assert_eq!(bot.walk_span(8, 40), 4 + 4);
    assert_eq!(bot.index(3, 2), 17);
}

#[test]
fn apex_distance_field_counts_steps_on_open_floor() {
    let mut bot = ApexBot::new();
    bot.prepare(7);
    let map = open_board(7);
    let distance = bot.distance_field(&map, 0);
    assert_eq!(distance[0], 0);
    assert_eq!(distance[48], 12);
    assert_eq!(distance[8], 2);
}

#[test]
fn apex_room_counts_the_open_patch() {
    let mut bot = ApexBot::new();
    bot.prepare(7);
    let cells = 49;
    let mut open_from = vec![NEVER; cells];
    for c in [8, 9, 10, 30] {
        open_from[c] = 0;
    }
    let field = Field {
        open_from,
        bomb_until: vec![0; cells],
        blast: vec![0; cells],
        shrink_from: vec![NEVER; cells],
        fresh_kills: Vec::new(),
        horizon: 8,
    };
    assert_eq!(bot.room(&field, 8), 3);
    assert_eq!(bot.room(&field, 30), 1);
    assert_eq!(bot.room(&field, 0), 0);
    assert!(field.allowed(8, 1, 8));
    assert!(!field.allowed(0, 1, 8));
}

#[test]
fn heat_bot_escape_is_a_shortest_way_out() {
    let map = open_board(7);
    let bot = MlBot::new();
    let mut bot = bot;
    bot.map_settings.size = 7;
    let mut danger = vec![false; 49];
    for c in [8, 9, 15, 16] {
        danger[c] = true;
    }
    assert_eq!(bot.find_escape_path(&map, 1, 1, &danger), Some((Command::Up, 1)));
    let calm = vec![false; 49];
    assert_eq!(bot.find_escape_path(&map, 2, 2, &calm), Some((Command::Wait, 0)));
    assert_eq!(bot.idx(2, 3), 17);
    assert!(bot.out_of_bounds(7, 0));
}

#[test]
fn apex_field_marks_bomb_tiles_deadly_by_their_fuse() {
    let mut bot = ApexBot::new();
    bot.prepare(7);
    bot.endgame = 100;
    let mut map = open_board(7);
    map.bombs.push(Bomb { position: Coord::from(3, 3), timer: 2, player_id: 0 });
    let field = bot.build_field(&map, 8, 0, 8, &vec![8], Some(8), &Vec::new());
    assert_eq!(field.bomb_until[24], 2);
    assert_eq!(field.bomb_until[8], 3);
    assert_eq!(field.bomb_until[0], 0);
    assert!(field.blast[24] & (1 << 2) != 0);
    assert!(field.blast[25] & (1 << 2) != 0);
    assert!(field.blast[26] & (1 << 2) != 0);
    assert!(field.blast[27] & (1 << 2) == 0);
    assert!(field.blast[8] & (1 << 3) != 0);
    assert!(field.fresh_kills.is_empty());
    assert!(!field.allowed(24, 2, 8));
}

#[test]
fn survival_ranks_a_winning_move_first_then_the_longest_life() {
    assert_eq!(best_by_survival(&vec![(false, 3), (true, 1), (false, 5), (true, 1)]), vec![1, 3]);
    assert_eq!(best_by_survival(&vec![(false, 2), (false, 7), (false, 7)]), vec![1, 2]);
    assert_eq!(best_by_survival(&vec![(false, 0)]), vec![0]);
    assert!(best_by_survival(&Vec::new()).is_empty());
}

#[test]
fn survival_keys_follow_the_candidates_on_an_open_board() {
    let mut bot = ApexBot::new();
    bot.prepare(7);
    bot.endgame = 100;
    let map = open_board(7);
    let me = Coord::from(1, 1);
    let cell = bot.index(1, 1);
    let quiet = bot.build_field(&map, cell, 0, 8, &Vec::new(), None, &Vec::new());
    let table = bot.survival_table(&quiet, cell);
    let candidates = bot.candidates(&map, me, false);
    let keys = bot.survival_keys(&map, me, cell, &Vec::new(), 8, &quiet, &table, false, &quiet, &table);
    assert_eq!(keys.len(), candidates.len());
    for (key, candidate) in keys.iter().zip(candidates.iter()) {
        assert_eq!(key.0, candidate.command);
        assert!(!key.1);
        assert_eq!(key.2, 8);
    }
    assert_eq!(keys.last().map(|k| k.0), Some(Command::Wait));
}

#[test]
fn apex_field_follows_a_chain_through_a_cleared_block() {
    let config = MapConfig { size: 7, ..MapConfig::default() };
    let mut bot = ApexBot::new();
    bot.start(&config, 0);
    let players = vec![
        Player::new("P0".to_string(), Coord::from(1, 1), 0),
        Player::new("P1".to_string(), Coord::from(5, 5), 1),
    ];
    let mut map = GameMap::new(config, players);
    map.bombs = vec![Bomb::new(Coord::from(1, 1), 1, 0), Bomb::new(Coord::from(2, 1), 3, 0)];
    let field = bot.build_field(&map, 8, 0, 8, &Vec::new(), None, &Vec::new());
    assert_eq!(field.bomb_until[9], 1);
    assert_eq!(field.blast[9], 2);
    assert_eq!(field.blast[11], 2);
    assert_eq!(field.open_from[10], 2);
}

#[test]
fn apex_horizons_follow_the_bomb_timers_and_the_endgame() {
    let mut bot = ApexBot::new();
    bot.prepare(7);
    bot.endgame = 1000;
    let mut map = open_board(7);
    assert_eq!(bot.horizons(&map, 0), (8, 8));
    map.bombs.push(Bomb { position: Coord::from(3, 3), timer: 9, player_id: 0 });
    assert_eq!(bot.horizons(&map, 0), (11, 11));
    bot.endgame = 50;
    assert_eq!(bot.horizons(&map, 0), (11, 27));
    assert_eq!(bot.horizons(&map, 60), (11, 16));
}

#[test]
fn apex_enemies_and_threats_are_the_nearest_living_opponents() {
    let mut bot = ApexBot::new();
    bot.prepare(7);
    bot.id = 0;
    let mut map = open_board(7);
    map.players = vec![
        Player::new("me".to_string(), Coord::from(1, 1), 0),
        Player::new("far".to_string(), Coord::from(5, 5), 1),
        Player::new("near".to_string(), Coord::from(3, 1), 2),
        Player::new("close".to_string(), Coord::from(1, 3), 3),
    ];
    let me = bot.index(1, 1);
    let enemies = bot.enemy_cells(&map, me);
    assert_eq!(enemies, vec![bot.index(5, 5), bot.index(3, 1), bot.index(1, 3)]);
    let threats = bot.pick_threats(&enemies, me, 2);
    assert_eq!(threats, vec![bot.index(3, 1), bot.index(1, 3)]);
    assert!(bot.pick_threats(&enemies, me, 0).len() == 2);
    assert_eq!(bot.pick_threats(&vec![bot.index(5, 5)], me, 0), Vec::<usize>::new());
}
