use rust_bomberman::bots::board::wander_move;
use rust_bomberman::commands::{CommandFactory, PlayerCommand};
use rust_bomberman::bot::{Bot, BotController};
use rust_bomberman::bots::fuzzy::{closest_enemy_distance, get_command_to_move_to_coord, get_empty_neighbours, get_enemy_positions, manhattan, FuzzyBot, FuzzyInput};
use rust_bomberman::map::GameMap;
use rust_bomberman::player::Player;
use rust_bomberman::bots::passive_bot::PassiveBot;
use rust_bomberman::bots::registry::{available_bots, get_bot_names};
use rust_bomberman::cell::CellType;
use rust_bomberman::command::Command;
use rust_bomberman::coord::Coord;
use rust_bomberman::game::Game;
use rust_bomberman::grid::Grid;
use rust_bomberman::map_config::MapConfig;
use rust_bomberman::replay::ReplayEngine;
use rust_bomberman::shrink::calculate_shrink_location;
use rust_bomberman::text::{decimal_string, label};
use rust_bomberman::validator::MapValidatorChainFactory;

#[test]
fn decimal_text_of_numbers() {
    assert_eq!(decimal_string(0), "0");
    assert_eq!(decimal_string(7), "7");
    assert_eq!(decimal_string(1234), "1234");
}

#[test]
fn bot_labels_carry_the_id() {
    assert_eq!(label(&"Bob".to_string(), 7), "Bob (7)");
    assert_eq!(FuzzyBot::new().name(), "JustinBot (0)");
}

#[test]
fn invalid_size_message_names_the_size() {
    let config = MapConfig { size: 6, ..MapConfig::default() };
    assert_eq!(MapValidatorChainFactory::validate(&config), Err("Invalid map size: 6x6. Must be odd and 7-20".to_string()));
    let config = MapConfig { size: 21, ..MapConfig::default() };
    assert_eq!(MapValidatorChainFactory::validate(&config), Err("Invalid map size: 21x21. Must be odd and 7-20".to_string()));
    let config = MapConfig { size: 9, ..MapConfig::default() };
    assert_eq!(MapValidatorChainFactory::validate(&config), Ok(()));
}

#[test]
fn cell_characters_round_trip() {
    for t in [CellType::Empty, CellType::Wall, CellType::Destroyable, CellType::Player, CellType::Bomb] {
        assert_eq!(CellType::from_char(t.as_char()), t);
    }
}

#[test]
fn grid_reads_back_what_was_written() {
    let mut grid = Grid::new(vec![' '; 49], 7);
    grid.set_cell(Coord::from(3, 2), CellType::Destroyable);
    assert_eq!(grid.cell_type(Coord::from(3, 2)), CellType::Destroyable);
    assert_eq!(grid.cell_type(Coord::from(2, 3)), CellType::Empty);
    assert_eq!(grid.cell_type(Coord::from(9, 9)), CellType::Wall);
}

#[test]
fn shrink_stays_inside_the_outer_wall() {
    for step in 0..25 {
        let c = calculate_shrink_location(step, 7).expect("a tile");
        assert!(c.col.get() >= 1 && c.col.get() <= 5 && c.row.get() >= 1 && c.row.get() <= 5);
    }
    assert_eq!(calculate_shrink_location(24, 7), Some(Coord::from(3, 3)));
}

#[test]
fn registry_names_are_distinct_and_include_gz() {
    let names = get_bot_names();
    assert_eq!(names.len(), 9);
    assert!(names.contains(&"GzBot".to_string()));
    let mut sorted = names.clone();
    sorted.sort();
    sorted.dedup();
    assert_eq!(sorted.len(), names.len());
    assert_eq!(available_bots().len(), 9);
}

#[test]
fn fuzzy_distances() {
    assert_eq!(manhattan(Coord::from(1, 2), Coord::from(4, 6)), 7);
    assert_eq!(closest_enemy_distance(vec![Coord::from(5, 5), Coord::from(2, 1)], Coord::from(1, 1)), 1);
}

fn passive_game(size: usize, endgame: usize) -> Game {
    let bots: Vec<BotController> = vec![Box::new(PassiveBot::new()), Box::new(PassiveBot::new())];
    let config = MapConfig { size, endgame, ..MapConfig::default() };
    Game::build(bots, config, None)
}

#[test]
fn a_game_of_waiting_bots_runs_to_the_turn_limit_or_a_winner() {
    let mut game = passive_game(7, 3);
    let result = game.run();
    assert!(game.map.winner.is_some() || game.turn == 3 + 25);
    assert_eq!(result.rounds, game.turn);
    assert_eq!(result.replay_data.len(), 2);
    assert!(game.winner_name().len() > 0);
}

#[test]
fn a_fresh_game_has_no_winner_yet() {
    let game = passive_game(7, 100);
    assert_eq!(game.winner_name(), "No winner yet");
    assert_eq!(game.turn, 0);
    assert_eq!(game.map.players.len(), 2);
    assert_eq!(game.map.players[0].position, Coord::from(1, 1));
    assert_eq!(game.map.players[1].position, Coord::from(1, 5));
}

#[test]
fn a_replay_shows_every_recorded_turn() {
    let mut game = passive_game(7, 100);
    let commands = vec![vec![Command::Wait, Command::Wait], vec![Command::Wait, Command::Wait]];
    let snapshot = ReplayEngine::new(&mut game).to_snapshot(&commands);
    assert_eq!(snapshot.map_settings.size, 7);
    assert_eq!(snapshot.turns.len(), 3);
    assert_eq!(snapshot.turns[0].turn, 0);
    assert_eq!(snapshot.turns[2].turn, 2);
    assert_eq!(snapshot.turns[0].players.len(), 2);
}

#[test]
fn shrink_walls_every_inner_tile_once() {
    let mut seen: Vec<Coord> = (0..25).map(|step| calculate_shrink_location(step, 7).unwrap()).collect();
    seen.sort_by_key(|c| (c.row.get(), c.col.get()));
    seen.dedup();
    assert_eq!(seen.len(), 25);
}

#[test]
fn moving_towards_a_neighbour_lands_on_it() {
    let me = Coord::from(3, 3);
    for target in [Coord::from(3, 2), Coord::from(3, 4), Coord::from(2, 3), Coord::from(4, 3)] {
        let command = get_command_to_move_to_coord(me, target);
        assert_eq!(me.move_command(command), Some(target));
    }
    assert_eq!(get_command_to_move_to_coord(me, Coord::from(5, 5)), Command::Wait);
}

#[test]
fn only_steps_are_move_commands() {
    assert!(Command::Up.is_move());
    assert!(Command::Down.is_move());
    assert!(Command::Left.is_move());
    assert!(Command::Right.is_move());
    assert!(!Command::Wait.is_move());
    assert!(!Command::PlaceBomb.is_move());
}

#[test]
fn fuzzy_sees_the_others_and_the_open_floor() {
    let settings = MapConfig { size: 7, ..Default::default() };
    let players = vec![
        Player::new("JustinBot (0)".to_string(), Coord::from(1, 1), 0),
        Player::new("Other".to_string(), Coord::from(5, 5), 1),
    ];
    let map = GameMap::new(settings.clone(), players);
    let input = FuzzyInput {
        map: &map,
        bot_name: "JustinBot".to_string(),
        bot_id: 0,
        current_position: Coord::from(1, 1),
        map_settings: &settings,
    };
    assert_eq!(get_enemy_positions(input), vec![Coord::from(5, 5)]);
    let open = get_empty_neighbours(&map, Coord::from(1, 1));
    assert_eq!(open.len(), 2);
    assert!(open.contains(&Coord::from(1, 2)));
    assert!(open.contains(&Coord::from(2, 1)));
}

#[test]
fn wanderers_pick_from_moves_and_wait() {
    assert_eq!(wander_move(0), Command::Up);
    assert_eq!(wander_move(1), Command::Down);
    assert_eq!(wander_move(2), Command::Left);
    assert_eq!(wander_move(3), Command::Right);
    assert_eq!(wander_move(4), Command::Wait);
}

#[test]
fn factory_actions_carry_out_their_command() {
    let settings = MapConfig { size: 7, ..Default::default() };
    let players = vec![Player::new("P".to_string(), Coord::from(1, 1), 0)];
    let mut map = GameMap::new(settings.clone(), players.clone());
    let action = CommandFactory::create(&Command::PlaceBomb).unwrap();
    action.try_execute(&mut map, 0);
    assert_eq!(map.bombs.len(), 1);
    assert_eq!(map.bombs[0].position, Coord::from(1, 1));
    let mut quiet = GameMap::new(settings, players);
    CommandFactory::create(&Command::Wait).unwrap().try_execute(&mut quiet, 0);
    assert!(quiet.bombs.is_empty());
    assert_eq!(quiet.players[0].position, Coord::from(1, 1));
}

#[test]
fn a_round_records_one_action_and_note_per_living_bot() {
    let mut game = passive_game(7, 100);
    game.run_round(None);
    assert_eq!(game.turn, 1);
    assert_eq!(game.player_actions[0], vec![Command::Wait]);
    assert_eq!(game.player_actions[1], vec![Command::Wait]);
    assert_eq!(game.debug_info[0].len(), 1);
    assert_eq!(game.debug_info[1].len(), 1);
}

#[test]
fn a_replayed_round_records_no_actions() {
    let mut game = passive_game(7, 100);
    let commands = vec![vec![Command::Wait], vec![Command::Wait]];
    game.run_round(Some(&commands));
    assert_eq!(game.turn, 1);
    assert!(game.player_actions[0].is_empty());
    assert!(game.debug_info[1].is_empty());
}
