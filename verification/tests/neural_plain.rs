use rust_bomberman::bots::neural_bot::NeuralBot;
use rust_bomberman::command::Command;
use rust_bomberman::coord::Coord;
use rust_bomberman::grid::Grid;
use rust_bomberman::map::GameMap;
use rust_bomberman::map_config::MapConfig;
use rust_bomberman::player::Player;

fn board(size: usize) -> GameMap {
    let settings = MapConfig { size, endgame: 100, ..MapConfig::default() };
    let players = vec![Player::new("P1".to_string(), Coord::from(1, 1), 0)];
    GameMap::new(settings, players)
}

#[test]
fn neural_opening_is_cut_short_on_small_boards() {
    let map = board(7);
    let mut bot = NeuralBot::new();
    assert!(bot.start_game(&map.map_settings.clone(), 3));
    assert_eq!(bot.name(), "NeuralNemesis (3)");
    assert_eq!(bot.scripted_move(&map, Coord::from(1, 1)), Some(Command::Right));
    assert_eq!(bot.scripted_move(&map, Coord::from(2, 1)), Some(Command::PlaceBomb));
    assert_eq!(bot.scripted_move(&map, Coord::from(2, 1)), None);
    assert!(bot.looping);
    assert_eq!(bot.turn, 1);
}

#[test]
fn neural_opening_is_mirrored_in_the_lower_right() {
    let map = board(9);
    let mut bot = NeuralBot::new();
    bot.start_game(&map.map_settings.clone(), 1);
    assert_eq!(bot.scripted_move(&map, Coord::from(7, 7)), Some(Command::Left));
    assert_eq!(bot.scripted_move(&map, Coord::from(6, 7)), Some(Command::PlaceBomb));
    assert_eq!(bot.scripted_move(&map, Coord::from(6, 7)), Some(Command::Right));
    assert_eq!(bot.scripted_move(&map, Coord::from(7, 7)), Some(Command::Up));
}

#[test]
fn neural_actions_stay_on_the_board() {
    let mut bot = NeuralBot::new();
    bot.map_settings.size = 7;
    assert_eq!(bot.apply_action(0, 3, Command::Up), None);
    assert_eq!(bot.apply_action(6, 3, Command::Down), None);
    assert_eq!(bot.apply_action(2, 3, Command::Right), Some((2, 4)));
    assert_eq!(bot.apply_action(2, 3, Command::PlaceBomb), Some((2, 3)));
}

#[test]
fn neural_line_of_fire_stops_at_blocks() {
    let mut map = board(7);
    map.grid = Grid::new(vec![' '; 49], 7);
    map.grid.tiles[3 * 7 + 3] = '.';
    let mut bot = NeuralBot::new();
    bot.map_settings.size = 7;
    assert!(!bot.line_clear(&map, 3, 1, 3, 5));
    assert!(bot.line_clear(&map, 3, 1, 3, 2));
    assert!(bot.line_clear(&map, 1, 3, 2, 3));
    assert!(!bot.line_clear(&map, 1, 3, 5, 3));
    assert!(bot.line_clear(&map, 1, 1, 5, 5));
}

#[test]
fn neural_escape_only_avoids_the_shrink_tile_itself() {
    let mut map = board(7);
    map.grid = Grid::new(vec![' '; 49], 7);
    let mut bot = NeuralBot::new();
    bot.map_settings.size = 7;
    bot.next_shrink_location = Some(Coord::from(1, 0));
    let mut danger = vec![false; 49];
    danger[7 + 1] = true;
    assert_eq!(bot.find_escape_path(&map, 1, 1, &danger), Some((Command::Down, 1)));
    assert!(!bot.is_clear(&map, 0, 1));
    assert!(bot.is_clear(&map, 0, 2));
}
