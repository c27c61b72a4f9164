use rust_bomberman::bomb::Bomb;
use rust_bomberman::bot::Bot;
use rust_bomberman::bots::gz::{
    get_cell_type, is_tile_currently_safe, is_tile_in_bomb_range, tile_current_safety_from_bomb, Tile, TileMap,
};
use rust_bomberman::bots::gz_bot::GzBot;
use rust_bomberman::cell::CellType;
use rust_bomberman::command::Command;
use rust_bomberman::coord::Coord;
use rust_bomberman::map::GameMap;
use rust_bomberman::map_config::MapConfig;
use rust_bomberman::player::Player;

fn open_map(width: usize, height: usize) -> TileMap {
    let mut map = Vec::new();
    for row in 0..height {
        let mut line = Vec::new();
        for col in 0..width {
            line.push(Tile { coord: Coord::from(col, row), cell_type: CellType::Empty, visited: false, safe: false });
        }
        map.push(line);
    }
    TileMap { map }
}

fn coords(path: &[Tile]) -> Vec<(usize, usize)> {
    path.iter().map(|t| (t.coord.col.get(), t.coord.row.get())).collect()
}

#[test]
fn gz_cell_types_are_read_from_characters() {
    assert_eq!(get_cell_type(&'W'), CellType::Wall);
    assert_eq!(get_cell_type(&'P'), CellType::Player);
    assert_eq!(get_cell_type(&' '), CellType::Empty);
    assert_eq!(get_cell_type(&'.'), CellType::Destroyable);
    assert_eq!(get_cell_type(&'B'), CellType::Wall);
}

#[test]
fn gz_bomb_range_is_a_cross() {
    let bomb = Coord::from(3, 3);
    assert!(is_tile_in_bomb_range(Coord::from(3, 3), bomb, 2));
    assert!(is_tile_in_bomb_range(Coord::from(5, 3), bomb, 2));
    assert!(is_tile_in_bomb_range(Coord::from(3, 1), bomb, 2));
    assert!(!is_tile_in_bomb_range(Coord::from(6, 3), bomb, 2));
    assert!(!is_tile_in_bomb_range(Coord::from(4, 4), bomb, 2));
}

#[test]
fn gz_tile_safety_depends_on_timer() {
    let bomb = Bomb::new(Coord::from(2, 2), 3, 1);
    assert!(tile_current_safety_from_bomb(Coord::from(2, 3), 2, &bomb, 1));
    assert!(!tile_current_safety_from_bomb(Coord::from(2, 3), 3, &bomb, 1));
    assert!(tile_current_safety_from_bomb(Coord::from(5, 5), 9, &bomb, 1));
    let bombs = vec![bomb, Bomb::new(Coord::from(0, 0), 1, 2)];
    assert!(!is_tile_currently_safe(&bombs, Coord::from(1, 0), 1, 1));
    assert!(is_tile_currently_safe(&bombs, Coord::from(4, 4), 1, 1));
    assert!(is_tile_currently_safe(&Vec::new(), Coord::from(0, 0), 0, 1));
}

#[test]
fn gz_tile_text_is_col_colon_row() {
    let tile = Tile { coord: Coord::from(3, 14), cell_type: CellType::Empty, visited: false, safe: true };
    assert_eq!(tile.to_string(), "3:14");
}

#[test]
fn gz_tile_visit_and_reset() {
    let mut tm = open_map(2, 2);
    tm.get_mut(Coord::from(1, 0)).unwrap().visit();
    assert!(tm.get(Coord::from(1, 0)).unwrap().visited);
    assert!(tm.get(Coord::from(5, 0)).is_none());
    tm.reset();
    assert!(!tm.get(Coord::from(1, 0)).unwrap().visited);
}

#[test]
fn gz_dijkstra_walks_in_coordinate_order() {
    let tm = open_map(3, 3);
    let start = *tm.get(Coord::from(0, 0)).unwrap();
    let goal = *tm.get(Coord::from(2, 2)).unwrap();
    let (cost, path) = tm.dijkstra(&start, &goal, &Vec::new(), 2).expect("a path");
    assert_eq!(cost, 4);
    assert_eq!(coords(&path), vec![(0, 1), (0, 2), (1, 2), (2, 2)]);
}

#[test]
fn gz_dijkstra_to_itself_is_empty() {
    let tm = open_map(3, 3);
    let start = *tm.get(Coord::from(1, 1)).unwrap();
    let (cost, path) = tm.dijkstra(&start, &start, &Vec::new(), 2).expect("a path");
    assert_eq!(cost, 0);
    assert!(path.is_empty());
}

#[test]
fn gz_dijkstra_avoids_tiles_that_blow_up() {
    let tm = open_map(3, 3);
    let start = *tm.get(Coord::from(0, 0)).unwrap();
    let goal = *tm.get(Coord::from(2, 0)).unwrap();
    let bombs = vec![Bomb::new(Coord::from(0, 2), 1, 7)];
    let (cost, path) = tm.dijkstra(&start, &goal, &bombs, 1).expect("a path");
    assert_eq!(cost, 2);
    assert_eq!(coords(&path), vec![(1, 0), (2, 0)]);
}

#[test]
fn gz_dijkstra_finds_nothing_behind_walls() {
    let mut tm = open_map(3, 1);
    tm.get_mut(Coord::from(1, 0)).unwrap().cell_type = CellType::Wall;
    let start = *tm.get(Coord::from(0, 0)).unwrap();
    let goal = *tm.get(Coord::from(2, 0)).unwrap();
    assert!(tm.dijkstra(&start, &goal, &Vec::new(), 1).is_none());
}

#[test]
fn gz_nearest_safe_tile_prefers_start_then_nearest() {
    let mut tm = open_map(3, 3);
    tm.get_mut(Coord::from(2, 2)).unwrap().safe = true;
    tm.get_mut(Coord::from(1, 0)).unwrap().safe = true;
    let start = *tm.get(Coord::from(0, 0)).unwrap();
    assert_eq!(tm.nearest_safe_tile(&start).unwrap().coord, Coord::from(1, 0));
    tm.get_mut(Coord::from(0, 0)).unwrap().safe = true;
    let start = *tm.get(Coord::from(0, 0)).unwrap();
    assert_eq!(tm.nearest_safe_tile(&start).unwrap().coord, Coord::from(0, 0));
    let lonely = open_map(2, 2);
    let start = *lonely.get(Coord::from(0, 0)).unwrap();
    assert!(lonely.nearest_safe_tile(&start).is_none());
}

#[test]
fn gz_score_counts_distance_safety_and_neighbours() {
    let mut tm = open_map(3, 3);
    tm.get_mut(Coord::from(1, 0)).unwrap().cell_type = CellType::Destroyable;
    tm.get_mut(Coord::from(0, 1)).unwrap().cell_type = CellType::Player;
    let bot = GzBot::new();
    let mut tile = *tm.get(Coord::from(1, 1)).unwrap();
    tile.safe = true;
    assert_eq!(bot.score_tile(&tm, &tile, 25), -2 + 10 + 2 + 10);
    tile.safe = false;
    assert_eq!(bot.score_tile(&tm, &tile, 9), 12);
}

#[test]
fn gz_reachable_scores_cover_the_open_area_once() {
    let mut tm = open_map(3, 3);
    tm.get_mut(Coord::from(2, 0)).unwrap().cell_type = CellType::Wall;
    let bot = GzBot::new();
    let scores = bot.reachable_tiles_with_scores(&mut tm, Coord::from(0, 0));
    assert_eq!(scores.len(), 8);
    assert_eq!(scores[0].0, Coord::from(0, 0));
    let mut seen: Vec<Coord> = scores.iter().map(|s| s.0).collect();
    seen.sort_by_key(|c| (c.col.get(), c.row.get()));
    seen.dedup();
    assert_eq!(seen.len(), 8);
}

#[test]
fn gz_top_tiles_keep_every_best_score() {
    let scores = vec![(Coord::from(0, 0), 3), (Coord::from(1, 0), 7), (Coord::from(2, 0), 7), (Coord::from(3, 0), -1)];
    let top = GzBot::top_tiles(&scores);
    assert_eq!(top, vec![Coord::from(1, 0), Coord::from(2, 0)]);
}

#[test]
fn gz_tile_map_follows_the_board() {
    let settings = MapConfig { size: 7, ..Default::default() };
    let players = vec![Player::new("P1".to_string(), Coord::from(1, 1), 1)];
    let map = GameMap::new(settings.clone(), players);
    let mut bot = GzBot::new();
    assert!(bot.start_game(&settings, 4));
    let tm = bot.generate_tile_map(&map, Coord::from(1, 1));
    assert_eq!(tm.map.len(), 7);
    assert!(tm.map.iter().all(|row| row.len() == 7));
    assert_eq!(tm.get(Coord::from(0, 0)).unwrap().cell_type, CellType::Wall);
    assert_eq!(tm.get(Coord::from(1, 1)).unwrap().cell_type, CellType::Empty);
    assert_eq!(tm.get(Coord::from(5, 3)).unwrap().coord, Coord::from(5, 3));
    assert_eq!(bot.get_coord_from_index(15), Coord::from(1, 2));
}

#[test]
fn gz_bot_moves_onto_open_floor() {
    let settings = MapConfig { size: 7, ..Default::default() };
    let players = vec![
        Player::new("P1".to_string(), Coord::from(1, 1), 1),
        Player::new("P2".to_string(), Coord::from(5, 5), 2),
    ];
    let map = GameMap::new(settings.clone(), players);
    let mut bot = GzBot::new();
    assert_eq!(bot.name(), "GeleZuivelBot (0)");
    bot.start_game(&settings, 1);
    let command = bot.get_move(&map, Coord::from(1, 1));
    if let Some(target) = Coord::from(1, 1).move_command(command) {
        if target != Coord::from(1, 1) {
            let i = target.row.get() * 7 + target.col.get();
            assert_eq!(map.grid.tiles[i], ' ');
        }
    }
    assert!(bot.get_debug_info().contains(", fleeing: false"));
}

#[test]
fn gz_bot_waits_without_a_board_width() {
    let settings = MapConfig { size: 7, ..Default::default() };
    let players = vec![Player::new("P1".to_string(), Coord::from(1, 1), 1)];
    let map = GameMap::new(settings, players);
    let mut bot = GzBot::new();
    bot.map_settings.size = 0;
    assert_eq!(bot.get_move(&map, Coord::from(1, 1)), Command::Wait);
}

#[test]
fn gz_nearest_safe_tile_from_off_the_map_takes_the_nearest() {
    let mut tm = open_map(3, 3);
    tm.get_mut(Coord::from(2, 2)).unwrap().safe = true;
    tm.get_mut(Coord::from(0, 1)).unwrap().safe = true;
    let outside = Tile { coord: Coord::from(3, 1), cell_type: CellType::Empty, visited: false, safe: true };
    assert_eq!(tm.nearest_safe_tile(&outside).unwrap().coord, Coord::from(2, 2));
    let far = Tile { coord: Coord::from(9, 9), cell_type: CellType::Empty, visited: false, safe: true };
    assert!(tm.nearest_safe_tile(&far).is_none());
}
