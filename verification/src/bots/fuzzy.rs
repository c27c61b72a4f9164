use vstd::prelude::*;
use crate::cell::CellType;
use crate::command::Command;
use crate::coord::{Coord, step_command, step_down, step_left, step_right, step_up};
use crate::map::GameMap;
use crate::map_config::MapConfig;
use crate::text::{label, labelled};

verus! {

broadcast use vstd::seq_lib::group_filter_ensures;

/// What the fuzzy bot means to do next.
#[derive(Clone, Copy, Debug, PartialEq, Eq, Structural)]
pub enum Intent {
    PlaceBomb,
    Flee,
    Move,
    Wait,
}

/// What the fuzzy bot looks at in a turn.
pub struct FuzzyInput<'a> {
    pub map: &'a GameMap,
    pub bot_name: String,
    pub bot_id: usize,
    pub current_position: Coord,
    pub map_settings: &'a MapConfig,
}

/// The character at `location` when the grid is read at `row * size + col` with the
/// configured board size; past the end of the grid it reads as a wall.
pub open spec fn fuzzy_cell(map: GameMap, location: Coord) -> char {
    let i = location.row.0 * map.map_settings.size + location.col.0;
    if i < map.grid.tiles@.len() { map.grid.tiles@[i] } else { 'W' }
}

/// How the fuzzy bot reads a character: walls, empty floor and destroyable blocks;
/// anything else counts as a wall.
pub open spec fn fuzzy_cell_type(c: char) -> CellType {
    if c == ' ' {
        CellType::Empty
    } else if c == '.' {
        CellType::Destroyable
    } else {
        CellType::Wall
    }
}

/// The move that takes `current` one step onto `target`, or `Wait` when `target` is
/// not next to `current`.
pub open spec fn move_towards(current: Coord, target: Coord) -> Command {
    if step_right(current) == Some(target) {
        Command::Right
    } else if step_left(current) == Some(target) {
        Command::Left
    } else if step_up(current) == Some(target) {
        Command::Up
    } else if step_down(current) == Some(target) {
        Command::Down
    } else {
        Command::Wait
    }
}

/// `Some(c)` as a one-element sequence, `None` as an empty one.
pub open spec fn present(o: Option<Coord>) -> Seq<Coord> {
    match o {
        Some(c) => seq![c],
        None => seq![],
    }
}

/// The neighbours of `c` that exist, in the order left, right, up, down.
pub open spec fn neighbours_of(c: Coord) -> Seq<Coord> {
    present(step_left(c)) + present(step_right(c)) + present(step_up(c)) + present(step_down(c))
}

/// The command towards a neighbouring place leads onto that place, which is another
/// place than the start.
pub proof fn lemma_move_towards_neighbour(me: Coord, t: Coord)
    requires
        neighbours_of(me).contains(t),
    ensures
        step_command(me, move_towards(me, t)) == Some(t),
        t != me,
{
    let k = choose|k: int| 0 <= k < neighbours_of(me).len() && neighbours_of(me)[k] == t;
    assert(neighbours_of(me)[k] == t);
}

/// A coordinate small enough for the distance arithmetic of the fuzzy bot.
pub open spec fn small(c: Coord) -> bool {
    c.col.0 < 0x4000_0000 && c.row.0 < 0x4000_0000
}

/// The name a bot shows on the board: `name (id)`.
pub open spec fn shown_name(input: FuzzyInput) -> Seq<char> {
    labelled(input.bot_name@, input.bot_id as nat)
}

/// The positions of the players not named as the bot itself, in player order.
pub open spec fn enemy_positions(input: FuzzyInput) -> Seq<Coord> {
    input.map.players@.filter(|p: crate::player::Player| p.name@ != shown_name(input)).map_values(
        |p: crate::player::Player| p.position,
    )
}

/// A blast from `bomb` with the given reach covers `position`.
pub open spec fn fuzzy_in_range(position: Coord, bomb: Coord, radius: usize) -> bool {
    if position == bomb {
        true
    } else if position.row == bomb.row {
        (if position.col.0 < bomb.col.0 { bomb.col.0 - position.col.0 } else { position.col.0 - bomb.col.0 }) <= radius
    } else if position.col == bomb.col {
        (if position.row.0 < bomb.row.0 { bomb.row.0 - position.row.0 } else { position.row.0 - bomb.row.0 }) <= radius
    } else {
        false
    }
}

/// Reads the tile at `location`, or a wall past the end of the grid.
pub fn get_cell(map: &GameMap, location: Coord) -> (c: char)
    ensures
        c == fuzzy_cell(*map, location),
{
    let len = map.grid.tiles.len();
    match location.row.get().checked_mul(map.map_settings.size) {
        Some(base) => match base.checked_add(location.col.get()) {
            Some(i) => if i < len { map.grid.tiles[i] } else { 'W' },
            None => 'W',
        },
        None => 'W',
    }
}

pub fn get_cell_type(cell_value: &char) -> (t: CellType)
    ensures
        t == fuzzy_cell_type(*cell_value),
{
    match cell_value {
        'W' => CellType::Wall,
        ' ' => CellType::Empty,
        '.' => CellType::Destroyable,
        _ => CellType::Wall,
    }
}

/// The command that moves from `current_position` onto the neighbouring
/// `target_position`, or `Wait` when they are not neighbours.
pub fn get_command_to_move_to_coord(current_position: Coord, target_position: Coord) -> (c: Command)
    ensures
        c == move_towards(current_position, target_position),
{
    let mut command = Command::Wait;
    if current_position.move_down() == Some(target_position) {
        command = Command::Down;
    }
    if current_position.move_up() == Some(target_position) {
        command = Command::Up;
    }
    if current_position.move_left() == Some(target_position) {
        command = Command::Left;
    }
    if current_position.move_right() == Some(target_position) {
        command = Command::Right;
    }
    command
}

/// The neighbours of `current_pos`, left, right, up, down, leaving out those that
/// would need a negative or overflowing index.
pub fn get_neighbour_coords(current_pos: Coord) -> (neighbours: Vec<Coord>)
    ensures
        neighbours@ == neighbours_of(current_pos),
{
    let mut neighbours: Vec<Coord> = Vec::new();
    if let Some(c) = current_pos.move_left() {
        neighbours.push(c);
    }
    if let Some(c) = current_pos.move_right() {
        neighbours.push(c);
    }
    if let Some(c) = current_pos.move_up() {
        neighbours.push(c);
    }
    if let Some(c) = current_pos.move_down() {
        neighbours.push(c);
    }
    proof {
        assert(neighbours@ =~= neighbours_of(current_pos));
    }
    neighbours
}

/// The neighbours of `position` whose tile is empty floor, in neighbour order.
pub fn get_empty_neighbours(map: &GameMap, position: Coord) -> (r: Vec<Coord>)
    ensures
        r@ == neighbours_of(position).filter(|c: Coord| fuzzy_cell_type(fuzzy_cell(*map, c)) == CellType::Empty),
{
    let all = get_neighbour_coords(position);
    let ghost pred = |c: Coord| fuzzy_cell_type(fuzzy_cell(*map, c)) == CellType::Empty;
    let mut r: Vec<Coord> = Vec::new();
    for i in 0..all.len()
        invariant
            all@ == neighbours_of(position),
            pred == (|c: Coord| fuzzy_cell_type(fuzzy_cell(*map, c)) == CellType::Empty),
            r@ == all@.take(i as int).filter(pred),
    {
        let c = all[i];
        let keep = get_cell_type(&get_cell(map, c)) == CellType::Empty;
        proof {
            reveal(Seq::filter);
            assert(all@.take(i + 1).drop_last() =~= all@.take(i as int));
        }
        if keep {
            r.push(c);
        }
    }
    proof {
        assert(all@.take(all@.len() as int) =~= all@);
    }
    r
}

/// The Manhattan distance between two positions.
pub fn manhattan(position_a: Coord, position_b: Coord) -> (d: i32)
    requires
        small(position_a),
        small(position_b),
    ensures
        d == crate::coord::manhattan_distance(position_a, position_b),
{
    let ac = position_a.col.get() as i32;
    let ar = position_a.row.get() as i32;
    let bc = position_b.col.get() as i32;
    let br = position_b.row.get() as i32;
    let dx = if ac < bc { bc - ac } else { ac - bc };
    let dy = if ar < br { br - ar } else { ar - br };
    dx + dy
}

/// The distance to the nearest of `enemy_positions`.
pub fn closest_enemy_distance(enemy_positions: Vec<Coord>, current_position: Coord) -> (d: i32)
    requires
        enemy_positions@.len() > 0,
        small(current_position),
        forall|i: int| 0 <= i < enemy_positions@.len() ==> small(#[trigger] enemy_positions@[i]),
    ensures
        exists|i: int| 0 <= i < enemy_positions@.len()
            && d == crate::coord::manhattan_distance(#[trigger] enemy_positions@[i], current_position),
        forall|i: int| 0 <= i < enemy_positions@.len()
            ==> d <= crate::coord::manhattan_distance(#[trigger] enemy_positions@[i], current_position),
{
    let mut best = manhattan(current_position, enemy_positions[0]);
    let mut best_index: usize = 0;
    for i in 1..enemy_positions.len()
        invariant
            enemy_positions@.len() > 0,
            small(current_position),
            forall|j: int| 0 <= j < enemy_positions@.len() ==> small(#[trigger] enemy_positions@[j]),
            best_index < i,
            best == crate::coord::manhattan_distance(enemy_positions@[best_index as int], current_position),
            forall|j: int| 0 <= j < i ==> best <= crate::coord::manhattan_distance(#[trigger] enemy_positions@[j], current_position),
    {
        let d = manhattan(current_position, enemy_positions[i]);
        if d < best {
            best = d;
            best_index = i;
        }
    }
    manhattan(enemy_positions[best_index], current_position)
}

/// The positions of all players except the bot itself, which goes by `name (id)`.
pub fn get_enemy_positions(input: FuzzyInput) -> (r: Vec<Coord>)
    ensures
        r@ == enemy_positions(input),
{
    let own = label(&input.bot_name, input.bot_id);
    let players = &input.map.players;
    let ghost pred = |p: crate::player::Player| p.name@ != shown_name(input);
    let mut r: Vec<Coord> = Vec::new();
    for i in 0..players.len()
        invariant
            *players == input.map.players,
            own@ == shown_name(input),
            pred == (|p: crate::player::Player| p.name@ != shown_name(input)),
            r@ == players@.take(i as int).filter(pred).map_values(|p: crate::player::Player| p.position),
    {
        let keep = !(players[i].name == own);
        proof {
            reveal(Seq::filter);
            assert(players@.take(i + 1).drop_last() =~= players@.take(i as int));
        }
        if keep {
            r.push(players[i].position);
        }
        proof {
            assert(r@ =~= players@.take(i + 1).filter(pred).map_values(|p: crate::player::Player| p.position));
        }
    }
    proof {
        assert(players@.take(players@.len() as int) =~= players@);
    }
    r
}

/// Does the blast of a bomb at `bomb_position` with reach `radius` cover `position`?
pub fn is_tile_in_bomb_range(position: Coord, bomb_position: Coord, _map: &GameMap, radius: usize) -> (b: bool)
    ensures
        b == fuzzy_in_range(position, bomb_position, radius),
{
    if position == bomb_position {
        return true;
    }
    let col_gap = if position.col.get() < bomb_position.col.get() {
        bomb_position.col.get() - position.col.get()
    } else {
        position.col.get() - bomb_position.col.get()
    };
    let row_gap = if position.row.get() < bomb_position.row.get() {
        bomb_position.row.get() - position.row.get()
    } else {
        position.row.get() - bomb_position.row.get()
    };
    if position.row == bomb_position.row {
        if col_gap > radius {
            return false;
        }
    }
    if position.col == bomb_position.col {
        if row_gap > radius {
            return false;
        }
    }
    if position.col != bomb_position.col && position.row != bomb_position.row {
        return false;
    }
    true
}

/// The bot that weighs danger and closeness by fuzzy rules; the rules themselves run
/// outside the library, this holds what they read.
pub struct FuzzyBot {
    pub name: String,
    pub id: usize,
    pub map_settings: MapConfig,
}

impl FuzzyBot {
    pub fn new() -> (b: Self)
        ensures
            b.name@ == "JustinBot"@,
            b.id == 0,
            b.map_settings.size == 15,
            b.map_settings.bomb_radius == 2,
    {
        FuzzyBot { name: String::from_str("JustinBot"), id: 0, map_settings: MapConfig::default() }
    }

    /// The name shown on the board: `name (id)`.
    pub fn name(&self) -> (s: String)
        ensures
            s@ == labelled(self.name@, self.id as nat),
    {
        label(&self.name, self.id)
    }

    /// Takes the id and the settings of a new game.
    pub fn start_game(&mut self, map_settings: &MapConfig, bot_id: usize) -> (ok: bool)
        ensures
            ok,
            final(self).id == bot_id,
            final(self).name == old(self).name,
            final(self).map_settings.size == map_settings.size,
            final(self).map_settings.bomb_radius == map_settings.bomb_radius,
            final(self).map_settings.bomb_timer == map_settings.bomb_timer,
            final(self).map_settings.endgame == map_settings.endgame,
    {
        self.id = bot_id;
        self.map_settings = map_settings.clone();
        true
    }

    /// What the fuzzy rules read this turn.
    pub fn input<'a>(&'a self, map: &'a GameMap, current_location: Coord) -> (r: FuzzyInput<'a>)
        ensures
            *r.map == *map,
            r.bot_name@ == self.name@,
            r.bot_id == self.id,
            r.current_position == current_location,
            *r.map_settings == self.map_settings,
    {
        FuzzyInput {
            map,
            bot_name: self.name.clone(),
            bot_id: self.id,
            current_position: current_location,
            map_settings: &self.map_settings,
        }
    }
}

} // verus!
