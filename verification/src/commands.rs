use vstd::prelude::*;
use crate::bomb::Bomb;
use crate::cell::{CellType, char_of};
use crate::command::Command;
use crate::coord::{Coord, ValidCoord, in_bounds, step_up, step_down, step_left, step_right};
use crate::grid::index_of;
use crate::map::{GameMap, has_bomb_at};
use crate::player::Player;

verus! {

/// The four directions a player can walk.
#[derive(Debug, Clone, Copy, PartialEq, Eq, Structural)]
pub enum Direction {
    Up,
    Down,
    Left,
    Right,
}

/// One step from `c` in `direction`, if the coordinate stays representable.
pub open spec fn step_towards(direction: Direction, c: Coord) -> Option<Coord> {
    match direction {
        Direction::Up => step_up(c),
        Direction::Down => step_down(c),
        Direction::Left => step_left(c),
        Direction::Right => step_right(c),
    }
}

/// `after` is `before` once the player at `index` tried to walk in `direction`: when the
/// neighbouring tile lies on the board and is empty, the player moves there, the tile it
/// left is cleared unless a bomb lies on it, and its new tile is marked as a player's;
/// otherwise nothing changes.
pub open spec fn move_effect(before: GameMap, after: GameMap, index: int, direction: Direction) -> bool {
    let size = before.grid.size as int;
    let current = before.players@[index].position;
    match step_towards(direction, current) {
        Some(target) => if in_bounds(target, size, size) && before.grid.cell_at(target) == CellType::Empty {
            let cleared = if before.grid.cell_at(current) != CellType::Bomb && in_bounds(current, size, size) {
                before.grid.tiles@.update(index_of(current, size), ' ')
            } else {
                before.grid.tiles@
            };
            &&& after.players@ == before.players@.update(index, Player { position: target, ..before.players@[index] })
            &&& after.grid.size == before.grid.size
            &&& after.grid.tiles@ == cleared.update(index_of(target, size), 'P')
            &&& after.map_settings == before.map_settings
            &&& after.bombs == before.bombs
            &&& after.explosions == before.explosions
            &&& after.winner == before.winner
        } else {
            after == before
        },
        None => after == before,
    }
}

/// `after` is `before` once the player at `index` placed a bomb: a bomb of that player
/// with a full timer lies on its tile (unless one lay there already) and the tile is
/// marked as holding a bomb.
pub open spec fn bomb_effect(before: GameMap, after: GameMap, index: int) -> bool {
    let size = before.grid.size as int;
    let p = before.players@[index];
    &&& after.bombs@ == if has_bomb_at(before.bombs@, p.position) {
        before.bombs@
    } else {
        before.bombs@.push(Bomb { position: p.position, timer: before.map_settings.bomb_timer, player_id: p.id })
    }
    &&& after.grid.size == before.grid.size
    &&& after.grid.tiles@ == if in_bounds(p.position, size, size) {
        before.grid.tiles@.update(index_of(p.position, size), char_of(CellType::Bomb))
    } else {
        before.grid.tiles@
    }
    &&& after.players == before.players
    &&& after.map_settings == before.map_settings
    &&& after.explosions == before.explosions
    &&& after.winner == before.winner
}

/// What carrying out `command` for the player at `index` does to the game.
pub open spec fn command_effect(before: GameMap, after: GameMap, index: int, command: Command) -> bool {
    match command {
        Command::Up => move_effect(before, after, index, Direction::Up),
        Command::Down => move_effect(before, after, index, Direction::Down),
        Command::Left => move_effect(before, after, index, Direction::Left),
        Command::Right => move_effect(before, after, index, Direction::Right),
        Command::PlaceBomb => bomb_effect(before, after, index),
        Command::Wait => after == before,
    }
}

/// Walks the player at `player_index` one tile in `direction` when that tile is empty.
pub fn try_move_player(map: &mut GameMap, player_index: usize, direction: Direction)
    requires
        old(map).wf(),
        player_index < old(map).players@.len(),
    ensures
        final(map).wf(),
        move_effect(*old(map), *final(map), player_index as int, direction),
{
    let current = map.players[player_index].position;
    let size = map.map_settings.size;
    if let Some(new_pos) = get_new_position(direction, current).valid(size, size) {
        if map.grid.can_move_to(new_pos) {
            let mut player = map.players[player_index].clone();
            player.move_position(new_pos);
            map.players.set(player_index, player);
            if map.grid.cell_type(current) != CellType::Bomb {
                map.grid.set_cell(current, CellType::Empty);
            }
            map.grid.set_cell(new_pos, CellType::Player);
        }
    }
}

fn get_new_position(direction: Direction, coord: Coord) -> (r: Option<Coord>)
    ensures
        r == step_towards(direction, coord),
{
    match direction {
        Direction::Up => coord.move_up(),
        Direction::Down => coord.move_down(),
        Direction::Left => coord.move_left(),
        Direction::Right => coord.move_right(),
    }
}

/// Something a player can do in a turn.
pub trait PlayerCommand {
    /// The command this action carries out.
    spec fn carries_out(&self) -> Command;

    fn try_execute(&self, map: &mut GameMap, player_index: usize)
        requires
            old(map).wf(),
            player_index < old(map).players@.len(),
        ensures
            final(map).wf(),
            command_effect(*old(map), *final(map), player_index as int, self.carries_out()),
    ;
}

pub struct MoveUp;

pub struct MoveDown;

pub struct MoveLeft;

pub struct MoveRight;

pub struct PlaceBomb;

pub struct Wait;

impl PlayerCommand for MoveUp {
    open spec fn carries_out(&self) -> Command {
        Command::Up
    }

    fn try_execute(&self, map: &mut GameMap, player_index: usize)
        ensures
            move_effect(*old(map), *final(map), player_index as int, Direction::Up),
    {
        try_move_player(map, player_index, Direction::Up);
    }
}

impl PlayerCommand for MoveDown {
    open spec fn carries_out(&self) -> Command {
        Command::Down
    }

    fn try_execute(&self, map: &mut GameMap, player_index: usize)
        ensures
            move_effect(*old(map), *final(map), player_index as int, Direction::Down),
    {
        try_move_player(map, player_index, Direction::Down);
    }
}

impl PlayerCommand for MoveLeft {
    open spec fn carries_out(&self) -> Command {
        Command::Left
    }

    fn try_execute(&self, map: &mut GameMap, player_index: usize)
        ensures
            move_effect(*old(map), *final(map), player_index as int, Direction::Left),
    {
        try_move_player(map, player_index, Direction::Left);
    }
}

impl PlayerCommand for MoveRight {
    open spec fn carries_out(&self) -> Command {
        Command::Right
    }

    fn try_execute(&self, map: &mut GameMap, player_index: usize)
        ensures
            move_effect(*old(map), *final(map), player_index as int, Direction::Right),
    {
        try_move_player(map, player_index, Direction::Right);
    }
}

impl PlayerCommand for PlaceBomb {
    open spec fn carries_out(&self) -> Command {
        Command::PlaceBomb
    }

    fn try_execute(&self, map: &mut GameMap, player_index: usize)
        ensures
            bomb_effect(*old(map), *final(map), player_index as int),
    {
        let pos = map.players[player_index].position;
        let id = map.players[player_index].id;
        map.add_bomb(pos, id);
        map.grid.set_cell(pos, CellType::Bomb);
    }
}

impl PlayerCommand for Wait {
    open spec fn carries_out(&self) -> Command {
        Command::Wait
    }

    fn try_execute(&self, _map: &mut GameMap, _player_index: usize)
        ensures
            *final(_map) == *old(_map),
    {
    }
}

/// `r` holds an action, and that action carries out `c`.
pub open spec fn carried_out_by(r: Option<Box<dyn PlayerCommand>>, c: Command) -> bool {
    r matches Some(a) && a.carries_out() == c
}

/// Turns a command into the action that carries it out.
pub struct CommandFactory;

impl CommandFactory {
    /// Every command has an action: the one that carries out that command.
    pub fn create(command: &Command) -> (r: Option<Box<dyn PlayerCommand>>)
        ensures
            carried_out_by(r, *command),
    {
        match command {
            Command::Up => {
                let a: Box<dyn PlayerCommand> = Box::new(MoveUp);
                let r = Some(a);
                assert(carried_out_by(r, Command::Up));
                r
            },
            Command::Down => {
                let a: Box<dyn PlayerCommand> = Box::new(MoveDown);
                let r = Some(a);
                assert(carried_out_by(r, Command::Down));
                r
            },
            Command::Left => {
                let a: Box<dyn PlayerCommand> = Box::new(MoveLeft);
                let r = Some(a);
                assert(carried_out_by(r, Command::Left));
                r
            },
            Command::Right => {
                let a: Box<dyn PlayerCommand> = Box::new(MoveRight);
                let r = Some(a);
                assert(carried_out_by(r, Command::Right));
                r
            },
            Command::PlaceBomb => {
                let a: Box<dyn PlayerCommand> = Box::new(PlaceBomb);
                let r = Some(a);
                assert(carried_out_by(r, Command::PlaceBomb));
                r
            },
            Command::Wait => {
                let a: Box<dyn PlayerCommand> = Box::new(Wait);
                let r = Some(a);
                assert(carried_out_by(r, Command::Wait));
                r
            },
        }
    }
}

} // verus!
