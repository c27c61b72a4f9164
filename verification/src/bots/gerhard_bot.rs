use vstd::prelude::*;
use crate::bot::Bot;
use crate::bots::board::{cell_char, char_at, random_below, wander_moves};
use crate::text::{label, labelled};
use crate::command::Command;
use crate::coord::{Coord, step_command};
use crate::map::GameMap;
use crate::map_config::MapConfig;

verus! {

broadcast use vstd::seq_lib::group_filter_ensures;

/// A bot that keeps out of every bomb's line and bombs when a player is next to it.
pub struct GerhardBot {
    pub name: String,
    pub id: usize,
    pub map_settings: MapConfig,
}

/// The distance between two indices.
pub open spec fn gap(a: usize, b: usize) -> int {
    if a < b { b - a } else { a - b }
}

/// Some bomb of `map` shares a row or a column with `loc` and lies at most
/// `radius + 5` tiles away along it.
pub open spec fn threatened(map: GameMap, loc: Coord, radius: usize) -> bool {
    exists|i: int| 0 <= i < map.bombs@.len() && {
        let b = (#[trigger] map.bombs@[i]).position;
        ||| b.row == loc.row && gap(b.col.0, loc.col.0) <= radius + 5
        ||| b.col == loc.col && gap(b.row.0, loc.row.0) <= radius + 5
    }
}

/// The command `c` leads from `me` onto an empty tile that no bomb threatens.
pub open spec fn safe_option(map: GameMap, me: Coord, radius: usize, c: Command) -> bool {
    match step_command(me, c) {
        Some(t) => cell_char(map, t) == ' ' && !threatened(map, t, radius),
        None => false,
    }
}

/// The safe ones among the four moves and waiting, in that order.
pub open spec fn safe_options(map: GameMap, me: Coord, radius: usize) -> Seq<Command> {
    wander_moves().filter(|c: Command| safe_option(map, me, radius, c))
}

/// The command `c` leads from `me` onto a tile holding a `'p'`.
pub open spec fn leads_to_p(map: GameMap, me: Coord, c: Command) -> bool {
    match step_command(me, c) {
        Some(t) => cell_char(map, t) == 'p',
        None => false,
    }
}

/// One of the tiles around `me`, or `me` itself, holds a `'p'`.
pub open spec fn bot_near(map: GameMap, me: Coord) -> bool {
    exists|k: int| 0 <= k < 5 && #[trigger] leads_to_p(map, me, wander_moves()[k])
}

/// A bomb threatens every tile in its row and in its column up to `radius + 5` tiles away.
pub proof fn law_bomb_lines_are_dangerous(map: GameMap, loc: Coord, radius: usize, i: int)
    requires
        0 <= i < map.bombs@.len(),
        map.bombs@[i].position.row == loc.row && gap(map.bombs@[i].position.col.0, loc.col.0) <= radius + 5
            || map.bombs@[i].position.col == loc.col && gap(map.bombs@[i].position.row.0, loc.row.0) <= radius + 5,
    ensures
        threatened(map, loc, radius),
{
    let b = map.bombs@[i].position;
    assert(b == (map.bombs@[i]).position);
}

/// No safe option leads onto a tile in the row or the column of a bomb within
/// `radius + 5` tiles of it, nor onto anything but an empty tile.
pub proof fn law_safe_moves_avoid_bomb_lines(map: GameMap, me: Coord, radius: usize, c: Command, i: int)
    requires
        safe_options(map, me, radius).contains(c),
        0 <= i < map.bombs@.len(),
    ensures
        step_command(me, c) is Some,
        cell_char(map, step_command(me, c).unwrap()) == ' ',
        ({
            let t = step_command(me, c).unwrap();
            let b = map.bombs@[i].position;
            &&& !(b.col == t.col && gap(b.row.0, t.row.0) <= radius + 5)
            &&& !(b.row == t.row && gap(b.col.0, t.col.0) <= radius + 5)
        }),
{
    let pred = |x: Command| safe_option(map, me, radius, x);
    let k = choose|k: int| 0 <= k < safe_options(map, me, radius).len() && safe_options(map, me, radius)[k] == c;
    wander_moves().lemma_filter_pred(pred, k);
    let t = step_command(me, c).unwrap();
    let b = map.bombs@[i].position;
    if b.col == t.col && gap(b.row.0, t.row.0) <= radius + 5 || b.row == t.row && gap(b.col.0, t.col.0) <= radius + 5 {
        law_bomb_lines_are_dangerous(map, t, radius, i);
    }
}

/// Does a bomb threaten `location`?
pub fn is_danger(map: &GameMap, location: Coord, radius: usize) -> (b: bool)
    ensures
        b == threatened(*map, location, radius),
{
    let reach = radius.saturating_add(5);
    for i in 0..map.bombs.len()
        invariant
            reach as int == if radius + 5 > usize::MAX { usize::MAX as int } else { radius + 5 },
            forall|j: int| 0 <= j < i ==> {
                let b = (#[trigger] map.bombs@[j]).position;
                !(b.row == location.row && gap(b.col.0, location.col.0) <= radius + 5)
                && !(b.col == location.col && gap(b.row.0, location.row.0) <= radius + 5)
            },
    {
        let p = map.bombs[i].position;
        let same_row = p.row.get() == location.row.get();
        let same_col = p.col.get() == location.col.get();
        let row_dist = if p.row.get() < location.row.get() { location.row.get() - p.row.get() } else { p.row.get() - location.row.get() };
        let col_dist = if p.col.get() < location.col.get() { location.col.get() - p.col.get() } else { p.col.get() - location.col.get() };
        if (same_row && col_dist <= reach) || (same_col && row_dist <= reach) {
            return true;
        }
    }
    false
}

/// The safe ones among the four moves and waiting.
pub fn safe_moves(map: &GameMap, me: Coord, radius: usize) -> (opts: Vec<Command>)
    ensures
        opts@ == safe_options(*map, me, radius),
{
    let commands = [Command::Up, Command::Down, Command::Left, Command::Right, Command::Wait];
    let mut opts: Vec<Command> = Vec::new();
    let ghost pred = |c: Command| safe_option(*map, me, radius, c);
    for k in 0..5
        invariant
            commands@ == wander_moves(),
            pred == (|c: Command| safe_option(*map, me, radius, c)),
            opts@ == wander_moves().take(k as int).filter(pred),
    {
        let command = commands[k];
        let mut safe = false;
        if let Some(field) = me.move_command(command) {
            if char_at(map, field) == ' ' && !is_danger(map, field, radius) {
                safe = true;
            }
        }
        proof {
            reveal(Seq::filter);
            assert(wander_moves().take(k + 1).drop_last() =~= wander_moves().take(k as int));
            assert(safe == pred(command));
        }
        if safe {
            opts.push(command);
        }
    }
    proof {
        assert(wander_moves().take(5) =~= wander_moves());
    }
    opts
}

/// Is there a `'p'` on `me` or next to it?
pub fn is_a_bot_near(map: &GameMap, me: Coord) -> (b: bool)
    ensures
        b == bot_near(*map, me),
{
    let commands = [Command::Up, Command::Down, Command::Left, Command::Right, Command::Wait];
    for k in 0..5
        invariant
            commands@ == wander_moves(),
            forall|j: int| 0 <= j < k ==> !#[trigger] leads_to_p(*map, me, wander_moves()[j]),
    {
        if let Some(field) = me.move_command(commands[k]) {
            if char_at(map, field) == 'p' {
                proof {
                    assert(leads_to_p(*map, me, wander_moves()[k as int]));
                }
                return true;
            }
        }
    }
    false
}

impl GerhardBot {
    pub fn new() -> (b: Self)
        ensures
            b.name@ == "GerhardBot"@,
            b.id == 0,
            b.map_settings.bomb_radius == 2,
    {
        GerhardBot { name: String::from_str("GerhardBot"), id: 0, map_settings: MapConfig::default() }
    }

    fn safe_moves(&self, map: &GameMap, me: Coord) -> (opts: Vec<Command>)
        ensures
            opts@ == safe_options(*map, me, self.map_settings.bomb_radius),
    {
        safe_moves(map, me, self.map_settings.bomb_radius)
    }

    fn is_a_bot_near(&self, map: &GameMap, me: Coord) -> (b: bool)
        ensures
            b == bot_near(*map, me),
    {
        is_a_bot_near(map, me)
    }

    fn is_danger(&self, map: &GameMap, location: Coord) -> (b: bool)
        ensures
            b == threatened(*map, location, self.map_settings.bomb_radius),
    {
        is_danger(map, location, self.map_settings.bomb_radius)
    }
}

impl Default for GerhardBot {
    fn default() -> (b: Self)
        ensures
            b.name@ == "GerhardBot"@,
            b.id == 0,
    {
        Self::new()
    }
}

impl Bot for GerhardBot {
    fn name(&self) -> (s: String)
        ensures
            s@ == labelled(self.name@, self.id as nat),
    {
        label(&self.name, self.id)
    }

    fn start_game(&mut self, map_settings: &MapConfig, bot_id: usize) -> (ok: bool)
        ensures
            !ok,
            final(self).id == bot_id,
            final(self).name == old(self).name,
            final(self).map_settings.size == map_settings.size,
            final(self).map_settings.bomb_radius == map_settings.bomb_radius,
            final(self).map_settings.bomb_timer == map_settings.bomb_timer,
            final(self).map_settings.endgame == map_settings.endgame,
    {
        self.id = bot_id;
        self.map_settings = map_settings.clone();
        false
    }

    /// A random safe option if there is one; otherwise a bomb when a player is near,
    /// or a wait.
    fn get_move(&mut self, map: &GameMap, me: Coord) -> (c: Command)
        ensures
            *final(self) == *old(self),
            ({
                let safe = safe_options(*map, me, old(self).map_settings.bomb_radius);
                &&& safe.len() > 0 ==> safe.contains(c)
                &&& safe.len() == 0 && bot_near(*map, me) ==> c == Command::PlaceBomb
                &&& safe.len() == 0 && !bot_near(*map, me) ==> c == Command::Wait
            }),
    {
        let safe = self.safe_moves(map, me);
        if safe.len() > 0 {
            let i = random_below(safe.len());
            return safe[i];
        }
        if self.is_a_bot_near(map, me) {
            return Command::PlaceBomb;
        }
        Command::Wait
    }
}

} // verus!
