use vstd::prelude::*;
use crate::bot::Bot;
use crate::bots::board::{cell_char, char_at, random_below, wander_moves};
use crate::text::{label, labelled};
use crate::bots::gerhard_bot::{bot_near, gap, is_a_bot_near, is_danger, safe_moves, safe_options, threatened};
use crate::command::Command;
use crate::coord::{Coord, step_command};
use crate::map::GameMap;
use crate::map_config::MapConfig;

verus! {

broadcast use vstd::seq_lib::group_filter_ensures;

/// A bot that keeps out of the bombs' lines and otherwise walks towards the players.
pub struct CuddleBot {
    pub name: String,
    pub id: usize,
    pub map_settings: MapConfig,
}

/// Some player other than one named `CuddleBot-G (0)` shares a row or a column with
/// `loc` and stands at least `radius` tiles away along it.
pub open spec fn player_in_line(map: GameMap, loc: Coord, radius: usize) -> bool {
    exists|i: int| 0 <= i < map.players@.len() && {
        let p = #[trigger] map.players@[i];
        &&& p.name@ != "CuddleBot-G (0)"@
        &&& {
            ||| p.position.row == loc.row && gap(p.position.col.0, loc.col.0) >= radius
            ||| p.position.col == loc.col && gap(p.position.row.0, loc.row.0) >= radius
        }
    }
}

/// The command `c` leads from `me` onto an empty tile in line with a player.
pub open spec fn hunt_option(map: GameMap, me: Coord, radius: usize, c: Command) -> bool {
    match step_command(me, c) {
        Some(t) => cell_char(map, t) == ' ' && player_in_line(map, t, radius),
        None => false,
    }
}

/// The hunting ones among the four moves and waiting, in that order.
pub open spec fn hunt_options(map: GameMap, me: Coord, radius: usize) -> Seq<Command> {
    wander_moves().filter(|c: Command| hunt_option(map, me, radius, c))
}

/// A player named `GBot-G (0)` takes part.
pub open spec fn gerhard_present(map: GameMap) -> bool {
    exists|i: int| 0 <= i < map.players@.len() && (#[trigger] map.players@[i]).name@ == "GBot-G (0)"@
}

impl CuddleBot {
    pub fn new() -> (b: Self)
        ensures
            b.name@ == "CuddleBot"@,
            b.id == 0,
            b.map_settings.bomb_radius == 2,
    {
        CuddleBot { name: String::from_str("CuddleBot"), id: 0, map_settings: MapConfig::default() }
    }

    fn safe_moves(&self, map: &GameMap, me: Coord) -> (opts: Vec<Command>)
        ensures
            opts@ == safe_options(*map, me, self.map_settings.bomb_radius),
    {
        safe_moves(map, me, self.map_settings.bomb_radius)
    }

    fn is_a_bot_near(&self, map: &GameMap, me: Coord) -> (b: bool)
        ensures
            b == bot_near(*map, me),
    {
        is_a_bot_near(map, me)
    }

    fn is_danger(&self, map: &GameMap, location: Coord) -> (b: bool)
        ensures
            b == threatened(*map, location, self.map_settings.bomb_radius),
    {
        is_danger(map, location, self.map_settings.bomb_radius)
    }

    /// The options that lead onto an empty tile in line with a player.
    fn go_to_player(&self, map: &GameMap, me: Coord) -> (opts: Vec<Command>)
        ensures
            opts@ == hunt_options(*map, me, self.map_settings.bomb_radius),
    {
        let radius = self.map_settings.bomb_radius;
        let commands = [Command::Up, Command::Down, Command::Left, Command::Right, Command::Wait];
        let mut opts: Vec<Command> = Vec::new();
        let ghost pred = |c: Command| hunt_option(*map, me, radius, c);
        for k in 0..5
            invariant
                radius == self.map_settings.bomb_radius,
                commands@ == wander_moves(),
                pred == (|c: Command| hunt_option(*map, me, radius, c)),
                opts@ == wander_moves().take(k as int).filter(pred),
        {
            let command = commands[k];
            let mut open = false;
            if let Some(field) = me.move_command(command) {
                if char_at(map, field) == ' ' && self.is_player_this_direction(map, field) {
                    open = true;
                }
            }
            proof {
                reveal(Seq::filter);
                assert(wander_moves().take(k + 1).drop_last() =~= wander_moves().take(k as int));
                assert(open == pred(command));
            }
            if open {
                opts.push(command);
            }
        }
        proof {
            assert(wander_moves().take(5) =~= wander_moves());
        }
        opts
    }

    /// Is some other player in line with `location`, at least a blast radius away?
    fn is_player_this_direction(&self, map: &GameMap, location: Coord) -> (b: bool)
        ensures
            b == player_in_line(*map, location, self.map_settings.bomb_radius),
    {
        let radius = self.map_settings.bomb_radius;
        let own = String::from_str("CuddleBot-G (0)");
        for i in 0..map.players.len()
            invariant
                radius == self.map_settings.bomb_radius,
                own@ == "CuddleBot-G (0)"@,
                forall|j: int| 0 <= j < i ==> {
                    let p = #[trigger] map.players@[j];
                    !(p.name@ != "CuddleBot-G (0)"@ && {
                        ||| p.position.row == location.row && gap(p.position.col.0, location.col.0) >= radius
                        ||| p.position.col == location.col && gap(p.position.row.0, location.row.0) >= radius
                    })
                },
        {
            let p = &map.players[i];
            if !(p.name == own) {
                let same_row = p.position.row.get() == location.row.get();
                let same_col = p.position.col.get() == location.col.get();
                let row_dist = if p.position.row.get() < location.row.get() { location.row.get() - p.position.row.get() } else { p.position.row.get() - location.row.get() };
                let col_dist = if p.position.col.get() < location.col.get() { location.col.get() - p.position.col.get() } else { p.position.col.get() - location.col.get() };
                if (same_row && col_dist >= radius) || (same_col && row_dist >= radius) {
                    return true;
                }
            }
        }
        false
    }

    /// Does a player named `GBot-G (0)` take part?
    fn is_other_player_gerhard(&self, map: &GameMap) -> (b: bool)
        ensures
            b == gerhard_present(*map),
    {
        let other = String::from_str("GBot-G (0)");
        for i in 0..map.players.len()
            invariant
                other@ == "GBot-G (0)"@,
                forall|j: int| 0 <= j < i ==> (#[trigger] map.players@[j]).name@ != "GBot-G (0)"@,
        {
            if map.players[i].name == other {
                return true;
            }
        }
        false
    }
}

impl Default for CuddleBot {
    fn default() -> (b: Self)
        ensures
            b.name@ == "CuddleBot"@,
            b.id == 0,
    {
        Self::new()
    }
}

impl Bot for CuddleBot {
    fn name(&self) -> (s: String)
        ensures
            s@ == labelled(self.name@, self.id as nat),
    {
        label(&self.name, self.id)
    }

    fn start_game(&mut self, map_settings: &MapConfig, bot_id: usize) -> (ok: bool)
        ensures
            !ok,
            final(self).id == bot_id,
            final(self).name == old(self).name,
            final(self).map_settings.size == map_settings.size,
            final(self).map_settings.bomb_radius == map_settings.bomb_radius,
            final(self).map_settings.bomb_timer == map_settings.bomb_timer,
            final(self).map_settings.endgame == map_settings.endgame,
    {
        self.id = bot_id;
        self.map_settings = map_settings.clone();
        false
    }

    /// A bomb when `GBot-G (0)` plays; otherwise a random safe option, else a random
    /// hunting option, else a bomb when a player is near, else a wait.
    fn get_move(&mut self, map: &GameMap, me: Coord) -> (c: Command)
        ensures
            *final(self) == *old(self),
            ({
                let radius = old(self).map_settings.bomb_radius;
                let safe = safe_options(*map, me, radius);
                let hunt = hunt_options(*map, me, radius);
                if gerhard_present(*map) {
                    c == Command::PlaceBomb
                } else if safe.len() > 0 {
                    safe.contains(c)
                } else if hunt.len() > 0 {
                    hunt.contains(c)
                } else if bot_near(*map, me) {
                    c == Command::PlaceBomb
                } else {
                    c == Command::Wait
                }
            }),
    {
        if self.is_other_player_gerhard(map) {
            return Command::PlaceBomb;
        }
        let safe = self.safe_moves(map, me);
        if safe.len() > 0 {
            let i = random_below(safe.len());
            return safe[i];
        }
        let hunt = self.go_to_player(map, me);
        if hunt.len() > 0 {
            let i = random_below(hunt.len());
            return hunt[i];
        }
        if self.is_a_bot_near(map, me) {
            return Command::PlaceBomb;
        }
        Command::Wait
    }
}

} // verus!
