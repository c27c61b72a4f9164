use vstd::prelude::*;
use crate::bot::Bot;
use crate::text::{label, labelled};
use crate::bots::passive_bot::PassiveBot;
use crate::command::Command;
use crate::coord::Coord;
use crate::map::GameMap;
use crate::map_config::MapConfig;

verus! {

/// A bot that plays a fixed opening, mirrored to its quarter of the board, and then
/// hands over to a passive bot.
pub struct ScoutBot {
    pub name: String,
    pub id: usize,
    pub map_settings: MapConfig,
    pub passive_bot: PassiveBot,
    pub command_list: Vec<Command>,
    pub current_index: usize,
    pub looping: bool,
    pub initialized: bool,
}

/// The opening as played from the top left quarter.
pub open spec fn scout_script() -> Seq<Command> {
    seq![Command::Right, Command::PlaceBomb, Command::Left, Command::Down, Command::Wait, Command::Up, Command::Right, Command::Right, Command::PlaceBomb, Command::Left, Command::Left, Command::Down, Command::Up, Command::Right, Command::PlaceBomb, Command::Left, Command::Down, Command::Wait, Command::Up, Command::Right, Command::Right, Command::Right, Command::Right, Command::PlaceBomb, Command::Left, Command::Left, Command::Down, Command::Up, Command::Right, Command::Right, Command::PlaceBomb, Command::Left, Command::Left, Command::Down, Command::Up, Command::Right, Command::Right, Command::PlaceBomb, Command::Left, Command::Left, Command::Down, Command::Up, Command::Right, Command::Right, Command::Down, Command::Down, Command::PlaceBomb, Command::Up, Command::Up, Command::Left, Command::Right, Command::Down, Command::Down, Command::Down, Command::Down, Command::PlaceBomb, Command::Up, Command::Up, Command::Right, Command::Left, Command::Down, Command::Down, Command::PlaceBomb, Command::Up, Command::Up, Command::Left]
}

/// `c` with up and down swapped.
pub open spec fn flip_vertical(c: Command) -> Command {
    match c {
        Command::Up => Command::Down,
        Command::Down => Command::Up,
        other => other,
    }
}

/// `c` with left and right swapped.
pub open spec fn flip_horizontal(c: Command) -> Command {
    match c {
        Command::Left => Command::Right,
        Command::Right => Command::Left,
        other => other,
    }
}

/// The opening for a start at `loc`: mirrored vertically in the lower half of the
/// board and horizontally in the right half.
pub open spec fn opening_for(loc: Coord, height: i32, width: i32) -> Seq<Command> {
    let lower = loc.row.0 >= (height as usize) / 2;
    let right = loc.col.0 >= (width as usize) / 2;
    scout_script().map_values(|c: Command| {
        let v = if lower { flip_vertical(c) } else { c };
        if right { flip_horizontal(v) } else { v }
    })
}

impl ScoutBot {
    pub fn new() -> (b: Self)
        ensures
            b.name@ == "ScoutBot"@,
            b.id == 0,
            b.command_list@.len() == 0,
            b.current_index == 0,
            !b.looping,
            !b.initialized,
    {
        ScoutBot {
            name: String::from_str("ScoutBot"),
            id: 0,
            map_settings: MapConfig::default(),
            passive_bot: PassiveBot::new(),
            command_list: Vec::new(),
            current_index: 0,
            looping: false,
            initialized: false,
        }
    }

    fn hardcoded_script() -> (v: Vec<Command>)
        ensures
            v@ == scout_script(),
    {
        let v = vec![Command::Right, Command::PlaceBomb, Command::Left, Command::Down, Command::Wait, Command::Up, Command::Right, Command::Right, Command::PlaceBomb, Command::Left, Command::Left, Command::Down, Command::Up, Command::Right, Command::PlaceBomb, Command::Left, Command::Down, Command::Wait, Command::Up, Command::Right, Command::Right, Command::Right, Command::Right, Command::PlaceBomb, Command::Left, Command::Left, Command::Down, Command::Up, Command::Right, Command::Right, Command::PlaceBomb, Command::Left, Command::Left, Command::Down, Command::Up, Command::Right, Command::Right, Command::PlaceBomb, Command::Left, Command::Left, Command::Down, Command::Up, Command::Right, Command::Right, Command::Down, Command::Down, Command::PlaceBomb, Command::Up, Command::Up, Command::Left, Command::Right, Command::Down, Command::Down, Command::Down, Command::Down, Command::PlaceBomb, Command::Up, Command::Up, Command::Right, Command::Left, Command::Down, Command::Down, Command::PlaceBomb, Command::Up, Command::Up, Command::Left];
        proof {
            assert(v@ =~= scout_script());
        }
        v
    }

    fn get_correct_init_list(loc: Coord, height: i32, width: i32) -> (v: Vec<Command>)
        ensures
            v@ == opening_for(loc, height, width),
    {
        let script = ScoutBot::hardcoded_script();
        let lower = loc.row.get() >= (height as usize) / 2;
        let right = loc.col.get() >= (width as usize) / 2;
        let mut v: Vec<Command> = Vec::new();
        for i in 0..script.len()
            invariant
                script@ == scout_script(),
                lower == (loc.row.0 >= (height as usize) / 2),
                right == (loc.col.0 >= (width as usize) / 2),
                v@ == opening_for(loc, height, width).take(i as int),
        {
            let c = script[i];
            let vert = if lower {
                match c {
                    Command::Up => Command::Down,
                    Command::Down => Command::Up,
                    other => other,
                }
            } else {
                c
            };
            let both = if right {
                match vert {
                    Command::Left => Command::Right,
                    Command::Right => Command::Left,
                    other => other,
                }
            } else {
                vert
            };
            v.push(both);
            proof {
                assert(v@ =~= opening_for(loc, height, width).take(i + 1));
            }
        }
        proof {
            assert(v@ =~= opening_for(loc, height, width));
        }
        v
    }
}

impl Default for ScoutBot {
    fn default() -> (b: Self)
        ensures
            b.name@ == "ScoutBot"@,
            b.id == 0,
            !b.initialized,
    {
        Self::new()
    }
}

impl Bot for ScoutBot {
    fn name(&self) -> (s: String)
        ensures
            s@ == labelled(self.name@, self.id as nat),
    {
        label(&self.name, self.id)
    }

    fn start_game(&mut self, map_settings: &MapConfig, bot_id: usize) -> (ok: bool)
        ensures
            ok,
            final(self).id == bot_id,
            final(self).name == old(self).name,
            final(self).initialized == old(self).initialized,
            final(self).command_list == old(self).command_list,
            final(self).current_index == old(self).current_index,
            final(self).looping == old(self).looping,
            final(self).map_settings.size == map_settings.size,
            final(self).map_settings.bomb_radius == map_settings.bomb_radius,
            final(self).map_settings.bomb_timer == map_settings.bomb_timer,
            final(self).map_settings.endgame == map_settings.endgame,
    {
        self.id = bot_id;
        self.map_settings = map_settings.clone();
        true
    }

    /// On the first call the opening for the player's quarter is prepared. The opening
    /// is played command by command; after it, the passive bot decides.
    fn get_move(&mut self, map: &GameMap, player_location: Coord) -> (c: Command)
        ensures
            final(self).name == old(self).name,
            final(self).id == old(self).id,
            final(self).map_settings == old(self).map_settings,
            final(self).initialized,
            ({
                let size = old(self).map_settings.size;
                let list = if old(self).initialized { old(self).command_list@ }
                    else { opening_for(player_location, size as i32, size as i32) };
                let index = if old(self).initialized { old(self).current_index } else { 0 };
                let looping = old(self).initialized && old(self).looping;
                &&& final(self).command_list@ == list
                &&& (!looping && index < list.len()) ==> {
                    &&& c == list[index as int]
                    &&& final(self).current_index == index + 1
                    &&& !final(self).looping
                }
                &&& !(!looping && index < list.len()) ==> {
                    &&& c == Command::Wait
                    &&& final(self).looping
                    &&& final(self).current_index == if looping { index } else { 0 }
                }
            }),
    {
        if !self.initialized {
            let height = self.map_settings.size as i32;
            let width = self.map_settings.size as i32;
            self.command_list = ScoutBot::get_correct_init_list(player_location, height, width);
            self.initialized = true;
            self.current_index = 0;
            self.looping = false;
        }
        if !self.looping {
            if self.current_index < self.command_list.len() {
                let cmd = self.command_list[self.current_index];
                self.current_index = self.current_index + 1;
                return cmd;
            }
            self.looping = true;
            self.current_index = 0;
        }
        self.passive_bot.get_move(map, player_location)
    }
}

} // verus!
