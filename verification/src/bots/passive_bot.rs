use vstd::prelude::*;
use crate::bot::Bot;
use crate::text::{label, labelled};
use crate::command::Command;
use crate::coord::Coord;
use crate::map::GameMap;
use crate::map_config::MapConfig;

verus! {

/// A bot that never acts: every turn it waits where it stands.
pub struct PassiveBot {
    pub name: String,
    pub id: usize,
}

impl PassiveBot {
    pub fn new() -> (b: Self)
        ensures
            b.name@ == "PassiveBot"@,
            b.id == 0,
    {
        Self { name: String::from_str("PassiveBot"), id: 0 }
    }
}

impl Clone for PassiveBot {
    fn clone(&self) -> (r: Self)
        ensures
            r == *self,
    {
        PassiveBot { name: self.name.clone(), id: self.id }
    }
}

impl Bot for PassiveBot {
    fn name(&self) -> (s: String)
        ensures
            s@ == labelled(self.name@, self.id as nat),
    {
        label(&self.name, self.id)
    }

    fn start_game(&mut self, _map_settings: &MapConfig, bot_id: usize) -> (ok: bool)
        ensures
            ok,
            final(self).id == bot_id,
            final(self).name == old(self).name,
    {
        self.id = bot_id;
        true
    }

    fn get_move(&mut self, _map: &GameMap, _player_location: Coord) -> (c: Command)
        ensures
            c == Command::Wait,
            *final(self) == *old(self),
    {
        Command::Wait
    }
}

} // verus!
