use vstd::prelude::*;
use crate::bot::Bot;
use crate::bots::board::{random_wander, wander_moves};
use crate::text::{label, labelled};
use crate::command::Command;
use crate::coord::Coord;
use crate::map::GameMap;
use crate::map_config::MapConfig;

verus! {

/// A bot that wanders at random and never places a bomb.
pub struct RandomBot {
    pub name: String,
    pub id: usize,
}

impl RandomBot {
    pub fn new() -> (b: Self)
        ensures
            b.name@ == "RandomBot"@,
            b.id == 0,
    {
        RandomBot { name: String::from_str("RandomBot"), id: 0 }
    }
}

impl Default for RandomBot {
    fn default() -> (b: Self)
        ensures
            b.name@ == "RandomBot"@,
            b.id == 0,
    {
        Self::new()
    }
}

impl Bot for RandomBot {
    fn name(&self) -> (s: String)
        ensures
            s@ == labelled(self.name@, self.id as nat),
    {
        label(&self.name, self.id)
    }

    fn start_game(&mut self, _map_settings: &MapConfig, bot_id: usize) -> (ok: bool)
        ensures
            ok,
            final(self).id == bot_id,
            final(self).name == old(self).name,
    {
        self.id = bot_id;
        true
    }

    /// One of the four moves or a wait, drawn at random.
    fn get_move(&mut self, _map: &GameMap, _player_location: Coord) -> (c: Command)
        ensures
            wander_moves().contains(c),
            *final(self) == *old(self),
    {
        random_wander()
    }
}

} // verus!
