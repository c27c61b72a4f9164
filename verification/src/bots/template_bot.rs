use vstd::prelude::*;
use crate::bot::Bot;
use crate::text::{label, labelled};
use crate::command::Command;
use crate::coord::Coord;
use crate::map::GameMap;
use crate::map_config::MapConfig;

verus! {

/// A starting point for a new bot: it remembers its seat and always waits.
pub struct TemplateBot {
    pub name: String,
    pub id: usize,
}

impl TemplateBot {
    /// A bot with an empty name in seat zero.
    pub fn new() -> (b: Self)
        ensures
            b.name@.len() == 0,
            b.id == 0,
    {
        Self { name: String::new(), id: 0 }
    }
}

impl Bot for TemplateBot {
    fn name(&self) -> (s: String)
        ensures
            s@ == labelled(self.name@, self.id as nat),
    {
        label(&self.name, self.id)
    }

    fn start_game(&mut self, _map_settings: &MapConfig, bot_id: usize) -> (ok: bool)
        ensures
            ok,
            final(self).id == bot_id,
            final(self).name == old(self).name,
    {
        self.id = bot_id;
        true
    }

    fn get_move(&mut self, _map: &GameMap, _player_location: Coord) -> (c: Command)
        ensures
            c == Command::Wait,
            *final(self) == *old(self),
    {
        Command::Wait
    }

    fn get_debug_info(&self) -> (s: String)
        ensures
            s@.len() == 0,
    {
        String::new()
    }
}

} // verus!
