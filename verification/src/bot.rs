use vstd::prelude::*;
use crate::command::Command;
use crate::coord::Coord;
use crate::map::GameMap;
use crate::map_config::MapConfig;

verus! {

/// A bot that can play the game. The game only talks to bots through this trait: it
/// announces the settings once, then asks for a command every turn.
pub trait Bot {
    fn name(&self) -> String;

    fn start_game(&mut self, map_settings: &MapConfig, bot_id: usize) -> bool;

    fn get_move(&mut self, map: &GameMap, player_location: Coord) -> Command
        requires
            map.wf(),
    ;

    fn get_debug_info(&self) -> (s: String)
        default_ensures
            s@ == Seq::<char>::empty(),
    {
        String::new()
    }
}

/// A bot as the game holds it.
pub type BotController = Box<dyn Bot>;

/// The name and id a bot played under.
pub struct BotData {
    pub name: String,
    pub id: usize,
}

impl Clone for BotData {
    fn clone(&self) -> (r: Self)
        ensures
            r.name@ == self.name@,
            r.id == self.id,
    {
        BotData { name: self.name.clone(), id: self.id }
    }
}

} // verus!
