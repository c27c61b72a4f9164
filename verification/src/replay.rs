use vstd::prelude::*;
use crate::bomb::Bomb;
use crate::command::Command;
use crate::coord::Coord;
use crate::game::{Game, alive_ids, commands_played, replay_covers, replay_has_turn, round_finished};
use crate::map::{GameMap, same_roster};
use crate::map_config::MapConfig;
use crate::player::Player;

verus! {

/// Every turn of a replayed game, with the settings it was played under.
pub struct GameReplaySnapshot {
    pub map_settings: MapConfig,
    pub turns: Vec<MapReplaySnapshot>,
}

/// The board as it stood after one turn.
pub struct MapReplaySnapshot {
    pub turn: usize,
    pub players: Vec<Player>,
    pub bombs: Vec<Bomb>,
    pub grid: Vec<char>,
    pub explosions: Vec<Coord>,
}

/// `s` shows `game` as it stands.
pub open spec fn shows(s: MapReplaySnapshot, game: Game) -> bool {
    &&& s.turn == game.turn
    &&& s.players@ == game.map.players@
    &&& s.bombs@ == game.map.bombs@
    &&& s.grid@ == game.map.grid.tiles@
    &&& s.explosions@ == game.map.explosions@
}

/// `s` pictures the board of `map`: its players, bombs, tiles and explosions.
pub open spec fn pictures(s: MapReplaySnapshot, map: GameMap) -> bool {
    &&& s.players@ == map.players@
    &&& s.bombs@ == map.bombs@
    &&& s.grid@ == map.grid.tiles@
    &&& s.explosions@ == map.explosions@
}

/// `after` is `before` once every living player of `before`, in seating order, has
/// carried out the command `replay` records for it at `turn`, and then the bombs were
/// processed and the shrink applied.
pub open spec fn round_replayed(before: GameMap, after: GameMap, replay: Seq<Vec<Command>>, turn: int) -> bool {
    exists|maps: Seq<GameMap>, commands: Seq<Command>| {
        &&& #[trigger] commands_played(maps, alive_ids(before.players@), commands)
        &&& maps[0] == before
        &&& forall|k: int| 0 <= k < commands.len()
            ==> #[trigger] commands[k] == replay[alive_ids(before.players@)[k] as int]@[turn]
        &&& round_finished(maps.last(), after, turn)
    }
}

/// Round `k` of `maps`, played at turn `first_turn + k`, replays `replay`.
pub open spec fn replayed_step(maps: Seq<GameMap>, k: int, replay: Seq<Vec<Command>>, first_turn: int) -> bool {
    round_replayed(maps[k], maps[k + 1], replay, first_turn + k)
}

/// Plays a recorded game again, turn by turn.
pub struct ReplayEngine<'a> {
    pub game: &'a mut Game,
}

impl<'a> ReplayEngine<'a> {
    /// An engine that replays on `game`.
    pub fn new(game: &'a mut Game) -> (e: Self)
        ensures
            *e.game == *old(game),
            *final(game) == *final(e.game),
    {
        Self { game }
    }

    /// Replays `commands` from the current turn until a player has won, recording the
    /// board before the first round and after each round. The rounds also stop at the
    /// turn limit, and when `commands` hold no command for a living player at the
    /// coming turn.
    pub fn to_snapshot(&mut self, commands: &Vec<Vec<Command>>) -> (r: GameReplaySnapshot)
        requires
            old(self).game.wf(),
            old(self).game.ids_ok(),
        ensures
            final(self).game.wf(),
            final(self).game.ids_ok(),
            final(self).game.map.winner is Some || final(self).game.turn == final(self).game.max_turn
                || !replay_covers(commands@, final(self).game.map.players@, final(self).game.turn as int),
            final(self).game.turn >= old(self).game.turn,
            final(self).game.max_turn == old(self).game.max_turn,
            final(self).game.map.map_settings == old(self).game.map.map_settings,
            same_roster(old(self).game.map.players@, final(self).game.map.players@),
            r.map_settings.size == old(self).game.map.map_settings.size,
            r.map_settings.player_names@ == old(self).game.map.map_settings.player_names@,
            r.map_settings.bomb_timer == old(self).game.map.map_settings.bomb_timer,
            r.map_settings.bomb_radius == old(self).game.map.map_settings.bomb_radius,
            r.map_settings.endgame == old(self).game.map.map_settings.endgame,
            r.turns@.len() == final(self).game.turn - old(self).game.turn + 1,
            shows(r.turns@[0], *old(self).game),
            shows(r.turns@.last(), *final(self).game),
            forall|k: int| 0 <= k < r.turns@.len() ==> (#[trigger] r.turns@[k]).turn == old(self).game.turn + k,
            final(self).game.player_actions@ == old(self).game.player_actions@,
            final(self).game.debug_info@ == old(self).game.debug_info@,
            exists|maps: Seq<GameMap>| {
                &&& maps.len() == r.turns@.len()
                &&& maps[0] == old(self).game.map
                &&& maps.last() == final(self).game.map
                &&& forall|k: int| 0 <= k < maps.len() ==> pictures(#[trigger] r.turns@[k], maps[k])
                &&& forall|k: int| 0 <= k < maps.len() - 1
                    ==> #[trigger] replayed_step(maps, k, commands@, old(self).game.turn as int)
            },
    {
        let mut turn_snapshots: Vec<MapReplaySnapshot> = Vec::new();
        turn_snapshots.push(self.get_snapshot());
        let ghost start = *self.game;
        let ghost mut maps: Seq<GameMap> = seq![self.game.map];
        while !self.game.map.has_winner() && self.game.turn < self.game.max_turn
            invariant
                self.game.wf(),
                self.game.ids_ok(),
                self.game.turn >= start.turn,
                self.game.max_turn == start.max_turn,
                self.game.map.map_settings == start.map.map_settings,
                same_roster(start.map.players@, self.game.map.players@),
                turn_snapshots@.len() == self.game.turn - start.turn + 1,
                shows(turn_snapshots@[0], start),
                shows(turn_snapshots@.last(), *self.game),
                forall|k: int| 0 <= k < turn_snapshots@.len() ==> (#[trigger] turn_snapshots@[k]).turn == start.turn + k,
                self.game.player_actions@ == start.player_actions@,
                self.game.debug_info@ == start.debug_info@,
                maps.len() == turn_snapshots@.len(),
                maps[0] == start.map,
                maps.last() == self.game.map,
                forall|k: int| 0 <= k < maps.len() ==> pictures(#[trigger] turn_snapshots@[k], maps[k]),
                forall|k: int| 0 <= k < maps.len() - 1
                    ==> #[trigger] replayed_step(maps, k, commands@, start.turn as int),
            ensures
                self.game.map.winner is Some || self.game.turn == self.game.max_turn
                    || !replay_covers(commands@, self.game.map.players@, self.game.turn as int),
            decreases self.game.max_turn - self.game.turn,
        {
            if !replay_has_turn(commands, &self.game.map.players, self.game.turn) {
                break;
            }
            let ghost before = self.game.map;
            let ghost turn = self.game.turn as int;
            self.game.run_round(Some(commands));
            let ghost prev = maps;
            proof {
                assert(round_replayed(before, self.game.map, commands@, turn));
                maps = maps.push(self.game.map);
                assert forall|k: int| 0 <= k < maps.len() - 1
                    implies #[trigger] replayed_step(maps, k, commands@, start.turn as int) by {
                    if k < prev.len() - 1 {
                        assert(replayed_step(prev, k, commands@, start.turn as int));
                        assert(maps[k] == prev[k] && maps[k + 1] == prev[k + 1]);
                    } else {
                        assert(maps[k] == before && maps[k + 1] == self.game.map);
                    }
                }
            }
            turn_snapshots.push(self.get_snapshot());
            proof {
                assert forall|k: int| 0 <= k < maps.len() implies pictures(#[trigger] turn_snapshots@[k], maps[k]) by {
                    if k < prev.len() {
                        assert(maps[k] == prev[k]);
                    }
                }
            }
        }
        proof {
            assert(maps.len() == turn_snapshots@.len());
        }
        GameReplaySnapshot { map_settings: self.game.map.map_settings.clone(), turns: turn_snapshots }
    }

    /// The board as it stands now.
    fn get_snapshot(&self) -> (s: MapReplaySnapshot)
        ensures
            shows(s, *old(self.game)),
    {
        MapReplaySnapshot {
            turn: self.game.turn,
            players: self.game.map.players.clone(),
            bombs: self.game.map.bombs.clone(),
            grid: self.game.map.grid.tiles.clone(),
            explosions: self.game.map.explosions.clone(),
        }
    }
}

} // verus!
