use vstd::prelude::*;
use crate::bomb_processor::{BombProcessor, bombs_processed};
use crate::commands::command_effect;
use crate::bot::{BotController, BotData};
use crate::command::Command;
use crate::coord::{Coord, coord};
use crate::game_result::{GameResult, reports, score_fits};
use crate::map::{GameMap, alive_players, is_first_with_id, same_roster, shrink_done};
use crate::map_config::MapConfig;
use crate::player::Player;
use crate::validator::valid_map_size;

verus! {

broadcast use vstd::seq_lib::group_filter_ensures;

/// `maps` runs through `commands`, carried out one after the other, each by the player
/// at the matching index of `players`: it holds the map before each command and the map
/// after the last one.
pub open spec fn commands_played(maps: Seq<GameMap>, players: Seq<usize>, commands: Seq<Command>) -> bool {
    &&& maps.len() == players.len() + 1
    &&& commands.len() == players.len()
    &&& forall|k: int| 0 <= k < players.len() ==> command_effect(maps[k], maps[k + 1], players[k] as int, #[trigger] commands[k])
}

/// The ids of the living players, in the order they were seated.
pub open spec fn alive_ids(players: Seq<Player>) -> Seq<usize> {
    alive_players(players).map_values(|p: Player| p.id)
}

/// How often `x` occurs in `s`.
pub open spec fn count_of(s: Seq<usize>, x: usize) -> nat
    decreases s.len(),
{
    if s.len() == 0 {
        0
    } else {
        count_of(s.drop_last(), x) + if s.last() == x { 1nat } else { 0nat }
    }
}

/// `log` grew from `before` by `n` entries at its end.
pub open spec fn grew_by<T>(before: Seq<T>, log: Seq<T>, n: nat) -> bool {
    &&& log.len() == before.len() + n
    &&& log.take(before.len() as int) == before
}

/// The end of a round on the map `played` after the players acted: the bombs are
/// processed, and from the endgame on the shrink of turn `turn` follows.
pub open spec fn round_finished(played: GameMap, after: GameMap, turn: int) -> bool {
    exists|blasted: GameMap| #[trigger] bombs_processed(played, blasted)
        && if played.map_settings.endgame <= turn { shrink_done(blasted, after, turn) } else { after == blasted }
}

/// A game in progress: the map, the bots playing it and what they did so far.
pub struct Game {
    pub map: GameMap,
    pub bots: Vec<BotController>,
    pub turn: usize,
    pub max_turn: usize,
    pub player_actions: Vec<Vec<Command>>,
    pub debug_info: Vec<Vec<String>>,
}

/// The number of turns a game on a board of side `size` can last: the turns before the
/// endgame plus one turn for every inner tile the shrink walls.
pub open spec fn turn_limit(endgame: int, size: int) -> int {
    endgame + (size - 2) * (size - 2)
}

/// How many of `n` candidates get a seat: there are four.
pub open spec fn seats(n: int) -> int {
    if n < 4 { n } else { 4 }
}

/// The starting tile of the `i`-th player on a board of side `size`: the four corners
/// of the inner area, in the order top-left, bottom-left, top-right, bottom-right.
pub open spec fn start_position(i: int, size: int) -> Coord {
    if i == 0 {
        coord(1, 1)
    } else if i == 1 {
        coord(1, size - 2)
    } else if i == 2 {
        coord(size - 2, 1)
    } else {
        coord(size - 2, size - 2)
    }
}

impl Game {
    /// The board is consistent and the turn counter lies within the game's limit.
    pub open spec fn wf(&self) -> bool {
        &&& self.map.wf()
        &&& self.turn <= self.max_turn
        &&& self.max_turn == turn_limit(self.map.map_settings.endgame as int, self.map.map_settings.size as int)
    }

    /// Every player's id names its own bot, action log and debug log, and a player.
    pub open spec fn ids_ok(&self) -> bool {
        forall|i: int| 0 <= i < self.map.players@.len() ==> {
            let id = (#[trigger] self.map.players@[i]).id;
            &&& id < self.map.players@.len()
            &&& id < self.bots@.len()
            &&& id < self.player_actions@.len()
            &&& id < self.debug_info@.len()
        }
    }
}


/// The replay holds a command at `turn` for every player alive in `players`.
pub open spec fn replay_covers(replay: Seq<Vec<Command>>, players: Seq<Player>, turn: int) -> bool {
    forall|i: int| 0 <= i < players.len() && (#[trigger] players[i]).alive ==> {
        let id = players[i].id;
        &&& id < replay.len()
        &&& turn < replay[id as int]@.len()
    }
}

/// Whether `replay` holds a command at `turn` for every living player of `players`.
pub fn replay_has_turn(replay: &Vec<Vec<Command>>, players: &Vec<Player>, turn: usize) -> (b: bool)
    ensures
        b == replay_covers(replay@, players@, turn as int),
{
    for i in 0..players.len()
        invariant
            forall|j: int| 0 <= j < i && (#[trigger] players@[j]).alive ==> {
                let id = players@[j].id;
                &&& id < replay@.len()
                &&& turn < replay@[id as int]@.len()
            },
    {
        let p = &players[i];
        if p.alive {
            if p.id >= replay.len() {
                return false;
            }
            if turn >= replay[p.id].len() {
                return false;
            }
        }
    }
    true
}

impl Game {
    /// Announces the settings to every bot, seats the players and sets up the map.
    /// Without recorded bot data the players are named by their bots and numbered in
    /// seat order; with it, they take the recorded names and ids. At most four players
    /// are seated, one in each corner of the inner area.
    pub fn build(mut bots: Vec<BotController>, map_settings: MapConfig, bot_data: Option<Vec<BotData>>) -> (g: Self)
        requires
            valid_map_size(map_settings.size as int),
            turn_limit(map_settings.endgame as int, map_settings.size as int) <= usize::MAX,
        ensures
            g.wf(),
            g.turn == 0,
            g.bots@.len() == bots@.len(),
            g.map.map_settings.size == map_settings.size,
            g.map.map_settings.bomb_timer == map_settings.bomb_timer,
            g.map.map_settings.bomb_radius == map_settings.bomb_radius,
            g.map.map_settings.endgame == map_settings.endgame,
            g.map.map_settings.player_names@ == map_settings.player_names@,
            bot_data is None ==> g.ids_ok(),
            bot_data is None ==> forall|i: int| 0 <= i < g.map.players@.len() ==> (#[trigger] g.map.players@[i]).id == i,
            bot_data matches Some(d) ==> forall|i: int| 0 <= i < g.map.players@.len() ==> {
                &&& (#[trigger] g.map.players@[i]).id == d@[i].id
                &&& g.map.players@[i].name@ == d@[i].name@
            },
            g.map.players@.len() == match bot_data { Some(d) => seats(d@.len() as int), None => seats(bots@.len() as int) },
            forall|i: int| 0 <= i < g.map.players@.len() ==> (#[trigger] g.map.players@[i]).position
                == start_position(i, map_settings.size as int),
    {
        let n = bots.len();
        for i in 0..n
            invariant
                bots@.len() == n,
        {
            let _started = bots[i].start_game(&map_settings, i);
        }
        let map_size = map_settings.size;
        let players = Self::generate_players_from_bots(&bots, bot_data, map_size);
        let map = GameMap::new(map_settings, players);
        Game::from_map(map, bots)
    }

    /// One player per bot (or per recorded bot), seated in the corners of the inner area.
    pub fn generate_players_from_bots(bots: &Vec<BotController>, bot_data: Option<Vec<BotData>>, size: usize)
        -> (players: Vec<Player>)
        requires
            size >= 2,
        ensures
            players@.len() == match bot_data { Some(d) => seats(d@.len() as int), None => seats(bots@.len() as int) },
            forall|i: int| 0 <= i < players@.len() ==> (#[trigger] players@[i]).position == start_position(i, size as int),
            forall|i: int| 0 <= i < players@.len() ==> (#[trigger] players@[i]).alive,
            bot_data is None ==> forall|i: int| 0 <= i < players@.len() ==> (#[trigger] players@[i]).id == i,
            bot_data matches Some(d) ==> forall|i: int| 0 <= i < players@.len() ==> {
                &&& (#[trigger] players@[i]).id == d@[i].id
                &&& players@[i].name@ == d@[i].name@
            },
    {
        let positions = [
            Coord::from(1, 1),
            Coord::from(1, size - 2),
            Coord::from(size - 2, 1),
            Coord::from(size - 2, size - 2),
        ];
        let mut players: Vec<Player> = Vec::new();
        match bot_data {
            Some(bot_data) => {
                let count = if bot_data.len() < 4 { bot_data.len() } else { 4 };
                for i in 0..count
                    invariant
                        count == seats(bot_data@.len() as int),
                        players@.len() == i,
                        forall|j: int| 0 <= j < i ==> (#[trigger] players@[j]).position == start_position(j, size as int),
                        forall|j: int| 0 <= j < i ==> (#[trigger] players@[j]).alive,
                        forall|j: int| 0 <= j < i ==> {
                            &&& (#[trigger] players@[j]).id == bot_data@[j].id
                            &&& players@[j].name@ == bot_data@[j].name@
                        },
                        positions@ == seq![coord(1, 1), coord(1, size - 2), coord(size - 2, 1), coord(size - 2, size - 2)],
                {
                    let bot = &bot_data[i];
                    players.push(Player::new(bot.name.clone(), positions[i], bot.id));
                }
            },
            None => {
                let count = if bots.len() < 4 { bots.len() } else { 4 };
                for i in 0..count
                    invariant
                        count == seats(bots@.len() as int),
                        players@.len() == i,
                        forall|j: int| 0 <= j < i ==> (#[trigger] players@[j]).position == start_position(j, size as int),
                        forall|j: int| 0 <= j < i ==> (#[trigger] players@[j]).alive,
                        forall|j: int| 0 <= j < i ==> (#[trigger] players@[j]).id == j,
                        positions@ == seq![coord(1, 1), coord(1, size - 2), coord(size - 2, 1), coord(size - 2, size - 2)],
                {
                    players.push(Player::new(bots[i].name(), positions[i], i));
                }
            },
        }
        players
    }

    /// A game at turn zero on `map`, with empty action and debug logs for every bot.
    pub fn from_map(map: GameMap, bots: Vec<BotController>) -> (g: Self)
        requires
            map.wf(),
            turn_limit(map.map_settings.endgame as int, map.map_settings.size as int) <= usize::MAX,
        ensures
            g.wf(),
            g.map == map,
            g.bots@ == bots@,
            g.turn == 0,
            g.player_actions@.len() == bots@.len(),
            g.debug_info@.len() == bots@.len(),
            forall|i: int| 0 <= i < bots@.len() ==> (#[trigger] g.player_actions@[i])@.len() == 0,
            forall|i: int| 0 <= i < bots@.len() ==> (#[trigger] g.debug_info@[i])@.len() == 0,
    {
        let player_count = bots.len();
        let inner_size = map.map_settings.size - 2;
        proof {
            assert(inner_size * inner_size <= 400) by (nonlinear_arith)
                requires inner_size <= 18;
        }
        let max_turn = map.map_settings.endgame + (inner_size * inner_size);
        let mut player_actions: Vec<Vec<Command>> = Vec::new();
        let mut debug_info: Vec<Vec<String>> = Vec::new();
        for i in 0..player_count
            invariant
                player_actions@.len() == i,
                debug_info@.len() == i,
                forall|j: int| 0 <= j < i ==> (#[trigger] player_actions@[j])@.len() == 0,
                forall|j: int| 0 <= j < i ==> (#[trigger] debug_info@[j])@.len() == 0,
        {
            player_actions.push(Vec::new());
            debug_info.push(Vec::new());
        }
        Game { map, bots, turn: 0, max_turn: max_turn, player_actions, debug_info }
    }

    /// Plays the game out with the bots deciding every command.
    pub fn run(&mut self) -> (r: GameResult)
        requires
            old(self).wf(),
            old(self).ids_ok(),
            score_fits(*old(self)),
        ensures
            final(self).wf(),
            final(self).map.winner is Some || final(self).turn == final(self).max_turn,
            final(self).turn >= old(self).turn,
            reports(r, *final(self)),
    {
        self.run_game(None)
    }

    /// Plays rounds until a player has won, with the commands taken from `commands`
    /// when given. The rounds also stop at the turn limit, and when the given commands
    /// hold no command for a living player at the coming turn.
    pub fn run_game(&mut self, commands: Option<&Vec<Vec<Command>>>) -> (r: GameResult)
        requires
            old(self).wf(),
            old(self).ids_ok(),
            score_fits(*old(self)),
        ensures
            final(self).wf(),
            final(self).ids_ok(),
            final(self).map.winner is Some || final(self).turn == final(self).max_turn
                || (commands matches Some(c) && !replay_covers(c@, final(self).map.players@, final(self).turn as int)),
            final(self).turn >= old(self).turn,
            final(self).turn <= final(self).max_turn,
            final(self).max_turn == old(self).max_turn,
            final(self).map.map_settings == old(self).map.map_settings,
            same_roster(old(self).map.players@, final(self).map.players@),
            reports(r, *final(self)),
    {
        while !self.map.has_winner() && self.turn < self.max_turn
            invariant
                self.wf(),
                self.ids_ok(),
                self.max_turn == old(self).max_turn,
                self.map.map_settings == old(self).map.map_settings,
                self.turn >= old(self).turn,
                same_roster(old(self).map.players@, self.map.players@),
            ensures
                self.map.winner is Some || self.turn == self.max_turn
                    || (commands matches Some(c) && !replay_covers(c@, self.map.players@, self.turn as int)),
            decreases self.max_turn - self.turn,
        {
            if let Some(replay) = commands {
                if !replay_has_turn(replay, &self.map.players, self.turn) {
                    break;
                }
            }
            self.run_round(commands);
        }
        GameResult::build(self)
    }

    /// The name of the winner, or a note that nobody has won yet.
    pub fn winner_name(&self) -> (name: String)
        ensures
            match self.map.winner {
                Some(p) => name@ == p.name@,
                None => name@ == "No winner yet"@,
            },
    {
        match &self.map.winner {
            Some(player) => player.name.clone(),
            None => String::from_str("No winner yet"),
        }
    }

    /// One turn: every living player acts (in the order of the players, with the command
    /// of the replay when one is given, else with its bot's move), the bombs are
    /// processed, and once the endgame has begun the next tile of the shrink is walled.
    /// There is no round after the turn limit.
    pub fn run_round(&mut self, replay_commands: Option<&Vec<Vec<Command>>>)
        requires
            old(self).wf(),
            old(self).ids_ok(),
            old(self).turn < old(self).max_turn,
            replay_commands matches Some(c) ==> replay_covers(c@, old(self).map.players@, old(self).turn as int),
        ensures
            final(self).wf(),
            final(self).ids_ok(),
            final(self).turn == old(self).turn + 1,
            final(self).max_turn == old(self).max_turn,
            final(self).map.map_settings == old(self).map.map_settings,
            same_roster(old(self).map.players@, final(self).map.players@),
            final(self).bots@.len() == old(self).bots@.len(),
            final(self).player_actions@.len() == old(self).player_actions@.len(),
            final(self).debug_info@.len() == old(self).debug_info@.len(),
            replay_commands is Some ==> final(self).player_actions@ == old(self).player_actions@
                && final(self).debug_info@ == old(self).debug_info@,
            replay_commands is None ==> forall|id: usize| id < old(self).player_actions@.len()
                ==> grew_by(old(self).player_actions@[id as int]@, #[trigger] final(self).player_actions@[id as int]@,
                    count_of(alive_ids(old(self).map.players@), id)),
            replay_commands is None ==> forall|id: usize| id < old(self).debug_info@.len()
                ==> grew_by(old(self).debug_info@[id as int]@, #[trigger] final(self).debug_info@[id as int]@,
                    count_of(alive_ids(old(self).map.players@), id)),
            exists|maps: Seq<GameMap>, commands: Seq<Command>| {
                &&& #[trigger] commands_played(maps, alive_ids(old(self).map.players@), commands)
                &&& maps[0] == old(self).map
                &&& replay_commands matches Some(c) ==> forall|k: int| 0 <= k < commands.len()
                    ==> #[trigger] commands[k] == c@[alive_ids(old(self).map.players@)[k] as int]@[old(self).turn as int]
                &&& round_finished(maps.last(), final(self).map, old(self).turn as int)
            },
    {
        let ids = self.map.get_alive_players_ids();
        proof {
            crate::map::lemma_filter_subset_players(self.map.players@, |p: Player| p.alive);
            assert(ids@.take(0) =~= Seq::<usize>::empty());
            assert forall|id: int| 0 <= id < self.player_actions@.len() implies
                #[trigger] self.player_actions@[id as int]@.take(self.player_actions@[id as int]@.len() as int) == self.player_actions@[id as int]@ by {
                assert(self.player_actions@[id as int]@.take(self.player_actions@[id as int]@.len() as int) =~= self.player_actions@[id as int]@);
            }
            assert forall|id: int| 0 <= id < self.debug_info@.len() implies
                #[trigger] self.debug_info@[id as int]@.take(self.debug_info@[id as int]@.len() as int) == self.debug_info@[id as int]@ by {
                assert(self.debug_info@[id as int]@.take(self.debug_info@[id as int]@.len() as int) =~= self.debug_info@[id as int]@);
            }
        }
        let ghost start = self.map.players@;
        let ghost mut maps: Seq<GameMap> = seq![self.map];
        let ghost mut cmds: Seq<Command> = Seq::empty();
        for k in 0..ids.len()
            invariant
                maps.len() == k + 1,
                cmds.len() == k,
                maps[0] == old(self).map,
                maps.last() == self.map,
                forall|j: int| 0 <= j < k ==> command_effect(maps[j], maps[j + 1], ids@[j] as int, #[trigger] cmds[j]),
                replay_commands matches Some(c) ==> forall|j: int| 0 <= j < k
                    ==> #[trigger] cmds[j] == c@[ids@[j] as int]@[old(self).turn as int],
                self.wf(),
                self.ids_ok(),
                self.turn == old(self).turn,
                self.max_turn == old(self).max_turn,
                self.map.map_settings == old(self).map.map_settings,
                self.bots@.len() == old(self).bots@.len(),
                start == old(self).map.players@,
                same_roster(start, self.map.players@),
                ids@ == alive_players(start).map_values(|p: Player| p.id),
                forall|j: int| 0 <= j < alive_players(start).len() ==> start.contains(#[trigger] alive_players(start)[j]),
                replay_commands matches Some(c) ==> replay_covers(c@, start, old(self).turn as int),
                self.player_actions@.len() == old(self).player_actions@.len(),
                self.debug_info@.len() == old(self).debug_info@.len(),
                replay_commands is Some ==> self.player_actions@ == old(self).player_actions@
                    && self.debug_info@ == old(self).debug_info@,
                replay_commands is None ==> forall|id: usize| id < old(self).player_actions@.len()
                    ==> grew_by(old(self).player_actions@[id as int]@, #[trigger] self.player_actions@[id as int]@,
                        count_of(ids@.take(k as int), id)),
                replay_commands is None ==> forall|id: usize| id < old(self).debug_info@.len()
                    ==> grew_by(old(self).debug_info@[id as int]@, #[trigger] self.debug_info@[id as int]@,
                        count_of(ids@.take(k as int), id)),
        {
            let player_id = ids[k];
            let ghost actions_before = self.player_actions@;
            let ghost debug_before = self.debug_info@;
            proof {
                let p = alive_players(start)[k as int];
                assert(start.contains(p));
                let i = choose|i: int| 0 <= i < start.len() && start[i] == p;
                assert(self.map.players@[i].id == player_id);
            }
            let command = match replay_commands {
                Some(replay) => replay[player_id][self.turn],
                None => self.get_command(player_id),
            };
            let ghost before = self.map.players@;
            let ghost map_before = self.map;
            self.map.try_execute_command(player_id, command);
            proof {
                assert(ids@.take(k + 1).drop_last() =~= ids@.take(k as int));
                assert(ids@.take(k + 1).last() == player_id);
                if replay_commands is None {
                    assert forall|id: usize| id < old(self).player_actions@.len() implies
                        grew_by(old(self).player_actions@[id as int]@, #[trigger] self.player_actions@[id as int]@,
                            count_of(ids@.take(k + 1), id)) by {
                        let o = old(self).player_actions@[id as int]@;
                        let c0 = count_of(ids@.take(k as int), id);
                        assert(count_of(ids@.take(k + 1), id)
                            == c0 + if player_id == id { 1nat } else { 0nat });
                        assert(grew_by(o, actions_before[id as int]@, c0));
                        if id == player_id {
                            assert(self.player_actions@[id as int]@.take(o.len() as int) =~= actions_before[id as int]@.take(o.len() as int));
                        } else {
                            assert(self.player_actions@[id as int] == actions_before[id as int]);
                        }
                    }
                    assert forall|id: usize| id < old(self).debug_info@.len() implies
                        grew_by(old(self).debug_info@[id as int]@, #[trigger] self.debug_info@[id as int]@,
                            count_of(ids@.take(k + 1), id)) by {
                        let o = old(self).debug_info@[id as int]@;
                        let c0 = count_of(ids@.take(k as int), id);
                        assert(count_of(ids@.take(k + 1), id)
                            == c0 + if player_id == id { 1nat } else { 0nat });
                        assert(grew_by(o, debug_before[id as int]@, c0));
                        if id == player_id {
                            let n = debug_before[id as int]@.len() as int;
                            assert(self.debug_info@[id as int]@.take(n) == debug_before[id as int]@);
                            assert(self.debug_info@[id as int]@.take(o.len() as int) =~= self.debug_info@[id as int]@.take(n).take(o.len() as int));
                        } else {
                            assert(self.debug_info@[id as int] == debug_before[id as int]);
                        }
                    }
                }
                maps = maps.push(self.map);
                cmds = cmds.push(command);
                assert(maps[k as int] == map_before);
                assert forall|i: int| 0 <= i < start.len() implies (#[trigger] self.map.players@[i]).id == start[i].id by {
                    assert(before[i].id == start[i].id);
                }
            }
        }
        let ghost before_bombs = self.map.players@;
        let ghost played = self.map;
        BombProcessor::process(&mut self.map);
        let ghost blasted = self.map;
        proof {
            crate::bomb_processor::lemma_bombs_processed_keeps(played, blasted);
            assert forall|i: int| 0 <= i < start.len() implies (#[trigger] self.map.players@[i]).id == start[i].id by {
                assert(before_bombs[i].id == start[i].id);
            }
        }
        if self.map.map_settings.endgame <= self.turn {
            let ghost before_shrink = self.map.players@;
            self.map.handle_shrink(self.turn);
            proof {
                crate::map::lemma_shrink_done_keeps(blasted, self.map, self.turn as int);
                assert forall|i: int| 0 <= i < start.len() implies (#[trigger] self.map.players@[i]).id == start[i].id by {
                    assert(before_shrink[i].id == start[i].id);
                }
            }
        }
        proof {
            assert(ids@.take(ids@.len() as int) =~= ids@);
            assert(alive_ids(old(self).map.players@) == ids@);
            assert(commands_played(maps, alive_ids(old(self).map.players@), cmds));
            assert(maps.last() == played);
            assert(bombs_processed(played, blasted));
            assert(round_finished(maps.last(), self.map, old(self).turn as int));
        }
        self.turn = self.turn + 1;
    }

    /// Asks the bot of `player_id` for its command, standing on that player's tile, and
    /// records the command and the bot's debug note.
    fn get_command(&mut self, player_id: usize) -> (c: Command)
        requires
            old(self).map.wf(),
            player_id < old(self).bots@.len(),
            player_id < old(self).player_actions@.len(),
            player_id < old(self).debug_info@.len(),
            exists|i: int| 0 <= i < old(self).map.players@.len() && old(self).map.players@[i].id == player_id,
        ensures
            final(self).map == old(self).map,
            final(self).turn == old(self).turn,
            final(self).max_turn == old(self).max_turn,
            final(self).bots@.len() == old(self).bots@.len(),
            final(self).player_actions@.len() == old(self).player_actions@.len(),
            final(self).debug_info@.len() == old(self).debug_info@.len(),
            final(self).player_actions@[player_id as int]@ == old(self).player_actions@[player_id as int]@.push(c),
            final(self).debug_info@[player_id as int]@.len() == old(self).debug_info@[player_id as int]@.len() + 1,
            final(self).debug_info@[player_id as int]@.take(old(self).debug_info@[player_id as int]@.len() as int)
                == old(self).debug_info@[player_id as int]@,
            forall|j: int| 0 <= j < old(self).player_actions@.len() && j != player_id
                ==> #[trigger] final(self).player_actions@[j] == old(self).player_actions@[j],
            forall|j: int| 0 <= j < old(self).debug_info@.len() && j != player_id
                ==> #[trigger] final(self).debug_info@[j] == old(self).debug_info@[j],
    {
        let loc = match self.map.get_player(player_id) {
            Some(player) => player.position,
            None => {
                proof {
                    let i = choose|i: int| 0 <= i < self.map.players@.len() && self.map.players@[i].id == player_id;
                }
                Coord::from(0, 0)
            },
        };
        self.ask_bot(player_id, loc)
    }

    /// Asks the bot of `player_id` for its command from `loc`, which is where that
    /// player stands (the first player on the map with that id), and records the
    /// command and the bot's debug note.
    fn ask_bot(&mut self, player_id: usize, loc: Coord) -> (c: Command)
        requires
            old(self).map.wf(),
            player_id < old(self).bots@.len(),
            player_id < old(self).player_actions@.len(),
            player_id < old(self).debug_info@.len(),
            exists|k: int| #[trigger] is_first_with_id(old(self).map.players@, player_id, k)
                && old(self).map.players@[k].position == loc,
        ensures
            final(self).map == old(self).map,
            final(self).turn == old(self).turn,
            final(self).max_turn == old(self).max_turn,
            final(self).bots@.len() == old(self).bots@.len(),
            final(self).player_actions@.len() == old(self).player_actions@.len(),
            final(self).debug_info@.len() == old(self).debug_info@.len(),
            final(self).player_actions@[player_id as int]@ == old(self).player_actions@[player_id as int]@.push(c),
            final(self).debug_info@[player_id as int]@.len() == old(self).debug_info@[player_id as int]@.len() + 1,
            final(self).debug_info@[player_id as int]@.take(old(self).debug_info@[player_id as int]@.len() as int)
                == old(self).debug_info@[player_id as int]@,
            forall|j: int| 0 <= j < old(self).player_actions@.len() && j != player_id
                ==> #[trigger] final(self).player_actions@[j] == old(self).player_actions@[j],
            forall|j: int| 0 <= j < old(self).debug_info@.len() && j != player_id
                ==> #[trigger] final(self).debug_info@[j] == old(self).debug_info@[j],
    {
        let new_command = self.bots[player_id].get_move(&self.map, loc);
        self.player_actions[player_id].push(new_command);
        let info = self.bots[player_id].get_debug_info();
        self.debug_info[player_id].push(info);
        proof {
            assert(self.debug_info@[player_id as int]@.take(old(self).debug_info@[player_id as int]@.len() as int)
                =~= old(self).debug_info@[player_id as int]@);
        }
        new_command
    }
}

} // verus!
