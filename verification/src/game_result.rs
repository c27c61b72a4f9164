use vstd::prelude::*;
use std::collections::HashMap;
use crate::bot::BotData;
use crate::command::Command;
use crate::game::Game;
use crate::map_config::MapConfig;
use crate::player::Player;

verus! {

broadcast use vstd::std_specs::hash::group_hash_axioms;

/// The outcome of a game.
pub struct GameResult {
    pub winner: String,
    pub replay_data: Vec<Vec<Command>>,
    pub debug_data: Vec<Vec<String>>,
    pub game_settings: MapConfig,
    pub rounds: usize,
    pub score: usize,
    pub bots: Vec<BotData>,
}

/// How many of the first `i` players were killed by a bomb of `killer`.
pub open spec fn bomb_kills_before(players: Seq<Player>, i: int, killer: usize) -> nat
    decreases i,
{
    if i <= 0 {
        0
    } else {
        bomb_kills_before(players, i - 1, killer) + if players[i - 1].reason_killed@ == "bomb"@
            && players[i - 1].killed_by == killer { 1nat } else { 0nat }
    }
}

/// The points the fate of player `i` is worth: a suicide 10, the `k`-th bomb kill of
/// the same killer (counting from zero) 15 + 5k, a death by the shrink 3, surviving 0.
pub open spec fn kill_points(players: Seq<Player>, i: int) -> nat {
    let reason = players[i].reason_killed@;
    if reason == "suicide"@ {
        10
    } else if reason == "bomb"@ {
        15 + 5 * bomb_kills_before(players, i, players[i].killed_by)
    } else if reason == "shrink"@ {
        3
    } else {
        0
    }
}

/// The points of the first `n` players.
pub open spec fn total_points(players: Seq<Player>, n: int) -> nat
    decreases n,
{
    if n <= 0 {
        0
    } else {
        total_points(players, n - 1) + kill_points(players, n - 1)
    }
}

/// The score of a game: the turns left unplayed, plus the points of every player's fate
/// weighted by the board size.
pub open spec fn game_score(game: Game) -> int {
    (game.max_turn - game.turn) + game.map.map_settings.size * total_points(game.map.players@, game.map.players@.len() as int)
}

/// `r` reports `game`: its winner's name, copies of its logs and settings, the turns
/// played, the score and each player's id and name.
pub open spec fn reports(r: GameResult, game: Game) -> bool {
    &&& match game.map.winner {
        Some(p) => r.winner@ == p.name@,
        None => r.winner@ == "No winner yet"@,
    }
    &&& r.replay_data@.len() == game.player_actions@.len()
    &&& forall|i: int| 0 <= i < r.replay_data@.len() ==> (#[trigger] r.replay_data@[i])@ == game.player_actions@[i]@
    &&& r.debug_data@.len() == game.debug_info@.len()
    &&& forall|i: int| 0 <= i < r.debug_data@.len() ==> (#[trigger] r.debug_data@[i])@.len() == game.debug_info@[i]@.len()
    &&& forall|i: int, j: int| 0 <= i < r.debug_data@.len() && 0 <= j < r.debug_data@[i]@.len()
        ==> (#[trigger] r.debug_data@[i]@[j])@ == game.debug_info@[i]@[j]@
    &&& r.game_settings.size == game.map.map_settings.size
    &&& r.game_settings.player_names@ == game.map.map_settings.player_names@
    &&& r.game_settings.bomb_timer == game.map.map_settings.bomb_timer
    &&& r.game_settings.bomb_radius == game.map.map_settings.bomb_radius
    &&& r.game_settings.endgame == game.map.map_settings.endgame
    &&& r.rounds == game.turn
    &&& r.score == game_score(game)
    &&& r.bots@.len() == game.map.players@.len()
    &&& forall|i: int| 0 <= i < r.bots@.len() ==> {
        &&& (#[trigger] r.bots@[i]).id == game.map.players@[i].id
        &&& r.bots@[i].name@ == game.map.players@[i].name@
    }
}

/// The score of `game` fits in a `usize` however its players met their end.
pub open spec fn score_fits(game: Game) -> bool {
    let n = game.map.players@.len();
    &&& game.max_turn + game.map.map_settings.size * (n * (15 + 5 * n)) <= usize::MAX
    &&& n * (15 + 5 * n) <= usize::MAX
}

/// `p` was killed by a bomb of `killer`.
pub open spec fn bomb_victim_of(p: Player, killer: usize) -> bool {
    p.reason_killed@ == "bomb"@ && p.killed_by == killer
}

/// The test for a bomb victim of `killer`.
pub open spec fn victim_of(killer: usize) -> spec_fn(Player) -> bool {
    |p: Player| bomb_victim_of(p, killer)
}

proof fn lemma_bomb_kills_counted(players: Seq<Player>, i: int, killer: usize)
    requires
        0 <= i <= players.len(),
    ensures
        bomb_kills_before(players, i, killer)
            == players.take(i).filter(victim_of(killer)).len(),
    decreases i,
{
    reveal(Seq::filter);
    if i == 0 {
        assert(players.take(0) =~= Seq::<Player>::empty());
    } else {
        lemma_bomb_kills_counted(players, i - 1, killer);
        assert(players.take(i).drop_last() =~= players.take(i - 1));
        assert(players.take(i).last() == players[i - 1]);
    }
}

/// A bomb kill is worth 15 points, and 5 more for every earlier player (in seating
/// order) the same killer's bombs took out: the `k`-th bomb victim of a killer, counting
/// from zero, is worth 15 + 5k.
pub proof fn law_bomb_kill_points(players: Seq<Player>, i: int)
    requires
        0 <= i < players.len(),
        players[i].reason_killed@ == "bomb"@,
    ensures
        kill_points(players, i) == 15 + 5 * players.take(i).filter(victim_of(players[i].killed_by)).len(),
{
    reveal_strlit("suicide");
    reveal_strlit("bomb");
    assert("bomb"@ != "suicide"@) by {
        assert("bomb"@[0] != "suicide"@[0]);
    }
    assert(kill_points(players, i) == 15 + 5 * bomb_kills_before(players, i, players[i].killed_by));
    lemma_bomb_kills_counted(players, i, players[i].killed_by);
}

/// Of two bomb victims of the same killer, the later one is worth at least 5 points
/// more than the earlier one.
pub proof fn law_later_bomb_kill_worth_more(players: Seq<Player>, i: int, j: int)
    requires
        0 <= i < j < players.len(),
        bomb_victim_of(players[i], players[j].killed_by),
        players[j].reason_killed@ == "bomb"@,
    ensures
        kill_points(players, j) >= kill_points(players, i) + 5,
{
    let killer = players[j].killed_by;
    let f = victim_of(killer);
    law_bomb_kill_points(players, i);
    law_bomb_kill_points(players, j);
    assert(players.take(j) =~= players.take(i) + players.take(j).subrange(i, j));
    Seq::filter_distributes_over_add(players.take(i), players.take(j).subrange(i, j), f);
    let mid = players.take(j).subrange(i, j);
    assert(mid[0] == players[i]);
    mid.lemma_filter_contains(f, 0);
    assert(mid.filter(f).len() >= 1);
}

proof fn lemma_bomb_kills_bound(players: Seq<Player>, i: int, killer: usize)
    requires
        0 <= i,
    ensures
        bomb_kills_before(players, i, killer) <= i,
    decreases i,
{
    if i > 0 {
        lemma_bomb_kills_bound(players, i - 1, killer);
    }
}

proof fn lemma_total_points_bound(players: Seq<Player>, n: int, m: int)
    requires
        0 <= n <= m,
    ensures
        total_points(players, n) <= n * (15 + 5 * m),
    decreases n,
{
    if n > 0 {
        lemma_total_points_bound(players, n - 1, m);
        lemma_bomb_kills_bound(players, n - 1, players[n - 1].killed_by);
        assert(kill_points(players, n - 1) <= 15 + 5 * m) by (nonlinear_arith)
            requires
                kill_points(players, n - 1) <= 15 + 5 * bomb_kills_before(players, n - 1, players[n - 1].killed_by),
                bomb_kills_before(players, n - 1, players[n - 1].killed_by) <= n - 1,
                n <= m;
        assert((n - 1) * (15 + 5 * m) + (15 + 5 * m) == n * (15 + 5 * m)) by (nonlinear_arith);
    }
}

/// A copy of the command log, row by row.
fn copy_actions(actions: &Vec<Vec<Command>>) -> (r: Vec<Vec<Command>>)
    ensures
        r@.len() == actions@.len(),
        forall|i: int| 0 <= i < r@.len() ==> (#[trigger] r@[i])@ == actions@[i]@,
{
    let mut r: Vec<Vec<Command>> = Vec::new();
    for i in 0..actions.len()
        invariant
            r@.len() == i,
            forall|j: int| 0 <= j < i ==> (#[trigger] r@[j])@ == actions@[j]@,
    {
        let mut row: Vec<Command> = Vec::new();
        let src = &actions[i];
        for j in 0..src.len()
            invariant
                0 <= i < actions@.len(),
                *src == actions@[i as int],
                row@ == actions@[i as int]@.take(j as int),
        {
            row.push(src[j]);
            proof {
                assert(row@ =~= actions@[i as int]@.take(j + 1));
            }
        }
        proof {
            assert(row@ =~= actions@[i as int]@);
        }
        r.push(row);
    }
    r
}

/// A copy of the debug log, row by row.
fn copy_notes(notes: &Vec<Vec<String>>) -> (r: Vec<Vec<String>>)
    ensures
        r@.len() == notes@.len(),
        forall|i: int| 0 <= i < r@.len() ==> (#[trigger] r@[i])@.len() == notes@[i]@.len(),
        forall|i: int, j: int| 0 <= i < r@.len() && 0 <= j < r@[i]@.len() ==> (#[trigger] r@[i]@[j])@ == notes@[i]@[j]@,
{
    let mut r: Vec<Vec<String>> = Vec::new();
    for i in 0..notes.len()
        invariant
            r@.len() == i,
            forall|k: int| 0 <= k < i ==> (#[trigger] r@[k])@.len() == notes@[k]@.len(),
            forall|k: int, j: int| 0 <= k < i && 0 <= j < r@[k]@.len() ==> (#[trigger] r@[k]@[j])@ == notes@[k]@[j]@,
    {
        let mut row: Vec<String> = Vec::new();
        let src = &notes[i];
        for j in 0..src.len()
            invariant
                0 <= i < notes@.len(),
                *src == notes@[i as int],
                row@.len() == j,
                forall|t: int| 0 <= t < j ==> (#[trigger] row@[t])@ == notes@[i as int]@[t]@,
        {
            row.push(src[j].clone());
        }
        r.push(row);
    }
    r
}

impl GameResult {
    /// The result of `game` as it stands.
    pub fn build(game: &Game) -> (r: GameResult)
        requires
            game.turn <= game.max_turn,
            score_fits(*game),
        ensures
            reports(r, *game),
    {
        let winner = game.winner_name();
        let game_settings = game.map.map_settings.clone();
        let mut bot_data: Vec<BotData> = Vec::new();
        for i in 0..game.map.players.len()
            invariant
                bot_data@.len() == i,
                forall|j: int| 0 <= j < i ==> {
                    &&& (#[trigger] bot_data@[j]).id == game.map.players@[j].id
                    &&& bot_data@[j].name@ == game.map.players@[j].name@
                },
        {
            bot_data.push(BotData { id: game.map.players[i].id, name: game.map.players[i].name.clone() });
        }
        GameResult {
            winner,
            replay_data: copy_actions(&game.player_actions),
            debug_data: copy_notes(&game.debug_info),
            game_settings,
            rounds: game.turn,
            score: GameResult::calculate_score(game),
            bots: bot_data,
        }
    }

    fn calculate_score(game: &Game) -> (score: usize)
        requires
            game.turn <= game.max_turn,
            score_fits(*game),
        ensures
            score == game_score(*game),
    {
        let ghost ps = game.map.players@;
        let ghost n = ps.len() as int;
        let size = game.map.map_settings.size;
        let mut score: usize = game.max_turn - game.turn;
        let mut killers: HashMap<usize, usize> = HashMap::new();
        proof {
            reveal_strlit("suicide");
            reveal_strlit("bomb");
            reveal_strlit("shrink");
        }
        let suicide = String::from_str("suicide");
        let bomb = String::from_str("bomb");
        let shrink = String::from_str("shrink");
        assert(size * total_points(ps, 0) == 0) by (nonlinear_arith)
            requires total_points(ps, 0) == 0;
        for i in 0..game.map.players.len()
            invariant
                ps == game.map.players@,
                n == ps.len(),
                size == game.map.map_settings.size,
                suicide@ == "suicide"@,
                bomb@ == "bomb"@,
                shrink@ == "shrink"@,
                game.max_turn + size * (n * (15 + 5 * n)) <= usize::MAX,
                n * (15 + 5 * n) <= usize::MAX,
                score == (game.max_turn - game.turn) + size * total_points(ps, i as int),
                forall|k: usize| #[trigger] killers@.contains_key(k) <==> bomb_kills_before(ps, i as int, k) > 0,
                forall|k: usize| #[trigger] killers@.contains_key(k) ==> killers@[k] + 1 == bomb_kills_before(ps, i as int, k),
        {
            let player = &game.map.players[i];
            let ghost before = killers@;
            let points: usize = if player.reason_killed == suicide {
                10
            } else if player.reason_killed == bomb {
                let mut bomb_score: usize = 15;
                let killer = player.killed_by;
                proof {
                    lemma_bomb_kills_bound(ps, i as int, killer);
                    assert(15 + 5 * i < n * (15 + 5 * n)) by (nonlinear_arith)
                        requires 0 <= i < n;
                }
                match killers.get(&killer) {
                    Some(kill_count) => {
                        let count = *kill_count + 1;
                        killers.insert(killer, count);
                        assert(count == bomb_kills_before(ps, i as int, killer));
                        assert(killers@ == before.insert(killer, count));
                        bomb_score = bomb_score + 5 * count;
                    },
                    None => {
                        killers.insert(killer, 0);
                        assert(bomb_kills_before(ps, i as int, killer) == 0);
                        assert(killers@ == before.insert(killer, 0));
                    },
                }
                assert(killers@.contains_key(killer) && killers@[killer] == bomb_kills_before(ps, i as int, killer));
                bomb_score
            } else if player.reason_killed == shrink {
                3
            } else {
                0
            };
            proof {
                assert(points == kill_points(ps, i as int));
                lemma_total_points_bound(ps, i + 1, n);
                assert(size * total_points(ps, i + 1) <= size * (n * (15 + 5 * n))) by (nonlinear_arith)
                    requires
                        total_points(ps, i + 1) <= (i + 1) * (15 + 5 * n),
                        i + 1 <= n;
                assert(size * total_points(ps, i + 1) == size * total_points(ps, i as int) + size * points) by (nonlinear_arith)
                    requires total_points(ps, i + 1) == total_points(ps, i as int) + points;
                reveal_strlit("suicide");
                reveal_strlit("bomb");
                let hit = ps[i as int].reason_killed@ == "bomb"@;
                let kb = ps[i as int].killed_by;
                assert("bomb"@.len() == 4);
                assert("suicide"@.len() == 7);
                assert("bomb"@ != "suicide"@);
                assert(hit ==> ps[i as int].reason_killed@ != suicide@);
                assert(hit ==> ps[i as int].reason_killed@ == bomb@);
                assert(hit ==> killers@.contains_key(kb) && killers@[kb] + 1 == bomb_kills_before(ps, i as int, kb) + 1);
                assert(hit ==> forall|k: usize| k != kb ==> killers@.contains_key(k) == before.contains_key(k) && killers@[k] == before[k]);
                assert(!hit ==> killers@ == before);
                assert forall|k: usize| #[trigger] killers@.contains_key(k)
                    <==> bomb_kills_before(ps, i + 1, k) > 0 by {
                    assert(before.contains_key(k) <==> bomb_kills_before(ps, i as int, k) > 0);
                }
                assert forall|k: usize| #[trigger] killers@.contains_key(k)
                    implies killers@[k] + 1 == bomb_kills_before(ps, i + 1, k) by {
                    assert(before.contains_key(k) <==> bomb_kills_before(ps, i as int, k) > 0);
                    if before.contains_key(k) {
                        assert(before[k] + 1 == bomb_kills_before(ps, i as int, k));
                    }
                    if hit && k == kb {
                        assert(killers@[k] + 1 == bomb_kills_before(ps, i as int, kb) + 1);
                    }
                }
            }
            score = score + size * points;
        }
        score
    }
}

} // verus!
