use vstd::prelude::*;
use crate::bomb::{Bomb, blast_area, blast_locations};
use crate::cell::CellType;
use crate::coord::{Coord, in_bounds};
use crate::grid::Grid;
use crate::map::{GameMap, ticked, only_emptied, players_only_die, no_block_in, nobody_alive_at,
    is_first_alive_at, lemma_only_emptied_trans, lemma_players_only_die_trans, lemma_write_empty,
    alive_players, bomb_reason, alive_ahead, occurrences, blast_victim, lemma_alive_ahead_strict,
    lemma_alive_ahead_hit, lemma_occurrences_contains, lemma_filter_filter, lemma_filter_all};
use crate::player::{Player, is_killed};
use crate::grid::lemma_set_cell_then_read;

verus! {

broadcast use vstd::seq_lib::group_filter_ensures;

/// Explodes the bombs of a turn in one sweep: the bombs whose timer ran out, and the
/// bombs lying in their blasts.
pub struct BombProcessor;

/// The blasts of explosions at each of `centers`, one after the other.
pub open spec fn blasts(grid: Grid, centers: Seq<Coord>, radius: nat) -> Seq<Coord>
    decreases centers.len(),
{
    if centers.len() == 0 {
        Seq::empty()
    } else {
        blasts(grid, centers.drop_last(), radius) + blast_area(grid, centers.last(), radius)
    }
}

/// The bombs of `bombs` not lying on any of `locations`.
pub open spec fn without_bombs_at(bombs: Seq<Bomb>, locations: Seq<Coord>) -> Seq<Bomb> {
    bombs.filter(|b: Bomb| !locations.contains(b.position))
}

/// The positions of the bombs of `bombs` that lie on any of `locations`.
pub open spec fn bombs_hit(bombs: Seq<Bomb>, locations: Seq<Coord>) -> Seq<Coord> {
    bombs.filter(|b: Bomb| locations.contains(b.position)).map_values(|b: Bomb| b.position)
}

/// The tile `c` after blasts covering `tiles` hit `grid` with `players` on it: a blasted
/// tile loses its block, and a blasted tile on the board with a living player on it is
/// cleared; every other tile stays as it was.
pub open spec fn blasted_cell(grid: Grid, players: Seq<Player>, tiles: Seq<Coord>, c: Coord) -> CellType {
    if tiles.contains(c) && (grid.cell_at(c) == CellType::Destroyable
        || (!nobody_alive_at(players, c) && in_bounds(c, grid.size as int, grid.size as int))) {
        CellType::Empty
    } else {
        grid.cell_at(c)
    }
}

/// One more blasted tile: when the first living player on `tile` (if any) is killed,
/// the victims of the blasts so far and this tile are exactly those of the longer list.
proof fn lemma_blast_step(p0: Seq<Player>, tiles: Seq<Coord>, t: int, p: Seq<Player>, p1: Seq<Player>)
    requires
        0 <= t < tiles.len(),
        p.len() == p0.len(),
        p1.len() == p.len(),
        forall|k: int| 0 <= k < p0.len() && blast_victim(p0, tiles.take(t), k)
            ==> is_killed(p0[k], #[trigger] p[k], bomb_reason(), usize::MAX),
        forall|k: int| 0 <= k < p0.len() && !blast_victim(p0, tiles.take(t), k) ==> #[trigger] p[k] == p0[k],
        nobody_alive_at(p, tiles[t]) ==> p1 == p,
        !nobody_alive_at(p, tiles[t]) ==> exists|k: int| is_first_alive_at(p, tiles[t], k),
        forall|k: int| is_first_alive_at(p, tiles[t], k) ==> {
            &&& is_killed(p[k], p1[k], bomb_reason(), usize::MAX)
            &&& forall|j: int| 0 <= j < p.len() && j != k ==> p1[j] == p[j]
        },
    ensures
        forall|k: int| 0 <= k < p0.len() && blast_victim(p0, tiles.take(t + 1), k)
            ==> is_killed(p0[k], #[trigger] p1[k], bomb_reason(), usize::MAX),
        forall|k: int| 0 <= k < p0.len() && !blast_victim(p0, tiles.take(t + 1), k) ==> #[trigger] p1[k] == p0[k],
        nobody_alive_at(p, tiles[t]) ==> p1 == p,
        !nobody_alive_at(p, tiles[t]) ==> p1 != p0,
        forall|k: int| #[trigger] is_first_alive_at(p, tiles[t], k)
            ==> blast_victim(p0, tiles.take(t + 1), k) && p[k] == p0[k],
{
    let tile = tiles[t];
    let before = tiles.take(t);
    let after = tiles.take(t + 1);
    assert(after.drop_last() =~= before);
    assert(after.last() == tile);
    assert(forall|c: Coord| #[trigger] occurrences(after, c) == occurrences(before, c) + if c == tile { 1nat } else { 0nat });
    if nobody_alive_at(p, tile) {
        assert forall|k: int| 0 <= k < p0.len() implies
            (blast_victim(p0, after, k) <==> #[trigger] blast_victim(p0, before, k)) by {
            if blast_victim(p0, after, k) && !blast_victim(p0, before, k) {
                assert(p[k] == p0[k]);
                assert(p[k].alive && p[k].position == tile);
            }
        }
    } else {
        let ks = choose|k: int| is_first_alive_at(p, tile, k);
        assert(!blast_victim(p0, before, ks));
        assert(p[ks] == p0[ks]);
        let m = occurrences(before, tile) as int;
        if alive_ahead(p0, tile, ks) > m {
            lemma_alive_ahead_hit(p0, tile, ks, m);
            let j = choose|j: int| 0 <= j < ks && p0[j].alive && p0[j].position == tile
                && #[trigger] alive_ahead(p0, tile, j) == m;
            assert(!blast_victim(p0, before, j));
            assert(p[j] == p0[j]);
        }
        assert(blast_victim(p0, after, ks));
        assert forall|k: int| 0 <= k < p0.len() && k != ks implies
            (blast_victim(p0, after, k) <==> #[trigger] blast_victim(p0, before, k)) by {
            if blast_victim(p0, after, k) && !blast_victim(p0, before, k) {
                assert(p0[k].position == tile);
                if k < ks {
                    lemma_alive_ahead_strict(p0, tile, k, ks);
                } else {
                    lemma_alive_ahead_strict(p0, tile, ks, k);
                }
            }
        }
        assert(p1[ks] != p0[ks]);
        assert forall|k: int| #[trigger] is_first_alive_at(p, tile, k)
            implies blast_victim(p0, after, k) && p[k] == p0[k] by {
            if k < ks {
                assert(p[k].alive && p[k].position == tile);
            } else if k > ks {
                assert(p[ks].alive && p[ks].position == tile);
            }
        }
    }
}

/// Killing one living player leaves one player fewer alive.
proof fn lemma_alive_after_kill(p: Seq<Player>, q: Seq<Player>, k: int)
    requires
        0 <= k < p.len(),
        q.len() == p.len(),
        p[k].alive,
        !q[k].alive,
        forall|j: int| 0 <= j < p.len() && j != k ==> q[j] == p[j],
    ensures
        alive_players(q).len() + 1 == alive_players(p).len(),
    decreases p.len(),
{
    reveal(Seq::filter);
    if k == p.len() - 1 {
        assert(q.drop_last() =~= p.drop_last());
    } else {
        lemma_alive_after_kill(p.drop_last(), q.drop_last(), k);
        assert(q.last() == p.last());
    }
}

/// When one player is left alive, it is any living player.
proof fn lemma_lone_alive(p: Seq<Player>, k: int)
    requires
        0 <= k < p.len(),
        p[k].alive,
        alive_players(p).len() == 1,
    ensures
        alive_players(p)[0] == p[k],
{
    let pred = |x: Player| x.alive;
    p.lemma_filter_contains(pred, k);
    let i = choose|i: int| 0 <= i < p.filter(pred).len() && p.filter(pred)[i] == p[k];
    assert(i == 0);
}

/// What one sweep of the bombs does to the map: the bombs whose timer ran out and the
/// bombs in their blasts explode, the blasts are recorded, every blasted tile loses its
/// block and its first living player (killed by a bomb with no owner on record), and the
/// winner follows the kills.
#[verifier::opaque]
pub open spec fn bombs_processed(before: GameMap, after: GameMap) -> bool {
    &&& ({
        let radius = before.map_settings.bomb_radius as nat;
        let grid = before.grid;
        let exploding = ticked(before.bombs@).filter(|b: Bomb| b.timer == 0).map_values(|b: Bomb| b.position);
        let left = without_bombs_at(ticked(before.bombs@).filter(|b: Bomb| b.timer != 0), exploding);
        let first = blasts(grid, exploding, radius);
        let chained = bombs_hit(left, first);
        &&& after.bombs@ == without_bombs_at(left, chained)
        &&& after.explosions@ == if exploding.len() == 0 {
            Seq::<Coord>::empty()
        } else {
            first + blasts(grid, chained, radius)
        }
    })
    &&& after.wf()
    &&& after.map_settings == before.map_settings
    &&& only_emptied(before.grid, after.grid)
    &&& players_only_die(before.players@, after.players@)
    &&& no_block_in(after.grid, after.explosions@)
    &&& after.grid.size == before.grid.size
    &&& forall|c: Coord| #[trigger] after.grid.cell_at(c)
        == blasted_cell(before.grid, before.players@, after.explosions@, c)
    &&& after.players@.len() == before.players@.len()
    &&& forall|k: int| 0 <= k < before.players@.len() && blast_victim(before.players@, after.explosions@, k)
        ==> is_killed(before.players@[k], #[trigger] after.players@[k], bomb_reason(), usize::MAX)
    &&& forall|k: int| 0 <= k < before.players@.len() && !blast_victim(before.players@, after.explosions@, k)
        ==> #[trigger] after.players@[k] == before.players@[k]
    &&& after.players@ == before.players@ ==> after.winner == before.winner
    &&& after.players@ != before.players@ && alive_players(after.players@).len() == 1
        ==> after.winner == Some(alive_players(after.players@)[0])
    &&& alive_players(after.players@).len() >= 2 ==> after.winner == before.winner
    &&& alive_players(before.players@).len() <= 1 ==> after.winner == before.winner
    &&& alive_players(after.players@).len() == 0 && alive_players(before.players@).len() >= 2
        ==> exists|k: int| 0 <= k < before.players@.len()
            && #[trigger] blast_victim(before.players@, after.explosions@, k)
            && after.winner == Some(before.players@[k])
}

/// After a sweep of the bombs the map is still well formed, played with the same
/// settings, and players have only died.
pub proof fn lemma_bombs_processed_keeps(before: GameMap, after: GameMap)
    requires
        bombs_processed(before, after),
    ensures
        after.wf(),
        after.map_settings == before.map_settings,
        players_only_die(before.players@, after.players@),
{
    reveal(bombs_processed);
}

impl BombProcessor {
    /// Ticks every bomb; the bombs that reach zero explode, and so do the bombs lying in
    /// their blasts (one level of chaining). The blasts are recorded as the turn's
    /// explosions (or none, when no timer ran out); every tile of them, in order, loses
    /// its block and its first living player, killed by a bomb with no owner on record.
    /// Each kill updates the winner: the last one standing wins, and when the last two
    /// die in the same turn the one killed last keeps the win.
    pub fn process(map: &mut GameMap)
        requires
            old(map).wf(),
        ensures
            bombs_processed(*old(map), *final(map)),
    {
        let ghost start = *map;
        map.bomb_timer_decrease();
        let exploding_bombs = map.get_exploding_bombs();
        let mut exploding: Vec<Coord> = Vec::new();
        for i in 0..exploding_bombs.len()
            invariant
                exploding@ == exploding_bombs@.take(i as int).map_values(|b: Bomb| b.position),
        {
            exploding.push(exploding_bombs[i].position);
            proof {
                assert(exploding@ =~= exploding_bombs@.take(i + 1).map_values(|b: Bomb| b.position));
            }
        }
        proof {
            assert(exploding_bombs@.take(exploding_bombs@.len() as int) =~= exploding_bombs@);
        }
        if exploding.len() == 0 {
            map.explosions = Vec::new();
        }
        Self::remove_bombs(map, &exploding);
        let mut affected_tiles = Self::get_explosion_locations(map, &exploding);
        let chained_bombs: Vec<Coord> = Self::get_chained_bombs(map, &affected_tiles);
        Self::remove_bombs(map, &chained_bombs);
        let mut more = Self::get_explosion_locations(map, &chained_bombs);
        affected_tiles.append(&mut more);
        if exploding.len() > 0 {
            map.explosions = affected_tiles.clone();
        }
        proof {
            assert(map.grid == start.grid);
        }
        let ghost tiles = affected_tiles@;
        let ghost settled = *map;
        let ghost p0 = start.players@;
        let ghost g0 = start.grid;
        let ghost mut last_victim: int = 0;
        proof {
            if exploding.len() == 0 {
                assert(affected_tiles@.len() == 0) by {
                    if chained_bombs@.len() > 0 {
                        assert(chained_bombs@[0] == chained_bombs@[0]);
                    }
                }
            }
            assert(tiles.take(0) =~= Seq::<Coord>::empty());
            assert forall|k: int| 0 <= k < p0.len() implies !#[trigger] blast_victim(p0, tiles.take(0), k) by {}
        }
        for t in 0..affected_tiles.len()
            invariant
                tiles == affected_tiles@,
                map.wf(),
                map.map_settings == start.map_settings,
                map.bombs == settled.bombs,
                map.explosions == settled.explosions,
                map.explosions@ == tiles,
                p0 == start.players@,
                g0 == start.grid,
                only_emptied(start.grid, map.grid),
                players_only_die(start.players@, map.players@),
                forall|j: int| 0 <= j < t ==> map.grid.cell_at(#[trigger] tiles[j]) != CellType::Destroyable,
                map.grid.size == g0.size,
                forall|c: Coord| #[trigger] map.grid.cell_at(c) == blasted_cell(g0, p0, tiles.take(t as int), c),
                map.players@.len() == p0.len(),
                forall|k: int| 0 <= k < p0.len() && blast_victim(p0, tiles.take(t as int), k)
                    ==> is_killed(p0[k], #[trigger] map.players@[k], bomb_reason(), usize::MAX),
                forall|k: int| 0 <= k < p0.len() && !blast_victim(p0, tiles.take(t as int), k)
                    ==> #[trigger] map.players@[k] == p0[k],
                map.players@ == p0 ==> map.winner == start.winner,
                map.players@ != p0 && alive_players(map.players@).len() == 1
                    ==> map.winner == Some(alive_players(map.players@)[0]),
                alive_players(map.players@).len() <= alive_players(p0).len(),
                alive_players(map.players@).len() >= 2 ==> map.winner == start.winner,
                alive_players(p0).len() <= 1 ==> map.winner == start.winner,
                alive_players(map.players@).len() == 0 && alive_players(p0).len() >= 2 ==> {
                    &&& 0 <= last_victim < p0.len()
                    &&& blast_victim(p0, tiles.take(t as int), last_victim)
                    &&& map.winner == Some(p0[last_victim])
                },
        {
            let tile = affected_tiles[t];
            let ghost g1 = map.grid;
            map.grid.clear_destructable(tile);
            let ghost g2 = map.grid;
            proof {
                if g1.cell_at(tile) == CellType::Destroyable {
                    lemma_write_empty(g1, map.grid, tile);
                    assert forall|x: Coord| x != tile implies #[trigger] g2.cell_at(x) == g1.cell_at(x) by {
                        lemma_set_cell_then_read(g1, g2, tile, CellType::Empty, x);
                    }
                } else {
                    assert(map.grid.tiles@ == g1.tiles@);
                    assert forall|x: Coord| #[trigger] map.grid.cell_at(x) == g1.cell_at(x) by {}
                }
                lemma_only_emptied_trans(start.grid, g1, map.grid);
            }
            let ghost before_kill = *map;
            map.kill_at_location(tile, String::from_str("bomb"), usize::MAX);
            proof {
                reveal_strlit("bomb");
                let p = before_kill.players@;
                if nobody_alive_at(p, tile) {
                    assert(map.grid == before_kill.grid);
                } else {
                    let k = choose|k: int| is_first_alive_at(p, tile, k);
                    if in_bounds(tile, map.grid.size as int, map.grid.size as int) {
                        lemma_write_empty(before_kill.grid, map.grid, tile);
                        assert forall|x: Coord| x != tile implies #[trigger] map.grid.cell_at(x) == g2.cell_at(x) by {
                            lemma_set_cell_then_read(g2, map.grid, tile, CellType::Empty, x);
                        }
                    } else {
                        assert(map.grid.tiles@ == before_kill.grid.tiles@);
                        assert forall|x: Coord| #[trigger] map.grid.cell_at(x) == before_kill.grid.cell_at(x) by {}
                    }
                }
                lemma_only_emptied_trans(start.grid, before_kill.grid, map.grid);
                lemma_players_only_die_trans(start.players@, before_kill.players@, map.players@);
                lemma_blast_step(p0, tiles, t as int, p, map.players@);
                let before = tiles.take(t as int);
                let after = tiles.take(t + 1);
                if nobody_alive_at(p, tile) {
                    if alive_players(p).len() == 0 && alive_players(p0).len() >= 2 {
                        assert(!p[last_victim].alive);
                        assert(blast_victim(p0, after, last_victim));
                    }
                } else {
                    let k = choose|k: int| is_first_alive_at(p, tile, k);
                    assert(blast_victim(p0, after, k) && p[k] == p0[k]);
                    lemma_alive_after_kill(p, map.players@, k);
                    if alive_players(p).len() == 1 {
                        lemma_lone_alive(p, k);
                        if p == p0 {
                            assert(alive_players(p0).len() == 1);
                        }
                    }
                    if alive_players(map.players@).len() == 0 && alive_players(p0).len() >= 2 {
                        assert(p != p0);
                        assert(before_kill.winner == Some(p0[k]));
                        assert(map.winner == before_kill.winner);
                        assert(blast_victim(p0, after, k));
                        last_victim = k;
                    }
                }
                assert(after =~= before.push(tile));
                assert forall|c: Coord| #[trigger] map.grid.cell_at(c) == blasted_cell(g0, p0, after, c) by {
                    if c != tile {
                        assert(after.contains(c) ==> before.contains(c)) by {
                            if after.contains(c) {
                                let i = choose|i: int| 0 <= i < after.len() && after[i] == c;
                                assert(before[i] == c);
                            }
                        }
                        assert(before.contains(c) ==> after.contains(c)) by {
                            if before.contains(c) {
                                let i = choose|i: int| 0 <= i < before.len() && before[i] == c;
                                assert(after[i] == c);
                            }
                        }
                    } else {
                        assert(after[t as int] == tile);
                        if !nobody_alive_at(p, tile) {
                            let k = choose|k: int| is_first_alive_at(p, tile, k);
                            assert(p[k].alive);
                            assert(!blast_victim(p0, before, k));
                            assert(p[k] == p0[k]);
                            assert(!nobody_alive_at(p0, tile));
                        } else if !before.contains(tile) && !nobody_alive_at(p0, tile) {
                            let k = choose|k: int| 0 <= k < p0.len() && !(!(p0[k].alive && p0[k].position == tile));
                            assert(!p[k].alive);
                            assert(blast_victim(p0, before, k));
                            lemma_occurrences_contains(before, tile);
                        }
                    }
                }
            }
        }
        proof {
            reveal(bombs_processed);
            assert(tiles.take(tiles.len() as int) =~= tiles);
            if alive_players(map.players@).len() == 0 && alive_players(p0).len() >= 2 {
                assert(blast_victim(p0, tiles, last_victim));
            }
            lemma_filter_filter(ticked(start.bombs@), |b: Bomb| b.timer != 0, |b: Bomb| !exploding@.contains(b.position));
        }
    }

    /// The positions of the bombs lying on any of `affected_tiles`.
    fn get_chained_bombs(map: &GameMap, affected_tiles: &Vec<Coord>) -> (r: Vec<Coord>)
        ensures
            r@ == bombs_hit(map.bombs@, affected_tiles@),
    {
        let mut r: Vec<Coord> = Vec::new();
        for i in 0..map.bombs.len()
            invariant
                r@ == map.bombs@.take(i as int).filter(|b: Bomb| affected_tiles@.contains(b.position))
                    .map_values(|b: Bomb| b.position),
        {
            proof {
                reveal(Seq::filter);
                assert(map.bombs@.take(i + 1).drop_last() =~= map.bombs@.take(i as int));
            }
            if crate::map::contains_coord(affected_tiles, map.bombs[i].position) {
                r.push(map.bombs[i].position);
            }
            proof {
                assert(r@ =~= map.bombs@.take(i + 1).filter(|b: Bomb| affected_tiles@.contains(b.position))
                    .map_values(|b: Bomb| b.position));
            }
        }
        proof {
            assert(map.bombs@.take(map.bombs@.len() as int) =~= map.bombs@);
        }
        r
    }

    /// Removes every bomb lying on any of `bomb_locations`.
    fn remove_bombs(map: &mut GameMap, bomb_locations: &Vec<Coord>)
        ensures
            final(map).bombs@ == without_bombs_at(old(map).bombs@, bomb_locations@),
            final(map).map_settings == old(map).map_settings,
            final(map).grid == old(map).grid,
            final(map).players == old(map).players,
            final(map).explosions == old(map).explosions,
            final(map).winner == old(map).winner,
    {
        let ghost start = map.bombs@;
        proof {
            let none = bomb_locations@.take(0);
            lemma_filter_all(start, |b: Bomb| !none.contains(b.position));
        }
        for i in 0..bomb_locations.len()
            invariant
                map.bombs@ == without_bombs_at(start, bomb_locations@.take(i as int)),
                map.map_settings == old(map).map_settings,
                map.grid == old(map).grid,
                map.players == old(map).players,
                map.explosions == old(map).explosions,
                map.winner == old(map).winner,
        {
            let location = bomb_locations[i];
            map.remove_bombs_at_location(location);
            proof {
                let done = bomb_locations@.take(i as int);
                let next = bomb_locations@.take(i + 1);
                lemma_filter_filter(start, |b: Bomb| !done.contains(b.position), |b: Bomb| b.position != location);
                assert forall|b: Bomb| #![trigger next.contains(b.position)]
                    (!done.contains(b.position) && b.position != location) == !next.contains(b.position) by {
                    if next.contains(b.position) {
                        let j = choose|j: int| 0 <= j < next.len() && next[j] == b.position;
                        if j < i {
                            assert(done[j] == b.position);
                        }
                    }
                    if done.contains(b.position) {
                        let j = choose|j: int| 0 <= j < done.len() && done[j] == b.position;
                        assert(next[j] == b.position);
                    }
                    if b.position == location {
                        assert(next[i as int] == location);
                    }
                }
                assert((|b: Bomb| (|b: Bomb| !done.contains(b.position))(b) && (|b: Bomb| b.position != location)(b))
                    =~= (|b: Bomb| !next.contains(b.position)));
            }
        }
        proof {
            assert(bomb_locations@.take(bomb_locations@.len() as int) =~= bomb_locations@);
        }
    }

    /// The blasts of bombs at each of `bomb_locations`, one after the other.
    fn get_explosion_locations(map: &GameMap, bomb_locations: &Vec<Coord>) -> (r: Vec<Coord>)
        requires
            map.wf(),
        ensures
            r@ == blasts(map.grid, bomb_locations@, map.map_settings.bomb_radius as nat),
    {
        let mut r: Vec<Coord> = Vec::new();
        for i in 0..bomb_locations.len()
            invariant
                map.wf(),
                r@ == blasts(map.grid, bomb_locations@.take(i as int), map.map_settings.bomb_radius as nat),
        {
            let mut more = Self::bomb_explosion_locations(bomb_locations[i], map);
            r.append(&mut more);
            proof {
                assert(bomb_locations@.take(i + 1).drop_last() =~= bomb_locations@.take(i as int));
            }
        }
        proof {
            assert(bomb_locations@.take(bomb_locations@.len() as int) =~= bomb_locations@);
        }
        r
    }

    /// The tiles an explosion at `location` reaches on `map`.
    pub fn bomb_explosion_locations(location: Coord, map: &GameMap) -> (r: Vec<Coord>)
        requires
            map.grid.wf(),
        ensures
            r@ == blast_area(map.grid, location, map.map_settings.bomb_radius as nat),
    {
        blast_locations(&map.grid, location, map.map_settings.bomb_radius)
    }
}

} // verus!
