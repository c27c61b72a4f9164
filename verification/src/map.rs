use vstd::prelude::*;
use crate::bomb::{Bomb, blast_area, blast_ray};
use crate::cell::{CellType, cell_of};
use crate::command::Command;
use crate::commands::{MoveUp, MoveDown, MoveLeft, MoveRight, PlaceBomb, Wait, PlayerCommand, command_effect};
use crate::shrink::{calculate_shrink_location, shrink_location, lemma_shrink_location_inside};
use crate::coord::{Coord, in_bounds};
use crate::grid::{Grid, index_of, lemma_index_in_square, lemma_set_cell_then_read};
use crate::grid_factory::{GridFactory, is_start_board};
use crate::map_config::MapConfig;
use crate::player::{Player, is_killed};
use crate::validator::{MapValidatorChainFactory, valid_map_size};

verus! {

broadcast use vstd::seq_lib::group_filter_ensures;

/// The state of a game: the board, the players, the bombs and the last explosions.
pub struct GameMap {
    pub map_settings: MapConfig,
    pub grid: Grid,
    pub players: Vec<Player>,
    pub bombs: Vec<Bomb>,
    pub explosions: Vec<Coord>,
    pub winner: Option<Player>,
}

/// The players still in the game, in the order they were seated.
pub open spec fn alive_players(players: Seq<Player>) -> Seq<Player> {
    players.filter(|p: Player| p.alive)
}

/// The winner once the players are in the state `players`: the last one alive, if only
/// one is left, else whoever had won before.
pub open spec fn winner_after(players: Seq<Player>, previous: Option<Player>) -> Option<Player> {
    if alive_players(players).len() == 1 {
        Some(alive_players(players)[0])
    } else {
        previous
    }
}

/// `k` is the first player in `players` that is alive and stands on `location`.
pub open spec fn is_first_alive_at(players: Seq<Player>, location: Coord, k: int) -> bool {
    &&& 0 <= k < players.len()
    &&& players[k].alive && players[k].position == location
    &&& forall|j: int| 0 <= j < k ==> !(players[j].alive && players[j].position == location)
}

/// No player in `players` is alive on `location`.
pub open spec fn nobody_alive_at(players: Seq<Player>, location: Coord) -> bool {
    forall|j: int| 0 <= j < players.len() ==> !(players[j].alive && players[j].position == location)
}

/// How many of the first `n` players are alive on `c`.
pub open spec fn alive_ahead(players: Seq<Player>, c: Coord, n: int) -> nat
    decreases n,
{
    if n <= 0 {
        0
    } else {
        alive_ahead(players, c, n - 1) + if players[n - 1].alive && players[n - 1].position == c {
            1nat
        } else {
            0nat
        }
    }
}

/// How often `c` occurs in `tiles`.
pub open spec fn occurrences(tiles: Seq<Coord>, c: Coord) -> nat
    decreases tiles.len(),
{
    if tiles.len() == 0 {
        0
    } else {
        occurrences(tiles.drop_last(), c) + if tiles.last() == c { 1nat } else { 0nat }
    }
}

/// Player `k` dies in blasts covering `tiles`. Each occurrence of a tile kills the first
/// player still alive on it, so a living player dies when its tile occurs more often than
/// there are living players on it seated before it.
pub open spec fn blast_victim(players: Seq<Player>, tiles: Seq<Coord>, k: int) -> bool {
    &&& players[k].alive
    &&& alive_ahead(players, players[k].position, k) < occurrences(tiles, players[k].position)
}

/// Counting living players on `c` never goes down as more players are counted.
pub(crate) proof fn lemma_alive_ahead_mono(players: Seq<Player>, c: Coord, i: int, j: int)
    requires
        0 <= i <= j,
    ensures
        alive_ahead(players, c, i) <= alive_ahead(players, c, j),
    decreases j - i,
{
    if i < j {
        lemma_alive_ahead_mono(players, c, i, j - 1);
    }
}

/// A living player on `c` seated at `j` is counted by every later player on `c`.
pub(crate) proof fn lemma_alive_ahead_strict(players: Seq<Player>, c: Coord, j: int, k: int)
    requires
        0 <= j < k,
        players[j].alive,
        players[j].position == c,
    ensures
        alive_ahead(players, c, j) + 1 <= alive_ahead(players, c, k),
{
    lemma_alive_ahead_mono(players, c, j + 1, k);
}

/// Every count below `alive_ahead(players, c, k)` is the count of some living player on
/// `c` seated before `k`.
pub(crate) proof fn lemma_alive_ahead_hit(players: Seq<Player>, c: Coord, k: int, m: int)
    requires
        0 <= m < alive_ahead(players, c, k),
    ensures
        exists|j: int| 0 <= j < k && players[j].alive && players[j].position == c
            && #[trigger] alive_ahead(players, c, j) == m,
    decreases k,
{
    if k > 0 {
        if m < alive_ahead(players, c, k - 1) {
            lemma_alive_ahead_hit(players, c, k - 1, m);
        } else {
            assert(players[k - 1].alive && players[k - 1].position == c);
            assert(alive_ahead(players, c, k - 1) == m);
        }
    }
}

/// A tile that occurs in `tiles` is one of them.
pub(crate) proof fn lemma_occurrences_contains(tiles: Seq<Coord>, c: Coord)
    requires
        occurrences(tiles, c) > 0,
    ensures
        tiles.contains(c),
    decreases tiles.len(),
{
    if tiles.last() == c {
        assert(tiles[tiles.len() - 1] == c);
    } else {
        lemma_occurrences_contains(tiles.drop_last(), c);
        let i = choose|i: int| 0 <= i < tiles.drop_last().len() && tiles.drop_last()[i] == c;
        assert(tiles[i] == c);
    }
}

/// `after` is `before` killed by the bomb of some player.
pub open spec fn killed_by_bomb(before: Player, after: Player) -> bool {
    exists|by: usize| is_killed(before, after, bomb_reason(), by)
}

/// From `before` to `after` blasts covering `tiles` did their killing: exactly the
/// blast victims died, each killed by a bomb, and everybody else is as before. Only how
/// often each tile occurs matters, not in which order.
pub open spec fn bomb_kills(before: Seq<Player>, after: Seq<Player>, tiles: Seq<Coord>) -> bool {
    &&& after.len() == before.len()
    &&& forall|k: int| 0 <= k < before.len() && blast_victim(before, tiles, k)
        ==> killed_by_bomb(before[k], #[trigger] after[k])
    &&& forall|k: int| 0 <= k < before.len() && !blast_victim(before, tiles, k) ==> #[trigger] after[k] == before[k]
}

/// Occurrences add up over concatenation.
pub(crate) proof fn lemma_occurrences_concat(a: Seq<Coord>, b: Seq<Coord>, c: Coord)
    ensures
        occurrences(a + b, c) == occurrences(a, c) + occurrences(b, c),
    decreases b.len(),
{
    if b.len() == 0 {
        assert(a + b =~= a);
    } else {
        assert((a + b).drop_last() =~= a + b.drop_last());
        assert((a + b).last() == b.last());
        lemma_occurrences_concat(a, b.drop_last(), c);
    }
}

/// No living player on `c` is seated before `n` exactly when none is counted.
pub(crate) proof fn lemma_alive_ahead_zero(p: Seq<Player>, c: Coord, n: int)
    requires
        0 <= n,
    ensures
        alive_ahead(p, c, n) == 0 <==> forall|j: int| 0 <= j < n ==> !(p[j].alive && #[trigger] p[j].position == c),
    decreases n,
{
    if n > 0 {
        lemma_alive_ahead_zero(p, c, n - 1);
    }
}

/// After blasts covering `a`, the living players on `c` are those that were alive there,
/// less the first `occurrences(a, c)` of them.
pub(crate) proof fn lemma_alive_ahead_after(p0: Seq<Player>, p1: Seq<Player>, a: Seq<Coord>, c: Coord, n: int)
    requires
        bomb_kills(p0, p1, a),
        0 <= n <= p0.len(),
    ensures
        alive_ahead(p0, c, n) >= occurrences(a, c) ==> alive_ahead(p1, c, n) + occurrences(a, c) == alive_ahead(p0, c, n),
        alive_ahead(p0, c, n) < occurrences(a, c) ==> alive_ahead(p1, c, n) == 0,
    decreases n,
{
    if n > 0 {
        let j = n - 1;
        lemma_alive_ahead_after(p0, p1, a, c, j);
        if blast_victim(p0, a, j) {
            let by = choose|by: usize| is_killed(p0[j], p1[j], bomb_reason(), by);
            assert(!p1[j].alive);
        } else {
            assert(p1[j] == p0[j]);
        }
    }
}

/// Blasts covering `a` and then blasts covering `b` kill as blasts covering both.
pub(crate) proof fn lemma_bomb_kills_trans(p0: Seq<Player>, p1: Seq<Player>, p2: Seq<Player>, a: Seq<Coord>, b: Seq<Coord>)
    requires
        bomb_kills(p0, p1, a),
        bomb_kills(p1, p2, b),
    ensures
        bomb_kills(p0, p2, a + b),
{
    assert forall|k: int| #![trigger p2[k]] 0 <= k < p0.len() && blast_victim(p0, a + b, k)
        implies killed_by_bomb(p0[k], p2[k]) by {
        lemma_trans_at(p0, p1, p2, a, b, k);
    }
    assert forall|k: int| #![trigger p2[k]] 0 <= k < p0.len() && !blast_victim(p0, a + b, k)
        implies p2[k] == p0[k] by {
        lemma_trans_at(p0, p1, p2, a, b, k);
    }
}

/// One player's part of `lemma_bomb_kills_trans`.
proof fn lemma_trans_at(p0: Seq<Player>, p1: Seq<Player>, p2: Seq<Player>, a: Seq<Coord>, b: Seq<Coord>, k: int)
    requires
        bomb_kills(p0, p1, a),
        bomb_kills(p1, p2, b),
        0 <= k < p0.len(),
    ensures
        blast_victim(p0, a + b, k) ==> killed_by_bomb(p0[k], p2[k]),
        !blast_victim(p0, a + b, k) ==> p2[k] == p0[k],
{
    {
        let c = p0[k].position;
        lemma_occurrences_concat(a, b, c);
        lemma_alive_ahead_after(p0, p1, a, c, k);
        if blast_victim(p0, a, k) {
            let by = choose|by: usize| is_killed(p0[k], p1[k], bomb_reason(), by);
            assert(!blast_victim(p1, b, k));
            assert(p2[k] == p1[k]);
            assert(is_killed(p0[k], p2[k], bomb_reason(), by));
        } else {
            assert(p1[k] == p0[k]);
            if blast_victim(p1, b, k) {
                let by = choose|by: usize| is_killed(p1[k], p2[k], bomb_reason(), by);
                assert(is_killed(p0[k], p2[k], bomb_reason(), by));
            } else {
                assert(p2[k] == p1[k]);
            }
        }
    }
}

/// The order of the blasted tiles does not matter.
pub(crate) proof fn lemma_bomb_kills_swap(p0: Seq<Player>, p1: Seq<Player>, a: Seq<Coord>, b: Seq<Coord>)
    requires
        bomb_kills(p0, p1, a + b),
    ensures
        bomb_kills(p0, p1, b + a),
{
    assert forall|k: int| #![trigger p1[k]] 0 <= k < p0.len() && blast_victim(p0, b + a, k)
        implies killed_by_bomb(p0[k], p1[k]) by {
        lemma_occurrences_concat(a, b, p0[k].position);
        lemma_occurrences_concat(b, a, p0[k].position);
        assert(blast_victim(p0, a + b, k));
    }
    assert forall|k: int| #![trigger p1[k]] 0 <= k < p0.len() && !blast_victim(p0, b + a, k)
        implies p1[k] == p0[k] by {
        lemma_occurrences_concat(a, b, p0[k].position);
        lemma_occurrences_concat(b, a, p0[k].position);
        assert(!blast_victim(p0, a + b, k));
    }
}

/// No blasted tile, nobody killed.
pub(crate) proof fn lemma_bomb_kills_none(p: Seq<Player>)
    ensures
        bomb_kills(p, p, Seq::empty()),
{
    assert forall|k: int| 0 <= k < p.len() implies !#[trigger] blast_victim(p, Seq::empty(), k) by {}
}

/// Killing the first living player on `tile` (if any) is a blast covering `tile` once.
pub(crate) proof fn lemma_kill_step(p: Seq<Player>, q: Seq<Player>, tile: Coord, by: usize)
    requires
        q.len() == p.len(),
        nobody_alive_at(p, tile) ==> q == p,
        !nobody_alive_at(p, tile) ==> exists|k: int| is_first_alive_at(p, tile, k),
        forall|k: int| is_first_alive_at(p, tile, k) ==> {
            &&& is_killed(p[k], q[k], bomb_reason(), by)
            &&& forall|j: int| 0 <= j < p.len() && j != k ==> q[j] == p[j]
        },
    ensures
        bomb_kills(p, q, seq![tile]),
{
    let one = seq![tile];
    assert(one.drop_last() =~= Seq::<Coord>::empty());
    assert(occurrences(Seq::<Coord>::empty(), tile) == 0);
    assert(one.last() == tile);
    assert(occurrences(one, tile) == 1);
    assert forall|k: int| 0 <= k < p.len() implies
        (#[trigger] blast_victim(p, one, k) <==> is_first_alive_at(p, tile, k)) by {
        lemma_alive_ahead_zero(p, tile, k);
        if p[k].position != tile {
            assert(occurrences(Seq::<Coord>::empty(), p[k].position) == 0);
            assert(occurrences(one, p[k].position) == 0);
        }
    }
    if !nobody_alive_at(p, tile) {
        let f = choose|k: int| is_first_alive_at(p, tile, k);
        assert forall|k: int| 0 <= k < p.len() && blast_victim(p, one, k) implies k == f by {
            if k < f {
                assert(p[k].alive && p[k].position == tile);
            } else if k > f {
                assert(p[f].alive && p[f].position == tile);
            }
        }
        assert(is_killed(p[f], q[f], bomb_reason(), by));
    }
}

/// Every tile of the blast of a bomb at `p` on `grid` is among `explosions`.
pub open spec fn blast_recorded(grid: Grid, p: Coord, radius: nat, explosions: Seq<Coord>) -> bool {
    forall|t: Coord| #[trigger] blast_area(grid, p, radius).contains(t) ==> explosions.contains(t)
}

/// A tile of a concatenation lies in one of its parts.
pub(crate) proof fn lemma_contains_concat(a: Seq<Coord>, b: Seq<Coord>, t: Coord)
    ensures
        (a + b).contains(t) <==> a.contains(t) || b.contains(t),
{
    if (a + b).contains(t) {
        let i = choose|i: int| 0 <= i < (a + b).len() && (a + b)[i] == t;
        if i < a.len() {
            assert(a[i] == t);
        } else {
            assert(b[i - a.len()] == t);
        }
    }
    if a.contains(t) {
        let i = choose|i: int| 0 <= i < a.len() && a[i] == t;
        assert((a + b)[i] == t);
    }
    if b.contains(t) {
        let i = choose|i: int| 0 <= i < b.len() && b[i] == t;
        assert((a + b)[a.len() + i] == t);
    }
}

/// A list holds every tile of each of its prefixes.
pub(crate) proof fn lemma_extends_contains(a: Seq<Coord>, b: Seq<Coord>)
    requires
        extends(a, b),
    ensures
        forall|t: Coord| #[trigger] a.contains(t) ==> b.contains(t),
{
    assert forall|t: Coord| #[trigger] a.contains(t) implies b.contains(t) by {
        let i = choose|i: int| 0 <= i < a.len() && a[i] == t;
        assert(b[i] == t);
    }
}

/// Emptying tiles only lets a ray of a blast reach further.
pub(crate) proof fn lemma_blast_ray_grows(g1: Grid, g2: Grid, from: Coord, d: int, steps: nat, t: Coord)
    requires
        forall|c: Coord| #[trigger] g2.cell_at(c) == g1.cell_at(c) || g2.cell_at(c) == CellType::Empty,
        blast_ray(g1, from, d, steps).contains(t),
    ensures
        blast_ray(g2, from, d, steps).contains(t),
    decreases steps,
{
    if steps > 0 {
        if let Some(next) = crate::bomb::step_dir(from, d) {
            let c1 = g1.cell_at(next);
            let c2 = g2.cell_at(next);
            let rest1 = blast_ray(g1, next, d, (steps - 1) as nat);
            let rest2 = blast_ray(g2, next, d, (steps - 1) as nat);
            assert(c2 == c1 || c2 == CellType::Empty);
            if c1 == CellType::Destroyable {
                assert(blast_ray(g1, from, d, steps) == seq![next]);
                assert(t == seq![next][0]);
                if c2 == CellType::Destroyable {
                    assert(blast_ray(g2, from, d, steps) == seq![next]);
                    assert(seq![next][0] == next);
                } else {
                    assert(blast_ray(g2, from, d, steps) == seq![next] + rest2);
                    assert((seq![next] + rest2)[0] == next);
                }
            } else if c1 != CellType::Wall {
                assert(blast_ray(g1, from, d, steps) == seq![next] + rest1);
                assert(blast_ray(g2, from, d, steps) == seq![next] + rest2);
                lemma_contains_concat(seq![next], rest1, t);
                lemma_contains_concat(seq![next], rest2, t);
                if t != next {
                    lemma_blast_ray_grows(g1, g2, next, d, (steps - 1) as nat, t);
                } else {
                    assert(seq![next][0] == next);
                }
            }
        }
    }
}

/// Emptying tiles only lets a blast reach further: a blast recorded on the emptier
/// board is recorded on the fuller one too, and in every longer list of explosions.
pub(crate) proof fn lemma_recorded_mono(g1: Grid, g2: Grid, p: Coord, radius: nat, e1: Seq<Coord>, e2: Seq<Coord>)
    requires
        forall|c: Coord| #[trigger] g2.cell_at(c) == g1.cell_at(c) || g2.cell_at(c) == CellType::Empty,
        blast_recorded(g2, p, radius, e1),
        forall|t: Coord| #[trigger] e1.contains(t) ==> e2.contains(t),
    ensures
        blast_recorded(g1, p, radius, e2),
{
    assert forall|t: Coord| #[trigger] blast_area(g1, p, radius).contains(t) implies e2.contains(t) by {
        let r0 = blast_ray(g1, p, 0, radius);
        let r1 = blast_ray(g1, p, 1, radius);
        let r2 = blast_ray(g1, p, 2, radius);
        let r3 = blast_ray(g1, p, 3, radius);
        let s0 = blast_ray(g2, p, 0, radius);
        let s1 = blast_ray(g2, p, 1, radius);
        let s2 = blast_ray(g2, p, 2, radius);
        let s3 = blast_ray(g2, p, 3, radius);
        lemma_contains_concat(seq![p] + r0 + r1 + r2, r3, t);
        lemma_contains_concat(seq![p] + r0 + r1, r2, t);
        lemma_contains_concat(seq![p] + r0, r1, t);
        lemma_contains_concat(seq![p], r0, t);
        lemma_contains_concat(seq![p] + s0 + s1 + s2, s3, t);
        lemma_contains_concat(seq![p] + s0 + s1, s2, t);
        lemma_contains_concat(seq![p] + s0, s1, t);
        lemma_contains_concat(seq![p], s0, t);
        if r0.contains(t) {
            lemma_blast_ray_grows(g1, g2, p, 0, radius, t);
        }
        if r1.contains(t) {
            lemma_blast_ray_grows(g1, g2, p, 1, radius, t);
        }
        if r2.contains(t) {
            lemma_blast_ray_grows(g1, g2, p, 2, radius, t);
        }
        if r3.contains(t) {
            lemma_blast_ray_grows(g1, g2, p, 3, radius, t);
        }
        if t == p {
            assert(seq![p][0] == p);
        }
        assert(blast_area(g2, p, radius).contains(t));
    }
}

/// Tile `t` lies in the blast on `grid` of some centre `source` admits.
pub open spec fn blasted_by(grid: Grid, radius: nat, source: spec_fn(Coord) -> bool, t: Coord) -> bool {
    exists|p: Coord| #[trigger] source(p) && blast_area(grid, p, radius).contains(t)
}

/// A tile blasted from some centre on a board stays blasted, from a wider set of
/// centres, on a board where tiles have since only been emptied.
pub(crate) proof fn lemma_blasted_by_mono(g1: Grid, g2: Grid, radius: nat, s1: spec_fn(Coord) -> bool,
    s2: spec_fn(Coord) -> bool, t: Coord)
    requires
        blasted_by(g1, radius, s1, t),
        forall|p: Coord| #[trigger] s1(p) ==> s2(p),
        forall|c: Coord| #[trigger] g2.cell_at(c) == g1.cell_at(c) || g2.cell_at(c) == CellType::Empty,
    ensures
        blasted_by(g2, radius, s2, t),
{
    let p = choose|p: Coord| #[trigger] s1(p) && blast_area(g1, p, radius).contains(t);
    let wide = blast_area(g2, p, radius);
    assert(blast_recorded(g2, p, radius, wide));
    lemma_recorded_mono(g1, g2, p, radius, wide, wide);
    assert(s2(p));
}

/// From `before` to `after` only tiles among `tiles` changed.
pub open spec fn changes_within(before: Grid, after: Grid, tiles: Seq<Coord>) -> bool {
    forall|c: Coord| #[trigger] after.cell_at(c) != before.cell_at(c) ==> tiles.contains(c)
}

/// `path` is a chain of blasts on `grid`: every tile after the first holds a bomb of
/// `bombs` lying in the blast of the tile before.
pub open spec fn is_chain(bombs: Seq<Bomb>, grid: Grid, radius: nat, path: Seq<Coord>) -> bool {
    &&& path.len() >= 1
    &&& forall|i: int| 1 <= i < path.len() ==> has_bomb_at(bombs, #[trigger] path[i])
        && blast_area(grid, path[i - 1], radius).contains(path[i])
}

/// A blast that started on `root` sets off, through a chain of blasts, a bomb of `bombs`
/// on `p` (or `p` is `root` itself).
pub open spec fn chained(bombs: Seq<Bomb>, grid: Grid, radius: nat, root: Coord, p: Coord) -> bool {
    exists|path: Seq<Coord>| #[trigger] is_chain(bombs, grid, radius, path) && path[0] == root && path.last() == p
}

/// A blast on a fuller board reaches no further than on an emptier one.
pub(crate) proof fn lemma_area_grows(g1: Grid, g2: Grid, p: Coord, radius: nat, t: Coord)
    requires
        forall|c: Coord| #[trigger] g2.cell_at(c) == g1.cell_at(c) || g2.cell_at(c) == CellType::Empty,
        blast_area(g1, p, radius).contains(t),
    ensures
        blast_area(g2, p, radius).contains(t),
{
    let wide = blast_area(g2, p, radius);
    assert(blast_recorded(g2, p, radius, wide));
    lemma_recorded_mono(g1, g2, p, radius, wide, wide);
}

/// A chain on a fuller board among fewer bombs is a chain on an emptier board among more.
pub(crate) proof fn lemma_chain_mono(b1: Seq<Bomb>, g1: Grid, b2: Seq<Bomb>, g2: Grid, radius: nat, root: Coord, p: Coord)
    requires
        chained(b1, g1, radius, root, p),
        forall|x: Coord| #[trigger] has_bomb_at(b1, x) ==> has_bomb_at(b2, x),
        forall|c: Coord| #[trigger] g2.cell_at(c) == g1.cell_at(c) || g2.cell_at(c) == CellType::Empty,
    ensures
        chained(b2, g2, radius, root, p),
{
    let path = choose|path: Seq<Coord>| #[trigger] is_chain(b1, g1, radius, path) && path[0] == root && path.last() == p;
    assert forall|i: int| 1 <= i < path.len() implies has_bomb_at(b2, #[trigger] path[i])
        && blast_area(g2, path[i - 1], radius).contains(path[i]) by {
        lemma_area_grows(g1, g2, path[i - 1], radius, path[i]);
    }
    assert(is_chain(b2, g2, radius, path));
}

/// Chains compose: a chain from `a` to `b` followed by one from `b` is a chain from `a`.
pub(crate) proof fn lemma_chain_trans(bombs: Seq<Bomb>, grid: Grid, radius: nat, a: Coord, b: Coord, p: Coord)
    requires
        chained(bombs, grid, radius, a, b),
        chained(bombs, grid, radius, b, p),
    ensures
        chained(bombs, grid, radius, a, p),
{
    let p1 = choose|path: Seq<Coord>| #[trigger] is_chain(bombs, grid, radius, path) && path[0] == a && path.last() == b;
    let p2 = choose|path: Seq<Coord>| #[trigger] is_chain(bombs, grid, radius, path) && path[0] == b && path.last() == p;
    let path = p1 + p2.drop_first();
    assert forall|i: int| 1 <= i < path.len() implies has_bomb_at(bombs, #[trigger] path[i])
        && blast_area(grid, path[i - 1], radius).contains(path[i]) by {
        if i < p1.len() {
            assert(path[i] == p1[i] && path[i - 1] == p1[i - 1]);
        } else {
            let j = i - p1.len() + 1;
            assert(path[i] == p2[j]);
            if j == 1 {
                assert(path[i - 1] == p1.last());
            } else {
                assert(path[i - 1] == p2[j - 1]);
            }
        }
    }
    assert(is_chain(bombs, grid, radius, path));
    if p2.len() == 1 {
        assert(path =~= p1);
    } else {
        assert(path.last() == p2.last());
    }
    assert(path[0] == a);
}

/// One link: a bomb on `p` in the blast of `root` is set off by it.
pub(crate) proof fn lemma_chain_link(bombs: Seq<Bomb>, grid: Grid, radius: nat, root: Coord, p: Coord)
    requires
        has_bomb_at(bombs, p),
        blast_area(grid, root, radius).contains(p),
    ensures
        chained(bombs, grid, radius, root, p),
{
    let path = seq![root, p];
    assert(path[1] == p);
    assert(is_chain(bombs, grid, radius, path));
}

/// A blast starts a chain of its own.
pub(crate) proof fn lemma_chain_start(bombs: Seq<Bomb>, grid: Grid, radius: nat, root: Coord)
    ensures
        chained(bombs, grid, radius, root, root),
{
    let path = seq![root];
    assert(is_chain(bombs, grid, radius, path));
}

/// A tile blasted from a chain stays so on an emptier board among more bombs.
pub(crate) proof fn lemma_chained_blast_mono(b1: Seq<Bomb>, g1: Grid, b2: Seq<Bomb>, g2: Grid, radius: nat,
    root: Coord, t: Coord)
    requires
        blasted_by(g1, radius, |p: Coord| chained(b1, g1, radius, root, p), t),
        forall|x: Coord| #[trigger] has_bomb_at(b1, x) ==> has_bomb_at(b2, x),
        forall|c: Coord| #[trigger] g2.cell_at(c) == g1.cell_at(c) || g2.cell_at(c) == CellType::Empty,
    ensures
        blasted_by(g2, radius, |p: Coord| chained(b2, g2, radius, root, p), t),
{
    let s1 = |p: Coord| chained(b1, g1, radius, root, p);
    let s2 = |p: Coord| chained(b2, g2, radius, root, p);
    assert forall|p: Coord| #[trigger] s1(p) implies s2(p) by {
        lemma_chain_mono(b1, g1, b2, g2, radius, root, p);
    }
    lemma_blasted_by_mono(g1, g2, radius, s1, s2, t);
}

/// A tile blasted from a chain that starts on `b`, where a chain from `a` reaches `b`,
/// is blasted from a chain that starts on `a`.
pub(crate) proof fn lemma_chained_blast_reroot(bombs: Seq<Bomb>, grid: Grid, radius: nat, a: Coord, b: Coord, t: Coord)
    requires
        blasted_by(grid, radius, |p: Coord| chained(bombs, grid, radius, b, p), t),
        chained(bombs, grid, radius, a, b),
    ensures
        blasted_by(grid, radius, |p: Coord| chained(bombs, grid, radius, a, p), t),
{
    let s1 = |p: Coord| chained(bombs, grid, radius, b, p);
    let s2 = |p: Coord| chained(bombs, grid, radius, a, p);
    assert forall|p: Coord| #[trigger] s1(p) implies s2(p) by {
        lemma_chain_trans(bombs, grid, radius, a, b, p);
    }
    assert forall|c: Coord| #[trigger] grid.cell_at(c) == grid.cell_at(c) || grid.cell_at(c) == CellType::Empty by {}
    lemma_blasted_by_mono(grid, grid, radius, s1, s2, t);
}

/// Tile `t` lies in the blast, on `grid`, of a bomb that the bomb at index `i` of `bombs`,
/// whose fuse ran out this turn, set off through a chain of blasts (or of that bomb itself).
pub open spec fn set_off_by(bombs: Seq<Bomb>, grid: Grid, radius: nat, i: int, t: Coord) -> bool {
    &&& 0 <= i < bombs.len()
    &&& bombs[i].timer <= 1
    &&& blasted_by(grid, radius, |p: Coord| chained(bombs, grid, radius, bombs[i].position, p), t)
}

/// Every tile of `tiles` lies in the blast, on `grid`, of a bomb set off by a chain
/// that a bomb of `bombs` whose fuse ran out this turn started.
pub open spec fn all_set_off(bombs: Seq<Bomb>, grid: Grid, radius: nat, tiles: Seq<Coord>) -> bool {
    forall|t: int| 0 <= t < tiles.len() ==> #[trigger] tile_set_off(bombs, grid, radius, tiles[t])
}

/// Tile `t` lies in the blast, on `grid`, of a bomb set off by the chain of some bomb of
/// `bombs` whose fuse ran out this turn.
pub open spec fn tile_set_off(bombs: Seq<Bomb>, grid: Grid, radius: nat, t: Coord) -> bool {
    exists|i: int| #[trigger] set_off_by(bombs, grid, radius, i, t)
}

/// Every player who died from `before` to `after` stood in the blast, on `grid`, of a bomb
/// set off by the chain of an expired bomb of `bombs`, and was killed by that bomb's owner.
pub open spec fn killed_by_chains(bombs: Seq<Bomb>, grid: Grid, radius: nat, before: Seq<Player>, after: Seq<Player>) -> bool {
    forall|q: int| 0 <= q < before.len() && #[trigger] after[q] != before[q] ==> exists|i: int|
        set_off_by(bombs, grid, radius, i, before[q].position) && after[q].killed_by == #[trigger] bombs[i].player_id
}

/// Set off on a board stays set off on an emptier one.
proof fn lemma_set_off_mono(bombs: Seq<Bomb>, g1: Grid, g2: Grid, radius: nat, i: int, t: Coord)
    requires
        set_off_by(bombs, g1, radius, i, t),
        forall|c: Coord| #[trigger] g2.cell_at(c) == g1.cell_at(c) || g2.cell_at(c) == CellType::Empty,
    ensures
        set_off_by(bombs, g2, radius, i, t),
{
    assert forall|x: Coord| #[trigger] has_bomb_at(bombs, x) implies has_bomb_at(bombs, x) by {}
    lemma_chained_blast_mono(bombs, g1, bombs, g2, radius, bombs[i].position, t);
}

/// One more expired bomb going off, with its chain, keeps every recorded explosion, every
/// victim and every changed tile accounted for by the chain of an expired bomb.
#[verifier::rlimit(60)]
proof fn lemma_bomb_step(bombs: Seq<Bomb>, exploding: Seq<Bomb>, k: int, held: Seq<Bomb>, g0: Grid, g1: Grid,
    g2: Grid, e1: Seq<Coord>, e2: Seq<Coord>, pl0: Seq<Player>, pl1: Seq<Player>, pl2: Seq<Player>, rad: nat)
    requires
        exploding == ticked(bombs).filter(|b: Bomb| b.timer == 0),
        0 <= k < exploding.len(),
        bombs_from(ticked(bombs).filter(|b: Bomb| b.timer != 0), held),
        all_set_off(bombs, g1, rad, e1),
        killed_by_chains(bombs, g1, rad, pl0, pl1),
        changes_within(g0, g1, e1),
        extends(e1, e2),
        forall|c: Coord| #[trigger] g2.cell_at(c) == g1.cell_at(c) || g2.cell_at(c) == CellType::Empty,
        forall|t: int| e1.len() <= t < e2.len() ==> blasted_by(g2, rad,
            |p: Coord| chained(held, g2, rad, exploding[k].position, p), #[trigger] e2[t]),
        changes_within(g1, g2, e2.subrange(e1.len() as int, e2.len() as int)),
        pl1.len() == pl0.len(),
        pl2.len() == pl1.len(),
        forall|q: int| 0 <= q < pl0.len() ==> (#[trigger] pl1[q]).position == pl0[q].position,
        forall|q: int| 0 <= q < pl1.len() && #[trigger] pl2[q] != pl1[q]
            ==> e2.subrange(e1.len() as int, e2.len() as int).contains(pl1[q].position)
                && pl2[q].killed_by == exploding[k].player_id,
    ensures
        all_set_off(bombs, g2, rad, e2),
        killed_by_chains(bombs, g2, rad, pl0, pl2),
        changes_within(g0, g2, e2),
{
    let tb = ticked(bombs);
    let bomb = exploding[k];
    let m = e1.len() as int;
    let e = e2.len() as int;
    let seg = e2.subrange(m, e);
    assert(exploding.contains(bomb));
    tb.lemma_filter_contains_rev(|b: Bomb| b.timer == 0, bomb);
    let i0 = choose|i: int| 0 <= i < tb.len() && tb[i] == bomb;
    assert(bomb.timer == 0) by {
        broadcast use vstd::seq_lib::group_filter_ensures;
    }
    assert(bombs[i0].position == bomb.position && bombs[i0].player_id == bomb.player_id && bombs[i0].timer <= 1);
    assert forall|x: Coord| #[trigger] has_bomb_at(held, x) implies has_bomb_at(bombs, x) by {
        let j = choose|j: int| 0 <= j < held.len() && held[j].position == x;
        let b = held[j];
        assert(tb.filter(|b: Bomb| b.timer != 0).contains(b));
        tb.lemma_filter_contains_rev(|b: Bomb| b.timer != 0, b);
        let i = choose|i: int| 0 <= i < tb.len() && tb[i] == b;
        assert(bombs[i].position == x);
    }
    assert forall|t: int| m <= t < e implies set_off_by(bombs, g2, rad, i0, #[trigger] e2[t]) by {
        assert(blasted_by(g2, rad, |p: Coord| chained(held, g2, rad, bomb.position, p), e2[t]));
        lemma_chained_blast_mono(held, g2, bombs, g2, rad, bomb.position, e2[t]);
    }
    assert forall|t: int| 0 <= t < e2.len() implies #[trigger] tile_set_off(bombs, g2, rad, e2[t]) by {
        if t < m {
            assert(e2[t] == e1[t]);
            assert(tile_set_off(bombs, g1, rad, e1[t]));
            let i = choose|i: int| #[trigger] set_off_by(bombs, g1, rad, i, e1[t]);
            lemma_set_off_mono(bombs, g1, g2, rad, i, e2[t]);
        } else {
            assert(set_off_by(bombs, g2, rad, i0, e2[t]));
        }
    }
    assert forall|q: int| 0 <= q < pl0.len() && #[trigger] pl2[q] != pl0[q] implies exists|i: int|
        set_off_by(bombs, g2, rad, i, pl0[q].position) && pl2[q].killed_by == #[trigger] bombs[i].player_id by {
        if pl2[q] != pl1[q] {
            let w = choose|w: int| 0 <= w < seg.len() && seg[w] == pl1[q].position;
            assert(e2[m + w] == pl0[q].position);
            assert(set_off_by(bombs, g2, rad, i0, e2[m + w]));
        } else {
            let i = choose|i: int| set_off_by(bombs, g1, rad, i, pl0[q].position) && pl1[q].killed_by == #[trigger] bombs[i].player_id;
            lemma_set_off_mono(bombs, g1, g2, rad, i, pl0[q].position);
        }
    }
    assert forall|c: Coord| #[trigger] g2.cell_at(c) != g0.cell_at(c) implies e2.contains(c) by {
        if g2.cell_at(c) != g1.cell_at(c) {
            let w = choose|w: int| 0 <= w < seg.len() && seg[w] == c;
            assert(e2[m + w] == c);
        } else {
            let w = choose|w: int| 0 <= w < e1.len() && e1[w] == c;
            assert(e2[w] == c);
        }
    }
}


/// `k` is the first player in `players` with the given id.
pub open spec fn is_first_with_id(players: Seq<Player>, id: usize, k: int) -> bool {
    &&& 0 <= k < players.len()
    &&& players[k].id == id
    &&& forall|j: int| 0 <= j < k ==> players[j].id != id
}

/// A bomb lies on `position`.
pub open spec fn has_bomb_at(bombs: Seq<Bomb>, position: Coord) -> bool {
    exists|i: int| 0 <= i < bombs.len() && bombs[i].position == position
}

/// The bombs after a turn of ticking: every timer goes down by one, stopping at zero.
pub open spec fn ticked(bombs: Seq<Bomb>) -> Seq<Bomb> {
    bombs.map_values(|b: Bomb| Bomb { timer: if b.timer > 0 { (b.timer - 1) as usize } else { 0 }, ..b })
}

/// The kill reason that clears the tile of the victim.
pub open spec fn bomb_reason() -> Seq<char> {
    "bomb"@
}


/// No bomb lies on any of `locations`.
pub open spec fn no_bomb_in(bombs: Seq<Bomb>, locations: Seq<Coord>) -> bool {
    forall|i: int| 0 <= i < bombs.len() ==> !locations.contains(#[trigger] bombs[i].position)
}

/// No destroyable block lies on any of `locations`.
pub open spec fn no_block_in(grid: Grid, locations: Seq<Coord>) -> bool {
    forall|i: int| 0 <= i < locations.len() ==> grid.cell_at(#[trigger] locations[i]) != CellType::Destroyable
}

/// From `before` to `after` tiles have only been emptied.
pub open spec fn only_emptied(before: Grid, after: Grid) -> bool {
    &&& after.wf()
    &&& after.size == before.size
    &&& forall|c: Coord| #[trigger] after.cell_at(c) == before.cell_at(c) || after.cell_at(c) == CellType::Empty
}

/// From `before` to `after` players have only died: nobody moved, changed name or id,
/// and everyone still alive is exactly as before.
pub open spec fn players_only_die(before: Seq<Player>, after: Seq<Player>) -> bool {
    &&& after.len() == before.len()
    &&& forall|i: int| 0 <= i < after.len() ==> {
        &&& (#[trigger] after[i]).position == before[i].position
        &&& after[i].id == before[i].id
        &&& after[i].name == before[i].name
        &&& (after[i].alive ==> after[i] == before[i])
    }
}

/// Every bomb of `after` is one of `before`.
pub open spec fn bombs_from(before: Seq<Bomb>, after: Seq<Bomb>) -> bool {
    &&& after.len() <= before.len()
    &&& forall|i: int| 0 <= i < after.len() ==> before.contains(#[trigger] after[i])
}

/// The players of `a` and `b` are the same people: same number and same ids.
pub open spec fn same_roster(a: Seq<Player>, b: Seq<Player>) -> bool {
    &&& a.len() == b.len()
    &&& forall|i: int| 0 <= i < a.len() ==> (#[trigger] b[i]).id == a[i].id
}

/// `before` is a prefix of `after`.
pub open spec fn extends(before: Seq<Coord>, after: Seq<Coord>) -> bool {
    &&& before.len() <= after.len()
    &&& forall|i: int| 0 <= i < before.len() ==> #[trigger] after[i] == before[i]
}

/// `a` and `b` have the same players alive.
pub open spec fn same_alive(a: Seq<Player>, b: Seq<Player>) -> bool {
    &&& a.len() == b.len()
    &&& forall|i: int| 0 <= i < a.len() ==> (#[trigger] b[i]).alive == a[i].alive
}

/// Going from `start` (winner `start_winner`) to `players` (winner `winner`), the winner
/// only changed through deaths: nobody died and the winner stands, or somebody died and
/// the winner is the one `winner_after` gives, so a sole survivor has won.
pub open spec fn winner_follows(start: Seq<Player>, start_winner: Option<Player>, players: Seq<Player>,
    winner: Option<Player>) -> bool
{
    &&& same_alive(start, players) ==> winner == start_winner
    &&& !same_alive(start, players) ==> exists|w: Option<Player>| winner == winner_after(players, w)
}

/// Seats whose living players are the same give the same living players.
proof fn lemma_alive_players_same(b: Seq<Player>, c: Seq<Player>)
    requires
        same_alive(b, c),
        forall|i: int| 0 <= i < c.len() && (#[trigger] c[i]).alive ==> c[i] == b[i],
    ensures
        alive_players(b) == alive_players(c),
    decreases b.len(),
{
    reveal(Seq::filter);
    if b.len() > 0 {
        let b0 = b.drop_last();
        let c0 = c.drop_last();
        assert forall|i: int| 0 <= i < c0.len() && (#[trigger] c0[i]).alive implies c0[i] == b0[i] by {
            assert(c[i] == c0[i] && b[i] == b0[i]);
        }
        assert forall|i: int| 0 <= i < b0.len() implies (#[trigger] c0[i]).alive == b0[i].alive by {
            assert(c[i] == c0[i] && b[i] == b0[i]);
        }
        lemma_alive_players_same(b0, c0);
        assert(c.last() == c[c.len() - 1] && b.last() == b[b.len() - 1]);
    } else {
        assert(b =~= Seq::<Player>::empty());
        assert(c =~= Seq::<Player>::empty());
    }
}

/// Winners that follow deaths compose.
pub proof fn lemma_winner_follows_trans(a: Seq<Player>, wa: Option<Player>, b: Seq<Player>, wb: Option<Player>,
    c: Seq<Player>, wc: Option<Player>)
    requires
        winner_follows(a, wa, b, wb),
        winner_follows(b, wb, c, wc),
        players_only_die(a, b),
        players_only_die(b, c),
    ensures
        winner_follows(a, wa, c, wc),
{
    if same_alive(a, c) {
        assert forall|i: int| 0 <= i < a.len() implies (#[trigger] b[i]).alive == a[i].alive by {
            assert(c[i].alive == a[i].alive);
            if c[i].alive {
                assert(c[i] == b[i]);
            } else if b[i].alive {
                assert(b[i] == a[i]);
            }
        }
        assert forall|i: int| 0 <= i < b.len() implies (#[trigger] c[i]).alive == b[i].alive by {
            assert(c[i].alive == a[i].alive);
        }
    } else if same_alive(b, c) {
        if same_alive(a, b) {
            assert forall|i: int| 0 <= i < a.len() implies (#[trigger] c[i]).alive == a[i].alive by {
                assert(b[i].alive == a[i].alive);
            }
        }
        let w = choose|w: Option<Player>| wb == winner_after(b, w);
        assert forall|i: int| 0 <= i < c.len() && (#[trigger] c[i]).alive implies c[i] == b[i] by {}
        lemma_alive_players_same(b, c);
        assert(wc == winner_after(c, w));
    }
}

/// A kill of the first living player on `tile` by `by`, winner updated, keeps the winner
/// following the deaths and marks the victim's killer.
pub proof fn lemma_kill_follows(p: Seq<Player>, pw: Option<Player>, q: Seq<Player>, qw: Option<Player>, tile: Coord,
    reason: Seq<char>, by: usize)
    requires
        q.len() == p.len(),
        nobody_alive_at(p, tile) ==> q == p && qw == pw,
        !nobody_alive_at(p, tile) ==> exists|k: int| is_first_alive_at(p, tile, k),
        forall|k: int| is_first_alive_at(p, tile, k) ==> {
            &&& is_killed(p[k], q[k], reason, by)
            &&& forall|j: int| 0 <= j < p.len() && j != k ==> q[j] == p[j]
            &&& qw == winner_after(q, pw)
        },
    ensures
        winner_follows(p, pw, q, qw),
        forall|k: int| 0 <= k < p.len() && #[trigger] q[k] != p[k] ==> q[k].killed_by == by,
{
    if !nobody_alive_at(p, tile) {
        let f = choose|k: int| is_first_alive_at(p, tile, k);
        assert(q[f].alive != p[f].alive);
        assert forall|k: int| 0 <= k < p.len() && #[trigger] q[k] != p[k] implies q[k].killed_by == by by {
            if k != f {
                assert(q[k] == p[k]);
            }
        }
    }
}

pub proof fn lemma_only_emptied_trans(a: Grid, b: Grid, c: Grid)
    requires
        only_emptied(a, b),
        only_emptied(b, c),
    ensures
        only_emptied(a, c),
{
    assert forall|x: Coord| #[trigger] c.cell_at(x) == a.cell_at(x) || c.cell_at(x) == CellType::Empty by {
        assert(b.cell_at(x) == a.cell_at(x) || b.cell_at(x) == CellType::Empty);
    }
}

pub proof fn lemma_players_only_die_trans(a: Seq<Player>, b: Seq<Player>, c: Seq<Player>)
    requires
        players_only_die(a, b),
        players_only_die(b, c),
    ensures
        players_only_die(a, c),
{
    assert forall|i: int| 0 <= i < c.len() implies {
        &&& (#[trigger] c[i]).position == a[i].position
        &&& c[i].id == a[i].id
        &&& c[i].name == a[i].name
        &&& (c[i].alive ==> c[i] == a[i])
    } by {
        assert(b[i].position == a[i].position);
    }
}

/// Writing an empty tile anywhere only empties.
pub proof fn lemma_write_empty(before: Grid, after: Grid, p: Coord)
    requires
        before.wf(),
        after.size == before.size,
        in_bounds(p, before.size as int, before.size as int),
        after.tiles@ == before.tiles@.update(index_of(p, before.size as int), ' '),
    ensures
        only_emptied(before, after),
        after.cell_at(p) == CellType::Empty,
        forall|c: Coord| c != p ==> #[trigger] after.cell_at(c) == before.cell_at(c),
{
    assert forall|c: Coord| #[trigger] after.cell_at(c) == before.cell_at(c) || after.cell_at(c) == CellType::Empty by {
        lemma_set_cell_then_read(before, after, p, CellType::Empty, c);
    }
    assert forall|c: Coord| c != p implies #[trigger] after.cell_at(c) == before.cell_at(c) by {
        lemma_set_cell_then_read(before, after, p, CellType::Empty, c);
    }
    lemma_set_cell_then_read(before, after, p, CellType::Empty, p);
}

/// Filtering twice is filtering by both conditions.
pub(crate) proof fn lemma_filter_filter(s: Seq<Bomb>, p: spec_fn(Bomb) -> bool, q: spec_fn(Bomb) -> bool)
    ensures
        s.filter(p).filter(q) == s.filter(|b: Bomb| p(b) && q(b)),
    decreases s.len(),
{
    reveal(Seq::filter);
    if s.len() > 0 {
        lemma_filter_filter(s.drop_last(), p, q);
        let a = s.drop_last().filter(p);
        let x = s.last();
        if p(x) {
            assert(a.push(x).drop_last() =~= a);
            assert(a.push(x).last() == x);
        }
    }
}

/// Filtering by a condition every element meets keeps everything.
pub(crate) proof fn lemma_filter_all(s: Seq<Bomb>, p: spec_fn(Bomb) -> bool)
    requires
        forall|i: int| 0 <= i < s.len() ==> p(#[trigger] s[i]),
    ensures
        s.filter(p) == s,
    decreases s.len(),
{
    reveal(Seq::filter);
    if s.len() > 0 {
        lemma_filter_all(s.drop_last(), p);
        assert(s.drop_last().push(s.last()) =~= s);
    }
}

/// Keeping the bombs off `a`, then those off `b`, keeps the bombs off both, in either
/// order of the two lists.
pub(crate) proof fn lemma_filter_outside(s: Seq<Bomb>, a: Seq<Coord>, b: Seq<Coord>)
    ensures
        s.filter(|x: Bomb| !a.contains(x.position)).filter(|x: Bomb| !b.contains(x.position))
            == s.filter(|x: Bomb| !(a + b).contains(x.position)),
        s.filter(|x: Bomb| !a.contains(x.position)).filter(|x: Bomb| !b.contains(x.position))
            == s.filter(|x: Bomb| !(b + a).contains(x.position)),
{
    lemma_filter_filter(s, |x: Bomb| !a.contains(x.position), |x: Bomb| !b.contains(x.position));
    assert forall|p: Coord| #![trigger (a + b).contains(p)] #![trigger (b + a).contains(p)]
        (a + b).contains(p) == (a.contains(p) || b.contains(p))
        && (b + a).contains(p) == (a.contains(p) || b.contains(p)) by {
        if a.contains(p) {
            let i = choose|i: int| 0 <= i < a.len() && a[i] == p;
            assert((a + b)[i] == p);
            assert((b + a)[b.len() + i] == p);
        }
        if b.contains(p) {
            let i = choose|i: int| 0 <= i < b.len() && b[i] == p;
            assert((a + b)[a.len() + i] == p);
            assert((b + a)[i] == p);
        }
        if (a + b).contains(p) {
            let i = choose|i: int| 0 <= i < (a + b).len() && (a + b)[i] == p;
            if i < a.len() {
                assert(a[i] == p);
            } else {
                assert(b[i - a.len()] == p);
            }
        }
        if (b + a).contains(p) {
            let i = choose|i: int| 0 <= i < (b + a).len() && (b + a)[i] == p;
            if i < b.len() {
                assert(b[i] == p);
            } else {
                assert(a[i - b.len()] == p);
            }
        }
    }
    assert((|x: Bomb| (|x: Bomb| !a.contains(x.position))(x) && (|x: Bomb| !b.contains(x.position))(x))
        =~= (|x: Bomb| !(a + b).contains(x.position)));
    assert((|x: Bomb| (|x: Bomb| !a.contains(x.position))(x) && (|x: Bomb| !b.contains(x.position))(x))
        =~= (|x: Bomb| !(b + a).contains(x.position)));
}

/// Every bomb kept by a filter comes from the filtered sequence.
proof fn lemma_filter_subset(s: Seq<Bomb>, pred: spec_fn(Bomb) -> bool)
    ensures
        forall|i: int| 0 <= i < s.filter(pred).len() ==> s.contains(#[trigger] s.filter(pred)[i]),
    decreases s.len(),
{
    reveal(Seq::filter);
    if s.len() > 0 {
        lemma_filter_subset(s.drop_last(), pred);
        let sub = s.drop_last().filter(pred);
        assert forall|i: int| 0 <= i < s.filter(pred).len() implies s.contains(#[trigger] s.filter(pred)[i]) by {
            if i < sub.len() {
                let x = sub[i];
                assert(s.drop_last().contains(x));
                let j = choose|j: int| 0 <= j < s.drop_last().len() && s.drop_last()[j] == x;
                assert(s[j] == x);
            } else {
                assert(s[s.len() - 1] == s.filter(pred)[i]);
            }
        }
    }
}

/// Every player kept by a filter comes from the filtered sequence.
pub proof fn lemma_filter_subset_players(s: Seq<Player>, pred: spec_fn(Player) -> bool)
    ensures
        forall|i: int| 0 <= i < s.filter(pred).len() ==> s.contains(#[trigger] s.filter(pred)[i]),
    decreases s.len(),
{
    reveal(Seq::filter);
    if s.len() > 0 {
        lemma_filter_subset_players(s.drop_last(), pred);
        let sub = s.drop_last().filter(pred);
        assert forall|i: int| 0 <= i < s.filter(pred).len() implies s.contains(#[trigger] s.filter(pred)[i]) by {
            if i < sub.len() {
                let x = sub[i];
                assert(s.drop_last().contains(x));
                let j = choose|j: int| 0 <= j < s.drop_last().len() && s.drop_last()[j] == x;
                assert(s[j] == x);
            } else {
                assert(s[s.len() - 1] == s.filter(pred)[i]);
            }
        }
    }
}

/// The bombs of `s` split into those that satisfy `pred` and those that do not.
proof fn lemma_filter_split(s: Seq<Bomb>, pred: spec_fn(Bomb) -> bool)
    ensures
        s.filter(pred).len() + s.filter(|b: Bomb| !pred(b)).len() == s.len(),
    decreases s.len(),
{
    reveal(Seq::filter);
    if s.len() > 0 {
        lemma_filter_split(s.drop_last(), pred);
    }
}

/// What the shrink of turn `turn` does to the map: the next tile of the spiral becomes a
/// wall, bombs on it are removed, and the first living player on it is killed by the
/// shrink (the winner following that kill); nothing else changes.
#[verifier::opaque]
pub open spec fn shrink_done(before: GameMap, after: GameMap, turn: int) -> bool {
    let location = shrink_location((turn - before.map_settings.endgame) as nat,
        before.map_settings.size as nat).unwrap();
    &&& after.wf()
    &&& after.map_settings == before.map_settings
    &&& after.grid.cell_at(location) == CellType::Wall
    &&& after.grid.size == before.grid.size
    &&& forall|c: Coord| c != location ==> #[trigger] after.grid.cell_at(c) == before.grid.cell_at(c)
    &&& after.explosions == before.explosions
    &&& nobody_alive_at(before.players@, location) ==> after.winner == before.winner
    &&& !nobody_alive_at(before.players@, location)
        ==> after.winner == winner_after(after.players@, before.winner)
    &&& !has_bomb_at(after.bombs@, location)
    &&& after.bombs@ == before.bombs@.filter(|b: Bomb| b.position != location)
    &&& after.players@.len() == before.players@.len()
    &&& same_roster(before.players@, after.players@)
    &&& nobody_alive_at(before.players@, location) ==> after.players == before.players
    &&& forall|k: int| is_first_alive_at(before.players@, location, k) ==> {
        &&& is_killed(before.players@[k], after.players@[k], "shrink"@, usize::MAX)
        &&& forall|j: int| 0 <= j < before.players@.len() && j != k
            ==> after.players@[j] == before.players@[j]
    }
}

/// After a shrink the map is still well formed, played with the same settings, by the
/// same players.
pub proof fn lemma_shrink_done_keeps(before: GameMap, after: GameMap, turn: int)
    requires
        shrink_done(before, after, turn),
    ensures
        after.wf(),
        after.map_settings == before.map_settings,
        same_roster(before.players@, after.players@),
{
    reveal(shrink_done);
}

impl GameMap {
    /// The board matches the settings and the settings are playable.
    pub open spec fn wf(&self) -> bool {
        &&& self.grid.wf()
        &&& self.grid.size == self.map_settings.size
        &&& valid_map_size(self.map_settings.size as int)
    }

    /// The settings must pass validation: a board of another size is refused.
    pub fn new(config: MapConfig, players: Vec<Player>) -> (m: Self)
        requires
            valid_map_size(config.size as int),
        ensures
            m.wf(),
            m.map_settings == config,
            m.players@ == players@,
            m.bombs@.len() == 0,
            m.explosions@.len() == 0,
            m.winner is None,
            is_start_board(m.grid.tiles@, config.size as int, players@.map_values(|p: Player| p.position)),
    {
        let checked = MapValidatorChainFactory::validate(&config);
        proof {
            assert(checked is Ok);
            assert(config.size * config.size <= 400) by (nonlinear_arith)
                requires config.size <= 20;
        }
        let size = config.size;
        let mut positions: Vec<Coord> = Vec::new();
        for i in 0..players.len()
            invariant
                positions@ == players@.take(i as int).map_values(|p: Player| p.position),
        {
            positions.push(players[i].position);
            proof {
                assert(positions@ =~= players@.take(i + 1).map_values(|p: Player| p.position));
            }
        }
        proof {
            assert(players@.take(players@.len() as int) =~= players@);
        }
        let grid = GridFactory::new(size, positions);
        Self {
            map_settings: config,
            grid: grid,
            players: players,
            bombs: Vec::new(),
            explosions: Vec::new(),
            winner: None,
        }
    }

    fn check_winner(&mut self)
        ensures
            final(self).winner == winner_after(old(self).players@, old(self).winner),
            final(self).map_settings == old(self).map_settings,
            final(self).grid == old(self).grid,
            final(self).players == old(self).players,
            final(self).bombs == old(self).bombs,
            final(self).explosions == old(self).explosions,
    {
        let alive_count;
        let mut first: Option<Player> = None;
        {
            let alive_players = self.get_alive_players();
            alive_count = alive_players.len();
            if alive_count == 1 {
                first = Some(alive_players[0].clone());
            }
        }
        if alive_count == 1 {
            self.winner = first;
        }
    }

    pub fn has_winner(&self) -> (b: bool)
        ensures
            b == self.winner is Some,
    {
        self.winner.is_some()
    }

    /// The first player with the given id.
    pub fn get_player(&self, id: usize) -> (r: Option<&Player>)
        ensures
            r is None <==> (forall|j: int| 0 <= j < self.players@.len() ==> self.players@[j].id != id),
            r matches Some(p) ==> exists|k: int| is_first_with_id(self.players@, id, k) && *p == self.players@[k],
    {
        let mut i: usize = 0;
        while i < self.players.len()
            invariant
                i <= self.players@.len(),
                forall|j: int| 0 <= j < i ==> self.players@[j].id != id,
            decreases self.players@.len() - i,
        {
            if self.players[i].id == id {
                proof {
                    assert(is_first_with_id(self.players@, id, i as int));
                }
                return Some(&self.players[i]);
            }
            i = i + 1;
        }
        None
    }

    /// The players still in the game.
    pub fn get_alive_players(&self) -> (r: Vec<&Player>)
        ensures
            r@.map_values(|p: &Player| *p) == alive_players(self.players@),
    {
        let mut r: Vec<&Player> = Vec::new();
        for i in 0..self.players.len()
            invariant
                r@.map_values(|p: &Player| *p) == self.players@.take(i as int).filter(|p: Player| p.alive),
        {
            proof {
                reveal(Seq::filter);
                assert(self.players@.take(i + 1).drop_last() =~= self.players@.take(i as int));
            }
            if self.players[i].is_alive() {
                r.push(&self.players[i]);
            }
            proof {
                assert(r@.map_values(|p: &Player| *p) =~= self.players@.take(i + 1).filter(|p: Player| p.alive));
            }
        }
        proof {
            assert(self.players@.take(self.players@.len() as int) =~= self.players@);
        }
        r
    }

    /// The ids of the players still in the game.
    pub fn get_alive_players_ids(&self) -> (r: Vec<usize>)
        ensures
            r@ == alive_players(self.players@).map_values(|p: Player| p.id),
    {
        let alive = self.get_alive_players();
        let mut ids: Vec<usize> = Vec::new();
        for i in 0..alive.len()
            invariant
                alive@.map_values(|p: &Player| *p) == alive_players(self.players@),
                ids@ == alive_players(self.players@).take(i as int).map_values(|p: Player| p.id),
        {
            proof {
                assert(alive@.map_values(|p: &Player| *p)[i as int] == *alive@[i as int]);
            }
            ids.push(alive[i].id);
            proof {
                assert(ids@ =~= alive_players(self.players@).take(i + 1).map_values(|p: Player| p.id));
            }
        }
        proof {
            assert(alive_players(self.players@).take(alive@.len() as int) =~= alive_players(self.players@));
        }
        ids
    }

    /// Kills the first living player on `location`, if any. A bomb kill also clears the
    /// victim's tile. Then the winner is updated.
    pub fn kill_at_location(&mut self, location: Coord, reason_killed: String, killed_by: usize)
        requires
            old(self).wf(),
        ensures
            final(self).wf(),
            final(self).map_settings == old(self).map_settings,
            final(self).bombs == old(self).bombs,
            final(self).explosions == old(self).explosions,
            final(self).players@.len() == old(self).players@.len(),
            reason_killed@ != bomb_reason() ==> final(self).grid == old(self).grid,
            !nobody_alive_at(old(self).players@, location)
                ==> exists|k: int| is_first_alive_at(old(self).players@, location, k),
            nobody_alive_at(old(self).players@, location) ==> {
                &&& final(self).players == old(self).players
                &&& final(self).grid == old(self).grid
                &&& final(self).winner == old(self).winner
            },
            forall|k: int| is_first_alive_at(old(self).players@, location, k) ==> {
                &&& is_killed(old(self).players@[k], final(self).players@[k], reason_killed@, killed_by)
                &&& forall|j: int| 0 <= j < old(self).players@.len() && j != k
                    ==> final(self).players@[j] == old(self).players@[j]
                &&& final(self).grid.size == old(self).grid.size
                &&& final(self).grid.tiles@ == if reason_killed@ == bomb_reason() {
                    if in_bounds(location, old(self).grid.size as int, old(self).grid.size as int) {
                        old(self).grid.tiles@.update(index_of(location, old(self).grid.size as int), ' ')
                    } else {
                        old(self).grid.tiles@
                    }
                } else {
                    old(self).grid.tiles@
                }
                &&& final(self).winner == winner_after(final(self).players@, old(self).winner)
            },
    {
        let found = self.first_alive_at(location);
        if let Some(i) = found {
            proof {
                assert forall|k: int| is_first_alive_at(self.players@, location, k) implies k == i by {
                    if k < i {
                    } else if k > i {
                        assert(self.players@[i as int].alive && self.players@[i as int].position == location);
                    }
                }
            }
            let mut player = self.players[i].clone();
            player.kill(&reason_killed, killed_by);
            let position = player.position;
            self.players.set(i, player);
            if reason_killed == String::from_str("bomb") {
                self.grid.set_cell(position, CellType::Empty);
            }
            self.check_winner();
        }
    }

    /// The index of the first living player on `location`, if any.
    fn first_alive_at(&self, location: Coord) -> (r: Option<usize>)
        ensures
            r is None ==> nobody_alive_at(self.players@, location),
            r matches Some(k) ==> is_first_alive_at(self.players@, location, k as int),
    {
        for i in 0..self.players.len()
            invariant
                forall|j: int| 0 <= j < i ==> !(self.players@[j].alive && self.players@[j].position == location),
        {
            if self.players[i].position.col.get() == location.col.get()
                && self.players[i].position.row.get() == location.row.get()
                && self.players[i].is_alive()
            {
                return Some(i);
            }
        }
        None
    }

    /// Carries out `command` for the player at index `player`.
    pub fn try_execute_command(&mut self, player: usize, command: Command)
        requires
            old(self).wf(),
            player < old(self).players@.len(),
        ensures
            final(self).wf(),
            command_effect(*old(self), *final(self), player as int, command),
            same_roster(old(self).players@, final(self).players@),
            final(self).map_settings == old(self).map_settings,
    {
        match command {
            Command::Up => MoveUp.try_execute(self, player),
            Command::Down => MoveDown.try_execute(self, player),
            Command::Left => MoveLeft.try_execute(self, player),
            Command::Right => MoveRight.try_execute(self, player),
            Command::PlaceBomb => PlaceBomb.try_execute(self, player),
            Command::Wait => Wait.try_execute(self, player),
        }
        proof {
            assert(self.players@.len() == old(self).players@.len());
            assert forall|i: int| 0 <= i < old(self).players@.len() implies (#[trigger] self.players@[i]).id == old(self).players@[i].id by {}
        }
    }

    /// Walls the tile of shrink step `turn - endgame`, removes the bombs there and kills
    /// whoever stands there. There must be a tile left to wall, so `turn` must lie
    /// within the endgame.
    pub fn handle_shrink(&mut self, turn: usize)
        requires
            old(self).wf(),
            turn >= old(self).map_settings.endgame,
            turn - old(self).map_settings.endgame < (old(self).map_settings.size - 2) * (old(self).map_settings.size - 2),
        ensures
            shrink_done(*old(self), *final(self), turn as int),
    {
        let shrink_turn = turn - self.map_settings.endgame;
        proof {
            reveal(shrink_done);
            assert(self.map_settings.size * self.map_settings.size <= 400) by (nonlinear_arith)
                requires self.map_settings.size <= 20;
            assert((self.map_settings.size - 2) * (self.map_settings.size - 2) <= 400) by (nonlinear_arith)
                requires 7 <= self.map_settings.size <= 20;
            lemma_shrink_location_inside(shrink_turn as nat, self.map_settings.size as nat);
        }
        let found = calculate_shrink_location(shrink_turn, self.map_settings.size);
        match found {
            Some(shrink_location) => {
                let ghost size = self.grid.size as int;
                let ghost g0 = self.grid;
                self.grid.set_wall(shrink_location);
                proof {
                    lemma_index_in_square(shrink_location.row.0 as int, shrink_location.col.0 as int, size);
                    cell_char_roundtrip_wall();
                    assert forall|c: Coord| c != shrink_location implies #[trigger] self.grid.cell_at(c) == g0.cell_at(c) by {
                        lemma_set_cell_then_read(g0, self.grid, shrink_location, CellType::Wall, c);
                    }
                }
                self.remove_bombs_at_location(shrink_location);
                let ghost walled = self.grid;
                proof {
                    reveal_strlit("shrink");
                    reveal_strlit("bomb");
                    assert("shrink"@.len() != "bomb"@.len());
                    assert("shrink"@ != bomb_reason());
                }
                let ghost before_kill = self.players@;
                self.kill_at_location(shrink_location, String::from_str("shrink"), usize::MAX);
                proof {
                    if !nobody_alive_at(before_kill, shrink_location) {
                        let k = choose|k: int| is_first_alive_at(before_kill, shrink_location, k);
                        assert(same_roster(before_kill, self.players@));
                    }
                }

            },
            None => {},
        }
    }

    /// Puts a bomb of `player` on `position` with a full timer, unless a bomb lies there.
    pub fn add_bomb(&mut self, position: Coord, player: usize)
        ensures
            final(self).map_settings == old(self).map_settings,
            final(self).grid == old(self).grid,
            final(self).players == old(self).players,
            final(self).explosions == old(self).explosions,
            final(self).winner == old(self).winner,
            final(self).bombs@ == if has_bomb_at(old(self).bombs@, position) {
                old(self).bombs@
            } else {
                old(self).bombs@.push(Bomb { position, timer: old(self).map_settings.bomb_timer, player_id: player })
            },
    {
        let mut i: usize = 0;
        while i < self.bombs.len()
            invariant
                i <= self.bombs@.len(),
                forall|j: int| 0 <= j < i ==> self.bombs@[j].position != position,
            decreases self.bombs@.len() - i,
        {
            if self.bombs[i].position == position {
                return;
            }
            i = i + 1;
        }
        let timer = self.map_settings.bomb_timer;
        self.bombs.push(Bomb::new(position, timer, player));
    }

    /// Every bomb timer goes down by one, stopping at zero.
    pub fn bomb_timer_decrease(&mut self)
        ensures
            final(self).map_settings == old(self).map_settings,
            final(self).grid == old(self).grid,
            final(self).players == old(self).players,
            final(self).explosions == old(self).explosions,
            final(self).winner == old(self).winner,
            final(self).bombs@ == ticked(old(self).bombs@),
    {
        let n = self.bombs.len();
        for i in 0..n
            invariant
                n == old(self).bombs@.len(),
                self.map_settings == old(self).map_settings,
                self.grid == old(self).grid,
                self.players == old(self).players,
                self.explosions == old(self).explosions,
                self.winner == old(self).winner,
                self.bombs@.len() == old(self).bombs@.len(),
                forall|j: int| 0 <= j < i ==> self.bombs@[j] == ticked(old(self).bombs@)[j],
                forall|j: int| i <= j < self.bombs@.len() ==> self.bombs@[j] == old(self).bombs@[j],
        {
            let mut bomb = self.bombs[i];
            if bomb.timer > 0 {
                bomb.timer = bomb.timer - 1;
            }
            self.bombs.set(i, bomb);
        }
        proof {
            assert(self.bombs@ =~= ticked(old(self).bombs@));
        }
    }

    /// Removes every bomb lying on `location`.
    pub fn remove_bombs_at_location(&mut self, location: Coord)
        ensures
            final(self).map_settings == old(self).map_settings,
            final(self).grid == old(self).grid,
            final(self).players == old(self).players,
            final(self).explosions == old(self).explosions,
            final(self).winner == old(self).winner,
            final(self).bombs@ == old(self).bombs@.filter(|b: Bomb| b.position != location),
    {
        let mut kept: Vec<Bomb> = Vec::new();
        for i in 0..self.bombs.len()
            invariant
                kept@ == self.bombs@.take(i as int).filter(|b: Bomb| b.position != location),
        {
            proof {
                reveal(Seq::filter);
                assert(self.bombs@.take(i + 1).drop_last() =~= self.bombs@.take(i as int));
            }
            if self.bombs[i].position != location {
                kept.push(self.bombs[i]);
            }
        }
        proof {
            assert(self.bombs@.take(self.bombs@.len() as int) =~= self.bombs@);
        }
        self.bombs = kept;
    }

    /// Takes the bombs whose timer has run out off the board and returns them, in order.
    pub fn get_exploding_bombs(&mut self) -> (r: Vec<Bomb>)
        ensures
            final(self).map_settings == old(self).map_settings,
            final(self).grid == old(self).grid,
            final(self).players == old(self).players,
            final(self).explosions == old(self).explosions,
            final(self).winner == old(self).winner,
            r@ == old(self).bombs@.filter(|b: Bomb| b.timer == 0),
            final(self).bombs@ == old(self).bombs@.filter(|b: Bomb| b.timer != 0),
    {
        let mut out: Vec<Bomb> = Vec::new();
        let mut kept: Vec<Bomb> = Vec::new();
        for i in 0..self.bombs.len()
            invariant
                out@ == self.bombs@.take(i as int).filter(|b: Bomb| b.timer == 0),
                kept@ == self.bombs@.take(i as int).filter(|b: Bomb| b.timer != 0),
        {
            proof {
                reveal(Seq::filter);
                assert(self.bombs@.take(i + 1).drop_last() =~= self.bombs@.take(i as int));
            }
            if self.bombs[i].timer == 0 {
                out.push(self.bombs[i]);
            } else {
                kept.push(self.bombs[i]);
            }
        }
        proof {
            assert(self.bombs@.take(self.bombs@.len() as int) =~= self.bombs@);
        }
        self.bombs = kept;
        out
    }

    /// Takes the bombs lying on any of `explosion_locations` off the board and returns them.
    fn get_chained_bombs(&mut self, explosion_locations: &Vec<Coord>) -> (r: Vec<Bomb>)
        ensures
            final(self).map_settings == old(self).map_settings,
            final(self).grid == old(self).grid,
            final(self).players == old(self).players,
            final(self).explosions == old(self).explosions,
            final(self).winner == old(self).winner,
            r@ == old(self).bombs@.filter(|b: Bomb| explosion_locations@.contains(b.position)),
            final(self).bombs@ == old(self).bombs@.filter(|b: Bomb| !explosion_locations@.contains(b.position)),
    {
        let mut out: Vec<Bomb> = Vec::new();
        let mut kept: Vec<Bomb> = Vec::new();
        for i in 0..self.bombs.len()
            invariant
                out@ == self.bombs@.take(i as int).filter(|b: Bomb| explosion_locations@.contains(b.position)),
                kept@ == self.bombs@.take(i as int).filter(|b: Bomb| !explosion_locations@.contains(b.position)),
        {
            proof {
                reveal(Seq::filter);
                assert(self.bombs@.take(i + 1).drop_last() =~= self.bombs@.take(i as int));
            }
            let hit = contains_coord(explosion_locations, self.bombs[i].position);
            if hit {
                out.push(self.bombs[i]);
            } else {
                kept.push(self.bombs[i]);
            }
        }
        proof {
            assert(self.bombs@.take(self.bombs@.len() as int) =~= self.bombs@);
        }
        self.bombs = kept;
        out
    }

    /// Ticks every bomb, then explodes those whose timer ran out, together with every
    /// bomb their blasts reach (a bomb caught in a blast explodes in turn, so the whole
    /// blast of every bomb that goes off is recorded, and the bombs left are exactly
    /// those outside the explosions). Each time a blast reaches a tile it kills the
    /// first player still alive there, so exactly the blast victims of the recorded
    /// explosions die, each killed by the owner of a bomb whose fuse ran out this turn and
    /// whose chain reached the victim. Every recorded tile lies in the blast, on the board
    /// as it is left, of a bomb set off by such a chain: a bomb goes off only when its fuse
    /// runs out or a chain of blasts from such a bomb reaches it. Tiles outside the
    /// explosions keep their cell; inside them tiles only turn empty. Once somebody died,
    /// a sole survivor is the winner.
    #[verifier::rlimit(60)]
    pub fn process_bombs(&mut self)
        requires
            old(self).wf(),
        ensures
            final(self).wf(),
            final(self).map_settings == old(self).map_settings,
            only_emptied(old(self).grid, final(self).grid),
            players_only_die(old(self).players@, final(self).players@),
            bombs_from(ticked(old(self).bombs@).filter(|b: Bomb| b.timer != 0), final(self).bombs@),
            forall|i: int| 0 <= i < old(self).bombs@.len() && old(self).bombs@[i].timer <= 1
                ==> final(self).explosions@.contains(#[trigger] old(self).bombs@[i].position),
            no_bomb_in(final(self).bombs@, final(self).explosions@),
            no_block_in(final(self).grid, final(self).explosions@),
            bomb_kills(old(self).players@, final(self).players@, final(self).explosions@),
            final(self).bombs@ == ticked(old(self).bombs@).filter(|b: Bomb| b.timer != 0)
                .filter(|b: Bomb| !final(self).explosions@.contains(b.position)),
            forall|i: int| #![trigger old(self).bombs@[i]] 0 <= i < old(self).bombs@.len()
                && (old(self).bombs@[i].timer <= 1 || final(self).explosions@.contains(old(self).bombs@[i].position))
                ==> blast_recorded(old(self).grid, old(self).bombs@[i].position, old(self).map_settings.bomb_radius as nat,
                    final(self).explosions@),
            forall|i: int, j: int| #![trigger old(self).bombs@[i], old(self).bombs@[j]]
                0 <= i < old(self).bombs@.len() && 0 <= j < old(self).bombs@.len()
                && (old(self).bombs@[i].timer <= 1 || final(self).explosions@.contains(old(self).bombs@[i].position))
                && blast_area(old(self).grid, old(self).bombs@[i].position, old(self).map_settings.bomb_radius as nat)
                    .contains(old(self).bombs@[j].position)
                ==> final(self).explosions@.contains(old(self).bombs@[j].position),
            winner_follows(old(self).players@, old(self).winner, final(self).players@, final(self).winner),
            all_set_off(old(self).bombs@, final(self).grid, old(self).map_settings.bomb_radius as nat, final(self).explosions@),
            killed_by_chains(old(self).bombs@, final(self).grid, old(self).map_settings.bomb_radius as nat,
                old(self).players@, final(self).players@),
            changes_within(old(self).grid, final(self).grid, final(self).explosions@),
    {
        self.explosions = Vec::new();
        self.bomb_timer_decrease();
        let exploding_bombs: Vec<Bomb> = self.get_exploding_bombs();
        let ghost ticked_bombs = ticked(old(self).bombs@);
        let ghost survivors = ticked_bombs.filter(|b: Bomb| b.timer != 0);
        let ghost rad = old(self).map_settings.bomb_radius as nat;
        proof {
            reveal(Seq::filter);
            lemma_bomb_kills_none(old(self).players@);
            assert(self.explosions@ =~= Seq::<Coord>::empty());
            lemma_filter_all(survivors, |b: Bomb| !self.explosions@.contains(b.position));
        }
        for k in 0..exploding_bombs.len()
            invariant
                bomb_kills(old(self).players@, self.players@, self.explosions@),
                self.bombs@ == survivors.filter(|b: Bomb| !self.explosions@.contains(b.position)),
                self.wf(),
                self.map_settings == old(self).map_settings,
                only_emptied(old(self).grid, self.grid),
                players_only_die(old(self).players@, self.players@),
                bombs_from(survivors, self.bombs@),
                no_bomb_in(self.bombs@, self.explosions@),
                no_block_in(self.grid, self.explosions@),
                forall|j: int| 0 <= j < k ==> self.explosions@.contains(#[trigger] exploding_bombs@[j].position),
                rad == old(self).map_settings.bomb_radius as nat,
                forall|j: int| 0 <= j < k ==> blast_recorded(old(self).grid, #[trigger] exploding_bombs@[j].position, rad, self.explosions@),
                forall|i: int| 0 <= i < survivors.len() && self.explosions@.contains(#[trigger] survivors[i].position)
                    ==> blast_recorded(old(self).grid, survivors[i].position, rad, self.explosions@),
                winner_follows(old(self).players@, old(self).winner, self.players@, self.winner),
                exploding_bombs@ == ticked(old(self).bombs@).filter(|b: Bomb| b.timer == 0),
                survivors == ticked(old(self).bombs@).filter(|b: Bomb| b.timer != 0),
                all_set_off(old(self).bombs@, self.grid, rad, self.explosions@),
                killed_by_chains(old(self).bombs@, self.grid, rad, old(self).players@, self.players@),
                changes_within(old(self).grid, self.grid, self.explosions@),
        {
            let bomb = exploding_bombs[k];
            let player_id = bomb.player_id;
            let ghost before = *self;
            self.handle_exploding_bomb(bomb, player_id);
            proof {
                let m = before.explosions@.len() as int;
                let e = self.explosions@.len() as int;
                lemma_bomb_kills_trans(old(self).players@, before.players@, self.players@,
                    before.explosions@, self.explosions@.subrange(m, e));
                assert(before.explosions@ + self.explosions@.subrange(m, e) =~= self.explosions@);
                lemma_filter_outside(survivors, before.explosions@, self.explosions@.subrange(m, e));
                lemma_only_emptied_trans(old(self).grid, before.grid, self.grid);
                lemma_players_only_die_trans(old(self).players@, before.players@, self.players@);
                lemma_winner_follows_trans(old(self).players@, old(self).winner, before.players@, before.winner,
                    self.players@, self.winner);
                assert forall|q: int| 0 <= q < before.players@.len() && #[trigger] self.players@[q] != before.players@[q]
                    implies self.explosions@.subrange(m, e).contains(before.players@[q].position)
                        && self.players@[q].killed_by == exploding_bombs@[k as int].player_id by {
                    assert(before.players@[q].position == old(self).players@[q].position);
                }
                lemma_bomb_step(old(self).bombs@, exploding_bombs@, k as int, before.bombs@, old(self).grid, before.grid,
                    self.grid, before.explosions@, self.explosions@, old(self).players@, before.players@, self.players@, rad);
                assert forall|j: int| 0 <= j < k + 1 implies self.explosions@.contains(#[trigger] exploding_bombs@[j].position) by {
                    if j < k {
                        let e = exploding_bombs@[j].position;
                        let t = choose|t: int| 0 <= t < before.explosions@.len() && before.explosions@[t] == e;
                        assert(self.explosions@[t] == e);
                    }
                }
                assert forall|i: int| 0 <= i < self.bombs@.len() implies survivors.contains(#[trigger] self.bombs@[i]) by {
                    let b = self.bombs@[i];
                    assert(before.bombs@.contains(b));
                }
                lemma_extends_contains(before.explosions@, self.explosions@);
                lemma_recorded_mono(old(self).grid, before.grid, bomb.position, rad, self.explosions@, self.explosions@);
                assert forall|j: int| 0 <= j < k + 1 implies
                    blast_recorded(old(self).grid, #[trigger] exploding_bombs@[j].position, rad, self.explosions@) by {
                    if j < k {
                        lemma_recorded_mono(old(self).grid, old(self).grid, exploding_bombs@[j].position, rad,
                            before.explosions@, self.explosions@);
                    }
                }
                assert forall|i: int| 0 <= i < survivors.len() && self.explosions@.contains(#[trigger] survivors[i].position)
                    implies blast_recorded(old(self).grid, survivors[i].position, rad, self.explosions@) by {
                    let pos = survivors[i].position;
                    lemma_contains_concat(before.explosions@, self.explosions@.subrange(m, e), pos);
                    if before.explosions@.contains(pos) {
                        lemma_recorded_mono(old(self).grid, old(self).grid, pos, rad, before.explosions@, self.explosions@);
                    } else {
                        survivors.lemma_filter_contains(|b: Bomb| !before.explosions@.contains(b.position), i);
                        let i2 = choose|i2: int| 0 <= i2 < before.bombs@.len() && before.bombs@[i2] == survivors[i];
                        assert(self.explosions@.subrange(m, e).contains(before.bombs@[i2].position));
                        lemma_recorded_mono(old(self).grid, before.grid, pos, rad, self.explosions@, self.explosions@);
                    }
                }
            }
        }
        proof {
            assert forall|i: int| 0 <= i < old(self).bombs@.len() && old(self).bombs@[i].timer <= 1
                implies self.explosions@.contains(#[trigger] old(self).bombs@[i].position) by {
                let b = ticked_bombs[i];
                assert(b.timer == 0);
                assert(exploding_bombs@.contains(b));
                let j = choose|j: int| 0 <= j < exploding_bombs@.len() && exploding_bombs@[j] == b;
                assert(exploding_bombs@[j].position == old(self).bombs@[i].position);
            }
            assert forall|i: int| #![trigger old(self).bombs@[i]] 0 <= i < old(self).bombs@.len()
                && (old(self).bombs@[i].timer <= 1 || self.explosions@.contains(old(self).bombs@[i].position))
                implies blast_recorded(old(self).grid, old(self).bombs@[i].position, rad, self.explosions@) by {
                let b = ticked_bombs[i];
                assert(b.position == old(self).bombs@[i].position);
                if b.timer == 0 {
                    assert(exploding_bombs@.contains(b));
                    let j = choose|j: int| 0 <= j < exploding_bombs@.len() && exploding_bombs@[j] == b;
                    assert(blast_recorded(old(self).grid, exploding_bombs@[j].position, rad, self.explosions@));
                } else {
                    ticked_bombs.lemma_filter_contains(|b: Bomb| b.timer != 0, i);
                    let j = choose|j: int| 0 <= j < survivors.len() && survivors[j] == b;
                    assert(self.explosions@.contains(survivors[j].position));
                }
            }
        }
    }

    /// Explodes `bomb`: its tile is cleared unless it is a wall, every tile of the blast
    /// loses its block and its first living player, the bombs in the blast explode in
    /// turn, and the blast is recorded.
    #[verifier::rlimit(60)]
    fn handle_exploding_bomb(&mut self, bomb: Bomb, killed_by: usize)
        requires
            old(self).wf(),
            no_bomb_in(old(self).bombs@, old(self).explosions@),
            no_block_in(old(self).grid, old(self).explosions@),
        ensures
            final(self).wf(),
            final(self).map_settings == old(self).map_settings,
            only_emptied(old(self).grid, final(self).grid),
            players_only_die(old(self).players@, final(self).players@),
            bombs_from(old(self).bombs@, final(self).bombs@),
            extends(old(self).explosions@, final(self).explosions@),
            final(self).explosions@.contains(bomb.position),
            no_bomb_in(final(self).bombs@, final(self).explosions@),
            no_block_in(final(self).grid, final(self).explosions@),
            bomb_kills(old(self).players@, final(self).players@,
                final(self).explosions@.subrange(old(self).explosions@.len() as int, final(self).explosions@.len() as int)),
            final(self).bombs@ == old(self).bombs@.filter(|b: Bomb| !final(self).explosions@.subrange(
                old(self).explosions@.len() as int, final(self).explosions@.len() as int).contains(b.position)),
            blast_recorded(old(self).grid, bomb.position, old(self).map_settings.bomb_radius as nat, final(self).explosions@),
            forall|i: int| #![trigger old(self).bombs@[i]] 0 <= i < old(self).bombs@.len()
                && final(self).explosions@.subrange(old(self).explosions@.len() as int, final(self).explosions@.len() as int)
                    .contains(old(self).bombs@[i].position)
                ==> blast_recorded(old(self).grid, old(self).bombs@[i].position, old(self).map_settings.bomb_radius as nat,
                    final(self).explosions@),
            winner_follows(old(self).players@, old(self).winner, final(self).players@, final(self).winner),
            forall|k: int| 0 <= k < old(self).players@.len() && #[trigger] final(self).players@[k] != old(self).players@[k]
                ==> final(self).players@[k].killed_by == killed_by,
            forall|t: int| old(self).explosions@.len() <= t < final(self).explosions@.len() ==> blasted_by(final(self).grid,
                old(self).map_settings.bomb_radius as nat, |p: Coord| chained(old(self).bombs@, final(self).grid,
                    old(self).map_settings.bomb_radius as nat, bomb.position, p), #[trigger] final(self).explosions@[t]),
            changes_within(old(self).grid, final(self).grid,
                final(self).explosions@.subrange(old(self).explosions@.len() as int, final(self).explosions@.len() as int)),
            forall|k: int| 0 <= k < old(self).players@.len() && #[trigger] final(self).players@[k] != old(self).players@[k]
                ==> final(self).explosions@.subrange(old(self).explosions@.len() as int, final(self).explosions@.len() as int)
                    .contains(old(self).players@[k].position),
        decreases old(self).bombs@.len(),
    {
        let ghost start = *self;
        if self.grid.cell_type(bomb.position) != CellType::Wall {
            let ghost g0 = self.grid;
            self.grid.set_cell(bomb.position, CellType::Empty);
            proof {
                if in_bounds(bomb.position, g0.size as int, g0.size as int) {
                    lemma_write_empty(g0, self.grid, bomb.position);
                } else {
                    assert(self.grid.tiles@ == g0.tiles@);
                }
            }
        }
        let mut explosion_locations: Vec<Coord> = bomb.explosion_locations(self);
        proof {
            assert(explosion_locations@[0] == bomb.position);
            assert forall|c: Coord| #[trigger] self.grid.cell_at(c) != start.grid.cell_at(c)
                implies explosion_locations@.contains(c) by {
                if c != bomb.position && self.grid.tiles@ != start.grid.tiles@ {
                    lemma_write_empty(start.grid, self.grid, bomb.position);
                }
            }
            assert forall|x: Coord| #[trigger] self.grid.cell_at(x) == start.grid.cell_at(x)
                || self.grid.cell_at(x) == CellType::Empty by {
            }
        }
        let ghost locs = explosion_locations@;
        let ghost fired = self.grid;
        let ghost rad = old(self).map_settings.bomb_radius as nat;
        proof {
            assert forall|c: Coord| #[trigger] fired.cell_at(c) == fired.cell_at(c) || fired.cell_at(c) == CellType::Empty by {}
            lemma_bomb_kills_none(start.players@);
            assert(locs.take(0) =~= Seq::<Coord>::empty());
        }
        for t in 0..explosion_locations.len()
            invariant
                locs == explosion_locations@,
                start == *old(self),
                bomb_kills(start.players@, self.players@, locs.take(t as int)),
                self.wf(),
                self.map_settings == old(self).map_settings,
                only_emptied(old(self).grid, self.grid),
                players_only_die(old(self).players@, self.players@),
                self.bombs == old(self).bombs,
                self.explosions == old(self).explosions,
                no_block_in(self.grid, self.explosions@),
                forall|j: int| 0 <= j < t ==> self.grid.cell_at(#[trigger] locs[j]) != CellType::Destroyable,
                winner_follows(start.players@, start.winner, self.players@, self.winner),
                forall|k: int| 0 <= k < start.players@.len() && #[trigger] self.players@[k] != start.players@[k]
                    ==> self.players@[k].killed_by == killed_by,
                only_emptied(fired, self.grid),
                changes_within(start.grid, self.grid, locs),
        {
            let tile = explosion_locations[t];
            let ghost g1 = self.grid;
            self.grid.clear_destructable(tile);
            proof {
                if g1.cell_at(tile) == CellType::Destroyable {
                    lemma_write_empty(g1, self.grid, tile);
                } else {
                    assert(self.grid.tiles@ == g1.tiles@);
                    assert forall|x: Coord| #[trigger] self.grid.cell_at(x) == g1.cell_at(x) by {}
                }
                lemma_only_emptied_trans(old(self).grid, g1, self.grid);
                lemma_only_emptied_trans(fired, g1, self.grid);
                assert(locs[t as int] == tile);
                assert forall|c: Coord| #[trigger] self.grid.cell_at(c) != start.grid.cell_at(c) implies locs.contains(c) by {
                    if c != tile {
                        assert(g1.cell_at(c) != start.grid.cell_at(c));
                    }
                }
            }
            let ghost before_kill = *self;
            self.kill_at_location(tile, String::from_str("bomb"), killed_by);
            proof {
                reveal_strlit("bomb");
                if nobody_alive_at(before_kill.players@, tile) {
                    assert(self.grid == before_kill.grid);
                } else {
                    let k = choose|k: int| is_first_alive_at(before_kill.players@, tile, k);
                    let p = before_kill.players@[k].position;
                    assert(p == tile);
                    if in_bounds(tile, self.grid.size as int, self.grid.size as int) {
                        lemma_write_empty(before_kill.grid, self.grid, tile);
                    } else {
                        assert(self.grid.tiles@ == before_kill.grid.tiles@);
                        assert forall|x: Coord| #[trigger] self.grid.cell_at(x) == before_kill.grid.cell_at(x) by {}
                    }
                    assert(players_only_die(before_kill.players@, self.players@));
                }
                lemma_only_emptied_trans(old(self).grid, before_kill.grid, self.grid);
                lemma_only_emptied_trans(fired, before_kill.grid, self.grid);
                assert forall|c: Coord| #[trigger] self.grid.cell_at(c) != start.grid.cell_at(c) implies locs.contains(c) by {
                    if c != tile {
                        assert(before_kill.grid.cell_at(c) != start.grid.cell_at(c));
                    }
                }
                lemma_players_only_die_trans(old(self).players@, before_kill.players@, self.players@);
                lemma_kill_step(before_kill.players@, self.players@, tile, killed_by);
                lemma_kill_follows(before_kill.players@, before_kill.winner, self.players@, self.winner, tile,
                    "bomb"@, killed_by);
                assert(players_only_die(before_kill.players@, self.players@));
                lemma_winner_follows_trans(start.players@, start.winner, before_kill.players@, before_kill.winner,
                    self.players@, self.winner);
                assert forall|k: int| 0 <= k < start.players@.len() && #[trigger] self.players@[k] != start.players@[k]
                    implies self.players@[k].killed_by == killed_by by {
                    if self.players@[k] == before_kill.players@[k] {
                        assert(before_kill.players@[k] != start.players@[k]);
                    }
                }
                lemma_bomb_kills_trans(start.players@, before_kill.players@, self.players@, locs.take(t as int), seq![tile]);
                assert(locs.take(t as int) + seq![tile] =~= locs.take(t + 1));
            }
        }
        proof {
            assert(locs.take(locs.len() as int) =~= locs);
        }
        let ghost blasted = self.players@;
        let chain = self.get_chained_bombs(&explosion_locations);
        proof {
            assert((|b: Bomb| explosion_locations@.contains(b.position)) =~= (|b: Bomb| locs.contains(b.position)));
            lemma_filter_split(old(self).bombs@, |b: Bomb| explosion_locations@.contains(b.position));
            assert((|b: Bomb| !explosion_locations@.contains(b.position)) =~= (|b: Bomb| !(|b: Bomb| explosion_locations@.contains(b.position))(b)));
        }
        let ghost after_chain = self.bombs@;
        proof {
            lemma_filter_subset(old(self).bombs@, |b: Bomb| !explosion_locations@.contains(b.position));
            assert forall|i: int| 0 <= i < self.bombs@.len() implies !self.explosions@.contains(#[trigger] self.bombs@[i].position) by {
                let b = self.bombs@[i];
                assert(old(self).bombs@.contains(b));
                let j = choose|j: int| 0 <= j < old(self).bombs@.len() && old(self).bombs@[j] == b;
            }
        }
        proof {
            let none = self.explosions@.subrange(self.explosions@.len() as int, self.explosions@.len() as int);
            lemma_filter_all(after_chain, |b: Bomb| !none.contains(b.position));
            lemma_bomb_kills_none(blasted);
            assert(self.explosions@.subrange(self.explosions@.len() as int, self.explosions@.len() as int)
                =~= Seq::<Coord>::empty());
        }
        for c in 0..chain.len()
            invariant
                locs == explosion_locations@,
                start == *old(self),
                bomb_kills(start.players@, blasted, locs),
                bomb_kills(blasted, self.players@,
                    self.explosions@.subrange(old(self).explosions@.len() as int, self.explosions@.len() as int)),
                self.bombs@ == after_chain.filter(|b: Bomb| !self.explosions@.subrange(
                    old(self).explosions@.len() as int, self.explosions@.len() as int).contains(b.position)),
                after_chain == old(self).bombs@.filter(|b: Bomb| !locs.contains(b.position)),
                chain@ == old(self).bombs@.filter(|b: Bomb| locs.contains(b.position)),
                rad == old(self).map_settings.bomb_radius as nat,
                forall|j: int| 0 <= j < c ==> blast_recorded(old(self).grid, #[trigger] chain@[j].position, rad, self.explosions@),
                forall|j: int| 0 <= j < after_chain.len() && self.explosions@.subrange(old(self).explosions@.len() as int,
                    self.explosions@.len() as int).contains(#[trigger] after_chain[j].position)
                    ==> blast_recorded(old(self).grid, after_chain[j].position, rad, self.explosions@),
                self.wf(),
                self.map_settings == old(self).map_settings,
                only_emptied(old(self).grid, self.grid),
                players_only_die(old(self).players@, self.players@),
                self.bombs@.len() + chain@.len() <= old(self).bombs@.len(),
                bombs_from(after_chain, self.bombs@),
                forall|i: int| 0 <= i < after_chain.len() ==> !locs.contains(#[trigger] after_chain[i].position),
                forall|i: int| 0 <= i < after_chain.len() ==> old(self).bombs@.contains(#[trigger] after_chain[i]),
                extends(old(self).explosions@, self.explosions@),
                no_bomb_in(self.bombs@, self.explosions@),
                no_block_in(self.grid, self.explosions@),
                forall|j: int| 0 <= j < locs.len() ==> self.grid.cell_at(#[trigger] locs[j]) != CellType::Destroyable,
                winner_follows(start.players@, start.winner, self.players@, self.winner),
                forall|k: int| 0 <= k < start.players@.len() && #[trigger] self.players@[k] != start.players@[k]
                    ==> self.players@[k].killed_by == killed_by,
                only_emptied(fired, self.grid),
                locs == blast_area(fired, bomb.position, rad),
                forall|t: int| old(self).explosions@.len() <= t < self.explosions@.len() ==> blasted_by(self.grid, rad,
                    |p: Coord| chained(old(self).bombs@, self.grid, rad, bomb.position, p), #[trigger] self.explosions@[t]),
                forall|c: Coord| #[trigger] self.grid.cell_at(c) != start.grid.cell_at(c) ==> locs.contains(c)
                    || self.explosions@.subrange(old(self).explosions@.len() as int, self.explosions@.len() as int).contains(c),
        {
            let next = chain[c];
            let ghost before = *self;
            self.handle_exploding_bomb(next, killed_by);
            proof {
                let o = old(self).explosions@.len() as int;
                let m = before.explosions@.len() as int;
                let e = self.explosions@.len() as int;
                lemma_bomb_kills_trans(blasted, before.players@, self.players@,
                    before.explosions@.subrange(o, m), self.explosions@.subrange(m, e));
                assert(before.explosions@.subrange(o, m) + self.explosions@.subrange(m, e) =~= self.explosions@.subrange(o, e));
                lemma_filter_outside(after_chain, before.explosions@.subrange(o, m), self.explosions@.subrange(m, e));
                lemma_only_emptied_trans(old(self).grid, before.grid, self.grid);
                lemma_players_only_die_trans(old(self).players@, before.players@, self.players@);
                lemma_winner_follows_trans(start.players@, start.winner, before.players@, before.winner,
                    self.players@, self.winner);
                assert forall|k: int| 0 <= k < start.players@.len() && #[trigger] self.players@[k] != start.players@[k]
                    implies self.players@[k].killed_by == killed_by by {
                    if self.players@[k] == before.players@[k] {
                        assert(before.players@[k] != start.players@[k]);
                    }
                }
                lemma_only_emptied_trans(fired, before.grid, self.grid);
                let seg = self.explosions@.subrange(o, e);
                let s_new = |p: Coord| chained(old(self).bombs@, self.grid, rad, bomb.position, p);
                assert forall|x: Coord| #[trigger] before.explosions@.subrange(o, m).contains(x) implies seg.contains(x) by {
                    let i = choose|i: int| 0 <= i < m - o && before.explosions@.subrange(o, m)[i] == x;
                    assert(seg[i] == x);
                }
                assert forall|x: Coord| #[trigger] self.explosions@.subrange(m, e).contains(x) implies seg.contains(x) by {
                    let i = choose|i: int| 0 <= i < e - m && self.explosions@.subrange(m, e)[i] == x;
                    assert(seg[i + (m - o)] == x);
                }
                assert(old(self).bombs@.contains(next)) by {
                    assert(chain@.contains(next));
                    old(self).bombs@.lemma_filter_contains_rev(|b: Bomb| locs.contains(b.position), next);
                }
                assert(locs.contains(next.position)) by {
                    broadcast use vstd::seq_lib::group_filter_ensures;
                    assert(chain@[c as int] == next);
                }
                assert(has_bomb_at(old(self).bombs@, next.position)) by {
                    let j = choose|j: int| 0 <= j < old(self).bombs@.len() && old(self).bombs@[j] == next;
                    assert(old(self).bombs@[j].position == next.position);
                }
                assert forall|x: Coord| #[trigger] has_bomb_at(before.bombs@, x) implies has_bomb_at(old(self).bombs@, x) by {
                    let j = choose|j: int| 0 <= j < before.bombs@.len() && before.bombs@[j].position == x;
                    assert(after_chain.contains(before.bombs@[j]));
                    assert(old(self).bombs@.contains(before.bombs@[j]));
                    let q = choose|q: int| 0 <= q < old(self).bombs@.len() && old(self).bombs@[q] == before.bombs@[j];
                    assert(old(self).bombs@[q].position == x);
                }
                assert forall|x: Coord| #[trigger] has_bomb_at(old(self).bombs@, x) implies has_bomb_at(old(self).bombs@, x) by {}
                assert forall|x: Coord| #[trigger] self.grid.cell_at(x) == self.grid.cell_at(x)
                    || self.grid.cell_at(x) == CellType::Empty by {}
                lemma_area_grows(fired, self.grid, bomb.position, rad, next.position);
                lemma_chain_link(old(self).bombs@, self.grid, rad, bomb.position, next.position);
                assert forall|t: int| o <= t < e implies blasted_by(self.grid, rad, s_new, #[trigger] self.explosions@[t]) by {
                    if t < m {
                        assert(blasted_by(before.grid, rad, |p: Coord| chained(old(self).bombs@, before.grid, rad,
                            bomb.position, p), before.explosions@[t]));
                        lemma_chained_blast_mono(old(self).bombs@, before.grid, old(self).bombs@, self.grid, rad,
                            bomb.position, self.explosions@[t]);
                    } else {
                        assert(blasted_by(self.grid, rad, |p: Coord| chained(before.bombs@, self.grid, rad,
                            next.position, p), self.explosions@[t]));
                        lemma_chained_blast_mono(before.bombs@, self.grid, old(self).bombs@, self.grid, rad,
                            next.position, self.explosions@[t]);
                        lemma_chained_blast_reroot(old(self).bombs@, self.grid, rad, bomb.position, next.position,
                            self.explosions@[t]);
                    }
                }
                assert forall|x: Coord| #[trigger] self.grid.cell_at(x) != start.grid.cell_at(x) implies locs.contains(x)
                    || seg.contains(x) by {
                    if self.grid.cell_at(x) == before.grid.cell_at(x) {
                        if !locs.contains(x) {
                            assert(before.explosions@.subrange(o, m).contains(x));
                        }
                    } else {
                        assert(self.explosions@.subrange(m, e).contains(x));
                    }
                }
                assert forall|i: int| 0 <= i < self.bombs@.len() implies after_chain.contains(#[trigger] self.bombs@[i]) by {
                    assert(before.bombs@.contains(self.bombs@[i]));
                }
                assert forall|j: int| 0 <= j < locs.len() implies self.grid.cell_at(#[trigger] locs[j]) != CellType::Destroyable by {
                    assert(before.grid.cell_at(locs[j]) != CellType::Destroyable);
                }
                lemma_extends_contains(before.explosions@, self.explosions@);
                lemma_recorded_mono(old(self).grid, before.grid, next.position, rad, self.explosions@, self.explosions@);
                assert forall|j: int| 0 <= j < c + 1 implies
                    blast_recorded(old(self).grid, #[trigger] chain@[j].position, rad, self.explosions@) by {
                    if j < c {
                        lemma_recorded_mono(old(self).grid, old(self).grid, chain@[j].position, rad, before.explosions@, self.explosions@);
                    }
                }
                assert forall|j: int| 0 <= j < after_chain.len() && self.explosions@.subrange(o, e).contains(#[trigger] after_chain[j].position)
                    implies blast_recorded(old(self).grid, after_chain[j].position, rad, self.explosions@) by {
                    let pos = after_chain[j].position;
                    lemma_contains_concat(before.explosions@.subrange(o, m), self.explosions@.subrange(m, e), pos);
                    if before.explosions@.subrange(o, m).contains(pos) {
                        lemma_recorded_mono(old(self).grid, old(self).grid, pos, rad, before.explosions@, self.explosions@);
                    } else {
                        after_chain.lemma_filter_contains(|b: Bomb| !before.explosions@.subrange(
                            old(self).explosions@.len() as int, before.explosions@.len() as int).contains(b.position), j);
                        let i = choose|i: int| 0 <= i < before.bombs@.len() && before.bombs@[i] == after_chain[j];
                        assert(self.explosions@.subrange(m, e).contains(before.bombs@[i].position));
                        lemma_recorded_mono(old(self).grid, before.grid, pos, rad, self.explosions@, self.explosions@);
                    }
                }
            }
        }
        let ghost before_append = self.explosions@;
        self.explosions.append(&mut explosion_locations);
        proof {
            let o = old(self).explosions@.len() as int;
            let added = before_append.subrange(o, before_append.len() as int);
            lemma_bomb_kills_trans(start.players@, blasted, self.players@, locs, added);
            lemma_bomb_kills_swap(start.players@, self.players@, locs, added);
            assert(self.explosions@.subrange(o, self.explosions@.len() as int) =~= added + locs);
            lemma_filter_outside(old(self).bombs@, locs, added);
            assert(extends(before_append, self.explosions@));
            lemma_extends_contains(before_append, self.explosions@);
            assert forall|t: Coord| #[trigger] locs.contains(t) implies self.explosions@.contains(t) by {
                lemma_contains_concat(before_append, locs, t);
            }
            assert forall|t: Coord| #[trigger] blast_area(fired, bomb.position, rad).contains(t) implies locs.contains(t) by {}
            lemma_recorded_mono(old(self).grid, fired, bomb.position, rad, locs, self.explosions@);
            assert forall|i: int| #![trigger old(self).bombs@[i]] 0 <= i < old(self).bombs@.len()
                && (added + locs).contains(old(self).bombs@[i].position)
                implies blast_recorded(old(self).grid, old(self).bombs@[i].position, rad, self.explosions@) by {
                let b = old(self).bombs@[i];
                lemma_contains_concat(added, locs, b.position);
                if locs.contains(b.position) {
                    old(self).bombs@.lemma_filter_contains(|b: Bomb| locs.contains(b.position), i);
                    let j = choose|j: int| 0 <= j < chain@.len() && chain@[j] == b;
                    lemma_recorded_mono(old(self).grid, old(self).grid, b.position, rad, before_append, self.explosions@);
                } else {
                    old(self).bombs@.lemma_filter_contains(|b: Bomb| !locs.contains(b.position), i);
                    let j = choose|j: int| 0 <= j < after_chain.len() && after_chain[j] == b;
                    lemma_recorded_mono(old(self).grid, old(self).grid, b.position, rad, before_append, self.explosions@);
                }
            }
            assert(self.explosions@ == before_append + locs);
            assert(self.explosions@[before_append.len() as int] == bomb.position);
            let fin = self.explosions@.subrange(o, self.explosions@.len() as int);
            let s_fin = |p: Coord| chained(old(self).bombs@, self.grid, rad, bomb.position, p);
            lemma_chain_start(old(self).bombs@, self.grid, rad, bomb.position);
            assert forall|t: int| o <= t < self.explosions@.len() implies
                blasted_by(self.grid, rad, s_fin, #[trigger] self.explosions@[t]) by {
                if t < before_append.len() {
                    assert(self.explosions@[t] == before_append[t]);
                } else {
                    let x = self.explosions@[t];
                    assert(x == locs[t - before_append.len()]);
                    assert(blast_area(fired, bomb.position, rad).contains(x));
                    lemma_area_grows(fired, self.grid, bomb.position, rad, x);
                    assert(s_fin(bomb.position));
                }
            }
            assert forall|x: Coord| #[trigger] self.grid.cell_at(x) != old(self).grid.cell_at(x) implies fin.contains(x) by {
                lemma_contains_concat(added, locs, x);
            }
            assert forall|k: int| 0 <= k < old(self).players@.len() && #[trigger] self.players@[k] != old(self).players@[k]
                implies fin.contains(old(self).players@[k].position) by {
                assert(blast_victim(old(self).players@, fin, k));
                lemma_occurrences_contains(fin, old(self).players@[k].position);
            }
            assert forall|i: int| 0 <= i < self.bombs@.len() implies !self.explosions@.contains(#[trigger] self.bombs@[i].position) by {
                let b = self.bombs@[i];
                assert(after_chain.contains(b));
                let j = choose|j: int| 0 <= j < after_chain.len() && after_chain[j] == b;
                if self.explosions@.contains(b.position) {
                    let t = choose|t: int| 0 <= t < self.explosions@.len() && self.explosions@[t] == b.position;
                    if t < before_append.len() {
                        assert(before_append.contains(b.position));
                    } else {
                        assert(locs[t - before_append.len()] == b.position);
                        assert(locs.contains(b.position));
                    }
                }
            }
            assert forall|i: int| 0 <= i < self.explosions@.len() implies self.grid.cell_at(#[trigger] self.explosions@[i]) != CellType::Destroyable by {
                if i >= before_append.len() {
                    assert(self.explosions@[i] == locs[i - before_append.len()]);
                }
            }
            assert forall|i: int| 0 <= i < self.bombs@.len() implies old(self).bombs@.contains(#[trigger] self.bombs@[i]) by {
                let b = self.bombs@[i];
                assert(after_chain.contains(b));
                let j = choose|j: int| 0 <= j < after_chain.len() && after_chain[j] == b;
            }
        }
    }
}

/// Whether `locations` holds `c`.
pub fn contains_coord(locations: &Vec<Coord>, c: Coord) -> (b: bool)
    ensures
        b == locations@.contains(c),
{
    for i in 0..locations.len()
        invariant
            forall|j: int| 0 <= j < i ==> locations@[j] != c,
    {
        if locations[i] == c {
            proof {
                assert(locations@[i as int] == c);
            }
            return true;
        }
    }
    false
}

proof fn cell_char_roundtrip_wall()
    ensures
        cell_of('W') == CellType::Wall,
{
}

} // verus!
