use vstd::prelude::*;
use rand::prelude::IndexedRandom;
use crate::bomb::Bomb;
use crate::bot::Bot;
use crate::bots::fuzzy::neighbours_of;
use crate::bots::gz::{
    Tile, TileMap, gz_cell_type, lemma_placed, gz_in_range, get_cell_type, get_neighbour_coords, is_tile_in_bomb_range,
    tile_at, tiles_placed, safe_from_all, safe_walk, walk_step_ok, floor_distance, floor_walk,
    floor_step, floor_ends_at, lemma_floor_distance_unique, walk_ends_at,
};
use crate::bots::fuzzy::{lemma_move_towards_neighbour, move_towards};
use crate::bots::gz::get_command_to_move_to_coord;
use crate::coord::step_command;
use crate::cell::CellType;
use crate::command::Command;
use crate::coord::{Col, Coord, Row};
use crate::map::GameMap;
use crate::map_config::MapConfig;
use crate::text::{decimal, decimal_string, label, labelled};

verus! {

/// A bot that walks to the reachable tile it scores best, bombs when it stands there,
/// and runs to the nearest safe tile when a bomb threatens it.
pub struct GzBot {
    pub name: String,
    pub id: usize,
    pub debug_info: String,
    pub current_target: Option<Coord>,
    pub fleeing: bool,
    pub map_settings: MapConfig,
}

/// No bomb of `bombs` reaches `c`.
pub open spec fn tile_safe(bombs: Seq<Bomb>, c: Coord, radius: usize) -> bool {
    forall|j: int| 0 <= j < bombs.len() ==> !gz_in_range(c, (#[trigger] bombs[j]).position, radius)
}

/// The place of the `i`-th character of a board `size` tiles wide.
pub open spec fn index_coord(i: int, size: usize) -> Coord {
    Coord { col: Col((i % (size as int)) as usize), row: Row((i / (size as int)) as usize) }
}

/// The tile the gz bot makes of the `i`-th character of the board: the player's own
/// place counts as floor.
pub open spec fn gz_tile(map: GameMap, player: Coord, size: usize, radius: usize, i: int) -> Tile {
    let c = index_coord(i, size);
    Tile {
        coord: c,
        cell_type: if c == player { CellType::Empty } else { gz_cell_type(map.grid.tiles@[i]) },
        visited: false,
        safe: tile_safe(map.bombs@, c, radius),
    }
}

/// What a neighbouring tile adds to a score: 2 for a destroyable block, 10 for a player.
pub open spec fn neighbour_bonus(tm: TileMap, c: Coord) -> int {
    match tile_at(tm, c) {
        Some(t) => match t.cell_type {
            CellType::Destroyable => 2,
            CellType::Player => 10,
            _ => 0,
        },
        None => 0,
    }
}

/// The bonuses of the places in `cs`, added up.
pub open spec fn bonus_sum(tm: TileMap, cs: Seq<Coord>) -> int
    decreases cs.len(),
{
    if cs.len() == 0 { 0 } else { bonus_sum(tm, cs.drop_last()) + neighbour_bonus(tm, cs.last()) }
}

/// The score of `tile` at `distance` steps: a point off per ten steps, 10 if it is safe,
/// and the bonuses of its neighbours.
pub open spec fn gz_score(tm: TileMap, tile: Tile, distance: usize) -> int {
    -((distance / 10) as int) + (if tile.safe { 10int } else { 0int }) + bonus_sum(tm, neighbours_of(tile.coord))
}

proof fn lemma_bonus_sum_bounds(tm: TileMap, cs: Seq<Coord>)
    ensures
        0 <= bonus_sum(tm, cs) <= 10 * cs.len(),
    decreases cs.len(),
{
    if cs.len() > 0 {
        lemma_bonus_sum_bounds(tm, cs.drop_last());
    }
}

/// Two tile maps of one shape whose tiles differ at most in being visited.
pub open spec fn same_but_visits(a: TileMap, b: TileMap) -> bool {
    &&& a.map@.len() == b.map@.len()
    &&& forall|r: int| 0 <= r < a.map@.len() ==> (#[trigger] a.map@[r])@.len() == b.map@[r]@.len()
    &&& forall|r: int, c: int| 0 <= r < a.map@.len() && 0 <= c < a.map@[r]@.len()
        ==> #[trigger] b.map@[r]@[c] == (Tile { visited: b.map@[r]@[c].visited, ..a.map@[r]@[c] })
}

proof fn lemma_bonus_same(a: TileMap, b: TileMap, cs: Seq<Coord>)
    requires
        same_but_visits(a, b),
    ensures
        bonus_sum(a, cs) == bonus_sum(b, cs),
    decreases cs.len(),
{
    if cs.len() > 0 {
        lemma_bonus_same(a, b, cs.drop_last());
        let c = cs.last();
        if tile_at(a, c) is Some {
            assert(b.map@[c.row.0 as int]@[c.col.0 as int].cell_type == a.map@[c.row.0 as int]@[c.col.0 as int].cell_type);
        }
    }
}

/// The highest score in `scores`, which must not be empty.
pub open spec fn top_score(scores: Seq<(Coord, i32)>) -> int
    decreases scores.len(),
{
    if scores.len() <= 1 {
        scores[0].1 as int
    } else {
        let rest = top_score(scores.drop_last());
        if scores.last().1 > rest { scores.last().1 as int } else { rest }
    }
}

proof fn lemma_top_score(scores: Seq<(Coord, i32)>)
    requires
        scores.len() > 0,
    ensures
        forall|k: int| 0 <= k < scores.len() ==> (#[trigger] scores[k]).1 <= top_score(scores),
        exists|k: int| 0 <= k < scores.len() && (#[trigger] scores[k]).1 == top_score(scores),
    decreases scores.len(),
{
    if scores.len() > 1 {
        lemma_top_score(scores.drop_last());
        let k0 = choose|k: int| 0 <= k < scores.drop_last().len() && (#[trigger] scores.drop_last()[k]).1 == top_score(scores.drop_last());
        assert(scores[k0] == scores.drop_last()[k0]);
        assert forall|k: int| 0 <= k < scores.len() implies (#[trigger] scores[k]).1 <= top_score(scores) by {
            if k < scores.len() - 1 {
                assert(scores[k] == scores.drop_last()[k]);
            }
        }
    } else {
        assert(scores[0].1 == top_score(scores));
    }
}

proof fn lemma_sbv_trans(a: TileMap, b: TileMap, c: TileMap)
    requires
        same_but_visits(a, b),
        same_but_visits(b, c),
    ensures
        same_but_visits(a, c),
{
    assert forall|r: int, q: int| 0 <= r < a.map@.len() && 0 <= q < a.map@[r]@.len()
        implies #[trigger] c.map@[r]@[q] == (Tile { visited: c.map@[r]@[q].visited, ..a.map@[r]@[q] }) by {
        assert(b.map@[r]@[q] == (Tile { visited: b.map@[r]@[q].visited, ..a.map@[r]@[q] }));
    }
}

proof fn lemma_sbv_tile(a: TileMap, b: TileMap, c: Coord)
    requires
        same_but_visits(a, b),
    ensures
        (tile_at(b, c) is Some) == (tile_at(a, c) is Some),
        tile_at(a, c) is Some ==> tile_at(b, c).unwrap() == (Tile { visited: tile_at(b, c).unwrap().visited, ..tile_at(a, c).unwrap() }),
{
    if c.row.0 < a.map@.len() {
        assert(b.map@[c.row.0 as int]@.len() == a.map@[c.row.0 as int]@.len());
    }
}

/// An entry of the reachable scores: a place on the map, the start or empty floor, with
/// the score of its tile at its floor distance from the start.
pub open spec fn scored_entry(tm: TileMap, start: Coord, e: (Coord, i32)) -> bool {
    &&& tile_at(tm, e.0) is Some
    &&& e.0 == start || tile_at(tm, e.0).unwrap().cell_type == CellType::Empty
    &&& exists|d: int| 0 <= d < i32::MAX - 1 && #[trigger] floor_distance(tm, start, e.0, d)
        && gz_score(tm, tile_at(tm, e.0).unwrap(), d as usize) == e.1
}

/// Floor walks do not see whether tiles were visited.
proof fn lemma_floor_sbv(a: TileMap, b: TileMap, s: Coord)
    requires
        same_but_visits(a, b),
    ensures
        forall|cs: Seq<Coord>| #![trigger floor_walk(a, s, cs)] #![trigger floor_walk(b, s, cs)]
            floor_walk(a, s, cs) == floor_walk(b, s, cs),
        forall|c: Coord, d: int| #![trigger floor_distance(a, s, c, d)] #![trigger floor_distance(b, s, c, d)]
            floor_distance(a, s, c, d) == floor_distance(b, s, c, d),
{
    assert forall|cs: Seq<Coord>| #![trigger floor_walk(a, s, cs)] #![trigger floor_walk(b, s, cs)]
        floor_walk(a, s, cs) == floor_walk(b, s, cs) by {
        assert forall|i: int| 0 <= i < cs.len() implies #[trigger] floor_step(a, s, cs, i) == floor_step(b, s, cs, i) by {
            lemma_sbv_tile(a, b, cs[i]);
        }
        if floor_walk(a, s, cs) {
            assert forall|i: int| 0 <= i < cs.len() implies #[trigger] floor_step(b, s, cs, i) by {
                assert(floor_step(a, s, cs, i));
                lemma_sbv_tile(a, b, cs[i]);
            }
        }
        if floor_walk(b, s, cs) {
            assert forall|i: int| 0 <= i < cs.len() implies #[trigger] floor_step(a, s, cs, i) by {
                assert(floor_step(b, s, cs, i));
                lemma_sbv_tile(a, b, cs[i]);
            }
        }
    }
    assert forall|c: Coord, d: int| #![trigger floor_distance(a, s, c, d)] #![trigger floor_distance(b, s, c, d)]
        floor_distance(a, s, c, d) == floor_distance(b, s, c, d) by {
        if floor_distance(a, s, c, d) {
            let cs = choose|cs: Seq<Coord>| #[trigger] floor_walk(a, s, cs) && cs.len() == d && floor_ends_at(s, cs, c);
            assert(floor_walk(b, s, cs));
        }
        if floor_distance(b, s, c, d) {
            let cs = choose|cs: Seq<Coord>| #[trigger] floor_walk(b, s, cs) && cs.len() == d && floor_ends_at(s, cs, c);
            assert(floor_walk(a, s, cs));
        }
    }
}

/// Marks the tile at `c` as visited.
fn mark_visited(tm: &mut TileMap, c: Coord)
    requires
        tile_at(*old(tm), c) is Some,
    ensures
        same_but_visits(*old(tm), *final(tm)),
        forall|d: Coord| #[trigger] tile_at(*final(tm), d)
            == if d == c { Some(Tile { visited: true, ..tile_at(*old(tm), c).unwrap() }) } else { tile_at(*old(tm), d) },
{
    let ghost t0 = *tm;
    if let Some(t) = tm.get_mut(c) {
        t.visit();
    }
    proof {
        assert forall|d: Coord| #[trigger] tile_at(*tm, d)
            == if d == c { Some(Tile { visited: true, ..tile_at(t0, c).unwrap() }) } else { tile_at(t0, d) } by {
            if d.row.0 < t0.map@.len() {
                assert(tm.map@[d.row.0 as int]@.len() == t0.map@[d.row.0 as int]@.len());
                if d != c && d.col.0 < t0.map@[d.row.0 as int]@.len() {
                    assert(d.row.0 != c.row.0 || d.col.0 != c.col.0);
                }
            }
        }
    }
}

proof fn lemma_sbv_refl(a: TileMap)
    ensures
        same_but_visits(a, a),
{
    assert forall|r: int, c: int| 0 <= r < a.map@.len() && 0 <= c < a.map@[r]@.len()
        implies #[trigger] a.map@[r]@[c] == (Tile { visited: a.map@[r]@[c].visited, ..a.map@[r]@[c] }) by {}
}

proof fn lemma_sbv_placed(a: TileMap, b: TileMap)
    requires
        same_but_visits(a, b),
        tiles_placed(a),
    ensures
        tiles_placed(b),
{
    assert forall|r: int, c: int| 0 <= r < b.map@.len() && 0 <= c < b.map@[r]@.len()
        implies (#[trigger] b.map@[r]@[c]).coord.row.0 == r && b.map@[r]@[c].coord.col.0 == c by {
        assert(b.map@[r]@[c] == (Tile { visited: b.map@[r]@[c].visited, ..a.map@[r]@[c] }));
    }
}

/// The note the gz bot keeps of its target: `col row, fleeing: flag`.
pub open spec fn gz_debug(target: Coord, fleeing: bool) -> Seq<char> {
    decimal(target.col.0 as nat) + " "@ + decimal(target.row.0 as nat) + ", fleeing: "@
        + (if fleeing { "true"@ } else { "false"@ })
}

/// A move of the gz bot from `me`: a wait, a bomb, or a step onto a neighbouring
/// floor tile that no bomb hits on the next step.
#[verifier::opaque]
pub open spec fn gz_move_ok(map: GameMap, me: Coord, size: usize, radius: usize, c: Command) -> bool {
    ||| c == Command::Wait
    ||| c == Command::PlaceBomb
    ||| step_command(me, c) matches Some(t) && {
        &&& neighbours_of(me).contains(t)
        &&& t.col.0 < size
        &&& t.row.0 * size + t.col.0 < map.grid.tiles@.len()
        &&& map.grid.tiles@[t.row.0 * size + t.col.0] == ' '
        &&& safe_from_all(map.bombs@, t, 1usize, radius)
    }
}

/// `q` is a shortest safe walk from `s` to `g`: no safe walk of at least one step to
/// `g` is shorter.
pub open spec fn shortest_walk(tm: TileMap, bombs: Seq<Bomb>, radius: usize, s: Coord, g: Coord, q: Seq<Tile>) -> bool {
    &&& safe_walk(tm, bombs, radius, s, q)
    &&& walk_ends_at(s, q, g)
    &&& forall|p: Seq<Tile>| #[trigger] safe_walk(tm, bombs, radius, s, p) && p.len() > 0 && p.last().coord == g
        ==> p.len() >= q.len()
}

/// Some safe walk of fewer than `i32::MAX - 1` steps leads from `s` to `g`.
pub open spec fn safely_reachable(tm: TileMap, bombs: Seq<Bomb>, radius: usize, s: Coord, g: Coord) -> bool {
    exists|p: Seq<Tile>| #[trigger] safe_walk(tm, bombs, radius, s, p) && p.len() > 0 && p.last().coord == g
        && p.len() < i32::MAX - 1
}

/// `e` is a nearest tile marked safe that can be walked to from `s` over empty floor.
pub open spec fn nearest_safe(tm: TileMap, s: Coord, e: Coord) -> bool {
    &&& tile_at(tm, e) is Some
    &&& tile_at(tm, e).unwrap().safe
    &&& exists|q: Seq<Tile>| {
        &&& #[trigger] safe_walk(tm, Seq::empty(), 0, s, q)
        &&& walk_ends_at(s, q, e)
        &&& forall|p: Seq<Tile>| #[trigger] safe_walk(tm, Seq::empty(), 0, s, p) && p.len() > 0
            && tile_at(tm, p.last().coord).unwrap().safe ==> p.len() >= q.len()
    }
}

/// No tile marked safe can be walked to from `s` in fewer than `i32::MAX - 1` steps,
/// and `s` itself is not one.
pub open spec fn no_safe_tile(tm: TileMap, s: Coord) -> bool {
    &&& tile_at(tm, s) is Some ==> !tile_at(tm, s).unwrap().safe
    &&& forall|p: Seq<Tile>| #[trigger] safe_walk(tm, Seq::empty(), 0, s, p) && p.len() > 0
        && tile_at(tm, p.last().coord).unwrap().safe ==> p.len() >= i32::MAX - 1
}

/// `t` is a tile the gz bot may pick to head for from `me`: it can be walked to, and no
/// tile it can walk to scores better.
pub open spec fn best_target(tm: TileMap, me: Coord, t: Coord) -> bool {
    &&& tile_at(tm, t) is Some
    &&& t == me || tile_at(tm, t).unwrap().cell_type == CellType::Empty
    &&& exists|d: int| 0 <= d < i32::MAX - 1 && #[trigger] floor_distance(tm, me, t, d)
        && forall|c2: Coord, d2: int| #[trigger] floor_distance(tm, me, c2, d2) && 0 <= d2 < i32::MAX - 1
            ==> gz_score(tm, tile_at(tm, c2).unwrap(), d2 as usize) <= gz_score(tm, tile_at(tm, t).unwrap(), d as usize)
}

/// The move of a round of the gz bot on the board `tm0` it built (`tm` is that board
/// after the target search marked its visits): it flees exactly when its tile is not
/// safe, heads for the nearest safe tile when fleeing and one is found (a best tile when
/// none is), else for the target it had, else for a best tile, and follows that target.
pub open spec fn gz_round(tm0: TileMap, tm: TileMap, bombs: Seq<Bomb>, radius: usize, me: Coord,
    old_target: Option<Coord>, old_fleeing: bool, t: Coord, c: Command, target: Option<Coord>, fleeing: bool) -> bool {
    let here = tile_at(tm0, me);
    &&& same_but_visits(tm0, tm)
    &&& here is Some ==> fleeing == !here.unwrap().safe
    &&& here is None ==> fleeing == old_fleeing
    &&& if here is None && old_target is None {
        c == Command::Wait && target is None
    } else {
        &&& follows(tm, bombs, radius, me, t, fleeing, c, target is None)
        &&& target is Some ==> target == Some(t)
        &&& here is None ==> old_target == Some(t)
        &&& here is Some && !here.unwrap().safe
            ==> nearest_safe(tm0, me, t) || no_safe_tile(tm0, me) && best_target(tm0, me, t)
        &&& here is Some && here.unwrap().safe && old_target is Some ==> old_target == Some(t)
        &&& here is Some && here.unwrap().safe && old_target is None ==> best_target(tm0, me, t)
    }
}

/// What heading for `target` on `tm` gives: `c` and whether the target is `dropped`.
/// Off the map it waits. Away from the target it takes the first step of a shortest
/// safe walk there, or waits when none is found. On the target it waits when fleeing;
/// otherwise it drops the target and bombs exactly when a nearest safe tile can be
/// reached by a safe walk of at most three steps.
pub open spec fn follows(tm: TileMap, bombs: Seq<Bomb>, radius: usize, me: Coord, target: Coord, fleeing: bool,
    c: Command, dropped: bool) -> bool {
    let on = tile_at(tm, me) is Some && tile_at(tm, target) is Some;
    &&& !on ==> c == Command::Wait && !dropped
    &&& on && target != me && safely_reachable(tm, bombs, radius, me, target) ==> {
        &&& !dropped
        &&& exists|q: Seq<Tile>| #[trigger] shortest_walk(tm, bombs, radius, me, target, q) && q.len() >= 1
            && c == move_towards(me, q[0].coord)
    }
    &&& on && target != me && !safely_reachable(tm, bombs, radius, me, target) ==> c == Command::Wait && !dropped
    &&& on && target == me && fleeing ==> c == Command::Wait && !dropped
    &&& on && target == me && !fleeing ==> {
        &&& dropped
        &&& c == Command::PlaceBomb || c == Command::Wait
        &&& c == Command::PlaceBomb ==> exists|e: Coord, q: Seq<Tile>| #[trigger] nearest_safe(tm, me, e)
            && #[trigger] safe_walk(tm, bombs, radius, me, q) && walk_ends_at(me, q, e) && q.len() <= 3
        &&& c == Command::Wait ==> no_safe_tile(tm, me) || exists|e: Coord| #[trigger] nearest_safe(tm, me, e) && e != me
            && forall|q: Seq<Tile>| #[trigger] safe_walk(tm, bombs, radius, me, q) && q.len() > 0 && q.last().coord == e
                ==> q.len() > 3
    }
}

/// `tm` is the board of `map` as the gz bot sees it: every tile at its place, made of
/// the character with the same index, and every character made into a tile.
#[verifier::opaque]
pub open spec fn built_from(tm: TileMap, map: GameMap, player: Coord, size: usize, radius: usize) -> bool {
    &&& tiles_placed(tm)
    &&& forall|r: int, c: int| 0 <= r < tm.map@.len() && 0 <= c < tm.map@[r]@.len() ==> {
        &&& r * size + c < map.grid.tiles@.len()
        &&& #[trigger] tm.map@[r]@[c] == gz_tile(map, player, size, radius, r * size + c)
    }
    &&& forall|i: int| 0 <= i < map.grid.tiles@.len() ==> #[trigger] tile_at(tm, index_coord(i, size))
        == Some(gz_tile(map, player, size, radius, i))
}

proof fn lemma_built_placed(tm: TileMap, map: GameMap, player: Coord, size: usize, radius: usize)
    requires
        built_from(tm, map, player, size, radius),
    ensures
        tiles_placed(tm),
{
    reveal(built_from);
}

/// The tile at `c` is made of the character at index `row * size + col`.
proof fn lemma_built_tile(tm: TileMap, map: GameMap, player: Coord, size: usize, radius: usize, c: Coord)
    requires
        built_from(tm, map, player, size, radius),
        size > 0,
        tile_at(tm, c) is Some,
    ensures
        c.col.0 < size,
        c.row.0 * size + c.col.0 < map.grid.tiles@.len(),
        tile_at(tm, c).unwrap() == gz_tile(map, player, size, radius, c.row.0 * size + c.col.0),
        index_coord(c.row.0 * size + c.col.0, size) == c,
{
    reveal(built_from);
    let r = c.row.0 as int;
    let q = c.col.0 as int;
    assert(tm.map@[r]@[q] == gz_tile(map, player, size, radius, r * size + q));
    assert(tm.map@[r]@[q].coord.col.0 == q);
    vstd::arithmetic::div_mod::lemma_fundamental_div_mod(r * size + q, size as int);
    let i = r * size + q;
    assert(index_coord(i, size).col.0 == q);
    assert(q < size);
    assert(index_coord(i, size).col == c.col);
    assert(index_coord(i, size).row == c.row);
}

proof fn lemma_wait_bomb_ok(map: GameMap, me: Coord, size: usize, radius: usize)
    ensures
        gz_move_ok(map, me, size, radius, Command::Wait),
        gz_move_ok(map, me, size, radius, Command::PlaceBomb),
{
    reveal(gz_move_ok);
}

/// The first step of a safe walk from `me` is a move the gz bot may make.
proof fn lemma_first_step(tm0: TileMap, tm: TileMap, map: GameMap, me: Coord, size: usize, radius: usize, path: Seq<Tile>)
    requires
        built_from(tm0, map, me, size, radius),
        size > 0,
        same_but_visits(tm0, tm),
        safe_walk(tm, map.bombs@, radius, me, path),
        path.len() > 0,
    ensures
        gz_move_ok(map, me, size, radius, move_towards(me, path[0].coord)),
        move_towards(me, path[0].coord) != Command::PlaceBomb,
{
    reveal(gz_move_ok);
    let t = path[0];
    let first = t.coord;
    assert(walk_step_ok(tm, map.bombs@, radius, me, path, 0));
    lemma_move_towards_neighbour(me, first);
    lemma_sbv_tile(tm0, tm, first);
    lemma_built_tile(tm0, map, me, size, radius, first);
    let i = first.row.0 * size + first.col.0;
    assert(gz_tile(map, me, size, radius, i).cell_type == CellType::Empty);
    assert(index_coord(i, size) != me);
}

/// One of `items`, drawn by `rand`'s `IndexedRandom::choose` with a fresh `rand::rng()`.
/// The crate's source picks the item at a random index of a slice that is not empty, so
/// the result is one of the items; which one is left open.
#[verifier::external_body]
fn choose_one(items: &Vec<Coord>) -> (c: Coord)
    requires
        items.len() > 0,
    ensures
        items@.contains(c),
{
    *items.choose(&mut rand::rng()).unwrap()
}

impl GzBot {
    pub fn new() -> (b: Self)
        ensures
            b.name@ == "GeleZuivelBot"@,
            b.id == 0,
            b.debug_info@ == Seq::<char>::empty(),
            b.current_target is None,
            !b.fleeing,
            b.map_settings.size == 15,
            b.map_settings.bomb_radius == 2,
    {
        GzBot {
            name: String::from_str("GeleZuivelBot"),
            id: 0,
            debug_info: String::new(),
            current_target: None,
            fleeing: false,
            map_settings: MapConfig::default(),
        }
    }

    /// Only empty floor can be walked on.
    pub fn is_tile_walkable(&self, tile: &Tile) -> (b: bool)
        ensures
            b == (tile.cell_type == CellType::Empty),
    {
        match tile.cell_type {
            CellType::Empty => true,
            _ => false,
        }
    }

    /// No bomb on the board reaches `coord`.
    pub fn is_tile_safe(&self, map: &GameMap, coord: Coord) -> (b: bool)
        ensures
            b == tile_safe(map.bombs@, coord, self.map_settings.bomb_radius),
    {
        for i in 0..map.bombs.len()
            invariant
                forall|j: int| 0 <= j < i ==> !gz_in_range(coord, (#[trigger] map.bombs@[j]).position, self.map_settings.bomb_radius),
        {
            if is_tile_in_bomb_range(coord, map.bombs[i].position, self.map_settings.bomb_radius) {
                return false;
            }
        }
        true
    }

    /// The score of `tile` reached after `distance` steps.
    pub fn score_tile(&self, map: &TileMap, tile: &Tile, distance: usize) -> (score: i32)
        requires
            distance / 10 <= i32::MAX,
        ensures
            score == gz_score(*map, *tile, distance),
    {
        let mut score: i32 = 0;
        score = score - (distance / 10) as i32;
        if tile.safe {
            score = score + 10;
        }
        let nbs = get_neighbour_coords(tile.coord);
        proof {
            lemma_bonus_sum_bounds(*map, nbs@);
            assert(nbs@.take(0) =~= Seq::<Coord>::empty());
        }
        let ghost base = score as int;
        for j in 0..nbs.len()
            invariant
                nbs@ == neighbours_of(tile.coord),
                nbs@.len() <= 4,
                -i32::MAX <= base <= 10,
                base == -((distance / 10) as int) + (if tile.safe { 10int } else { 0int }),
                score == base + bonus_sum(*map, nbs@.take(j as int)),
        {
            proof {
                assert(nbs@.take(j + 1).drop_last() =~= nbs@.take(j as int));
                lemma_bonus_sum_bounds(*map, nbs@.take(j as int));
            }
            if let Some(neighbour) = map.get(nbs[j]) {
                match neighbour.cell_type {
                    CellType::Destroyable => score = score + 2,
                    CellType::Player => score = score + 10,
                    _ => {},
                }
            }
        }
        proof {
            assert(nbs@.take(nbs@.len() as int) =~= nbs@);
        }
        score
    }

    /// Every tile that can be walked to from `start` over empty floor (`start` first),
    /// scored at its floor distance; each place once. The walk stops after
    /// `i32::MAX - 1` steps.
    pub fn reachable_tiles_with_scores(&self, tile_map: &mut TileMap, start: Coord) -> (scores: Vec<(Coord, i32)>)
        requires
            tiles_placed(*old(tile_map)),
            tile_at(*old(tile_map), start) is Some,
        ensures
            same_but_visits(*old(tile_map), *final(tile_map)),
            scores@.len() > 0,
            scores@[0].0 == start,
            scores@[0].1 == gz_score(*old(tile_map), tile_at(*old(tile_map), start).unwrap(), 0),
            forall|k: int| 0 <= k < scores@.len() ==> scored_entry(*old(tile_map), start, #[trigger] scores@[k]),
            forall|k1: int, k2: int| 0 <= k1 < k2 < scores@.len() ==> (#[trigger] scores@[k1]).0 != (#[trigger] scores@[k2]).0,
            forall|cs: Seq<Coord>| #[trigger] floor_walk(*old(tile_map), start, cs) && 0 < cs.len() < i32::MAX - 1
                ==> exists|k: int| 0 <= k < scores@.len() && (#[trigger] scores@[k]).0 == cs.last(),
    {
        let ghost old_tm = *tile_map;
        tile_map.reset();
        let ghost reset_tm = *tile_map;
        proof {
            assert(same_but_visits(old_tm, reset_tm));
            lemma_sbv_placed(old_tm, reset_tm);
            lemma_sbv_tile(old_tm, reset_tm, start);
            lemma_floor_sbv(old_tm, reset_tm, start);
        }
        let found = tile_map.floor_distances(start);
        let mut scores: Vec<(Coord, i32)> = Vec::new();
        for k in 0..found.len()
            invariant
                *tile_map == reset_tm,
                same_but_visits(old_tm, reset_tm),
                tiles_placed(reset_tm),
                forall|j: int| 0 <= j < found@.len() ==> {
                    &&& tile_at(reset_tm, (#[trigger] found@[j]).0) is Some
                    &&& found@[j].0 == start || tile_at(reset_tm, found@[j].0).unwrap().cell_type == CellType::Empty
                    &&& 0 <= found@[j].1 < i32::MAX - 1
                    &&& floor_distance(reset_tm, start, found@[j].0, found@[j].1 as int)
                },
                scores@.len() == k,
                forall|j: int| 0 <= j < k ==> (#[trigger] scores@[j]).0 == found@[j].0
                    && scores@[j].1 == gz_score(old_tm, tile_at(old_tm, found@[j].0).unwrap(), found@[j].1 as usize),
        {
            let (c, d) = found[k];
            proof {
                assert(found@[k as int] == (c, d));
                lemma_sbv_tile(old_tm, reset_tm, c);
            }
            let tile = *tile_map.get(c).unwrap();
            let score = self.score_tile(tile_map, &tile, d as usize);
            proof {
                lemma_bonus_same(old_tm, reset_tm, neighbours_of(tile.coord));
                let ot = tile_at(old_tm, c).unwrap();
                assert(tile.coord == ot.coord && tile.safe == ot.safe);
            }
            scores.push((c, score));
        }
        let ghost scored = scores@;
        for k in 0..scores.len()
            invariant
                scores@ == scored,
                same_but_visits(old_tm, *tile_map),
                forall|j: int| 0 <= j < scores@.len() ==> tile_at(old_tm, (#[trigger] scores@[j]).0) is Some,
        {
            let c = scores[k].0;
            proof {
                lemma_sbv_tile(old_tm, *tile_map, c);
            }
            let ghost t0 = *tile_map;
            mark_visited(tile_map, c);
            proof {
                lemma_sbv_trans(old_tm, t0, *tile_map);
            }
        }
        proof {
            assert forall|k: int| 0 <= k < scores@.len() implies scored_entry(old_tm, start, #[trigger] scores@[k]) by {
                let c = found@[k].0;
                let d = found@[k].1 as int;
                lemma_sbv_tile(old_tm, reset_tm, c);
                assert(floor_distance(reset_tm, start, c, d));
                assert(floor_distance(old_tm, start, c, d));
            }
            assert forall|k1: int, k2: int| 0 <= k1 < k2 < scores@.len() implies (#[trigger] scores@[k1]).0 != (#[trigger] scores@[k2]).0 by {
                assert(found@[k1].0 != found@[k2].0);
            }
            assert forall|cs: Seq<Coord>| #[trigger] floor_walk(old_tm, start, cs) && 0 < cs.len() < i32::MAX - 1
                implies exists|k: int| 0 <= k < scores@.len() && (#[trigger] scores@[k]).0 == cs.last() by {
                assert(floor_walk(reset_tm, start, cs));
                let k = choose|k: int| 0 <= k < found@.len() && (#[trigger] found@[k]).0 == cs.last();
                assert(scores@[k].0 == found@[k].0);
            }
            assert(found@[0] == (start, 0i32));
            assert(scores@[0].0 == start);
        }
        scores
    }

    /// A target among the reachable tiles that score best, drawn at random.
    pub fn choose_coord_to_move_to(&mut self, tile_map: &mut TileMap, player_location: Coord) -> (c: Coord)
        requires
            tiles_placed(*old(tile_map)),
            tile_at(*old(tile_map), player_location) is Some,
        ensures
            *final(self) == *old(self),
            same_but_visits(*old(tile_map), *final(tile_map)),
            tile_at(*old(tile_map), c) is Some,
            c == player_location || tile_at(*old(tile_map), c).unwrap().cell_type == CellType::Empty,
            exists|d: int| 0 <= d < i32::MAX - 1 && #[trigger] floor_distance(*old(tile_map), player_location, c, d)
                && forall|c2: Coord, d2: int| #[trigger] floor_distance(*old(tile_map), player_location, c2, d2)
                    && 0 <= d2 < i32::MAX - 1
                    ==> gz_score(*old(tile_map), tile_at(*old(tile_map), c2).unwrap(), d2 as usize)
                        <= gz_score(*old(tile_map), tile_at(*old(tile_map), c).unwrap(), d as usize),
    {
        let scores = self.reachable_tiles_with_scores(tile_map, player_location);
        if scores.len() == 0 {
            return player_location;
        }
        let top = Self::top_tiles(&scores);
        let chosen = choose_one(&top);
        proof {
            let tm = *old(tile_map);
            lemma_top_score(scores@);
            let k = choose|k: int| 0 <= k < scores@.len() && (#[trigger] scores@[k]).0 == chosen && scores@[k].1 == top_score(scores@);
            assert(scored_entry(tm, player_location, scores@[k]));
            let d = choose|d: int| 0 <= d < i32::MAX - 1 && #[trigger] floor_distance(tm, player_location, chosen, d)
                && gz_score(tm, tile_at(tm, chosen).unwrap(), d as usize) == scores@[k].1;
            assert forall|c2: Coord, d2: int| #[trigger] floor_distance(tm, player_location, c2, d2) && 0 <= d2 < i32::MAX - 1
                implies gz_score(tm, tile_at(tm, c2).unwrap(), d2 as usize) <= gz_score(tm, tile_at(tm, chosen).unwrap(), d as usize) by {
                let cs = choose|cs: Seq<Coord>| #[trigger] floor_walk(tm, player_location, cs) && cs.len() == d2
                    && floor_ends_at(player_location, cs, c2);
                let k2 = if d2 == 0 {
                    0int
                } else {
                    choose|k2: int| 0 <= k2 < scores@.len() && (#[trigger] scores@[k2]).0 == cs.last()
                };
                assert(scores@[k2].0 == c2);
                assert(scored_entry(tm, player_location, scores@[k2]));
                let d3 = choose|d3: int| 0 <= d3 < i32::MAX - 1 && #[trigger] floor_distance(tm, player_location, c2, d3)
                    && gz_score(tm, tile_at(tm, c2).unwrap(), d3 as usize) == scores@[k2].1;
                lemma_floor_distance_unique(tm, player_location, c2, d2, d3);
                assert(scores@[k2].1 <= top_score(scores@));
            }
        }
        chosen
    }

    /// The safe walk from the player to the target, if both lie on the map and one is found.
    pub fn try_find_path(&mut self, tile_map: &TileMap, bombs: &Vec<Bomb>, player_location: Coord,
        target_location: Coord) -> (r: Option<(i32, Vec<Tile>)>)
        requires
            tiles_placed(*tile_map),
        ensures
            *final(self) == *old(self),
            tile_at(*tile_map, player_location) is None || tile_at(*tile_map, target_location) is None ==> r is None,
            r matches Some((cost, path)) ==> {
                &&& cost == path@.len()
                &&& cost < i32::MAX - 1
                &&& safe_walk(*tile_map, bombs@, old(self).map_settings.bomb_radius, player_location, path@)
                &&& path@.len() == 0 ==> target_location == player_location
                &&& path@.len() > 0 ==> path@.last().coord == target_location
                &&& forall|p: Seq<Tile>| #[trigger] safe_walk(*tile_map, bombs@, old(self).map_settings.bomb_radius,
                    player_location, p) && p.len() > 0 && p.last().coord == target_location ==> p.len() >= cost
            },
            tile_at(*tile_map, player_location) is Some && target_location == player_location
                ==> (r matches Some((cost, path)) && cost == 0 && path@.len() == 0),
            tile_at(*tile_map, player_location) is Some && tile_at(*tile_map, target_location) is Some && r is None ==> {
                &&& target_location != player_location
                &&& forall|p: Seq<Tile>| #[trigger] safe_walk(*tile_map, bombs@, old(self).map_settings.bomb_radius,
                    player_location, p) && p.len() > 0 && p.last().coord == target_location ==> p.len() >= i32::MAX - 1
            },
    {
        if let Some(starting_tile) = tile_map.get(player_location) {
            if let Some(goal_tile) = tile_map.get(target_location) {
                proof {
                    lemma_placed(*tile_map, player_location);
                    lemma_placed(*tile_map, target_location);
                }
                return tile_map.dijkstra(starting_tile, goal_tile, bombs, self.map_settings.bomb_radius);
            }
        }
        None
    }

    /// Where to run to: the nearest safe tile within reach.
    pub fn get_flee_location(&mut self, tile_map: &TileMap, current_tile: &Tile) -> (r: Option<Coord>)
        requires
            tiles_placed(*tile_map),
        ensures
            *final(self) == *old(self),
            r matches Some(c) ==> {
                &&& tile_at(*tile_map, c) is Some
                &&& tile_at(*tile_map, c).unwrap().safe
                &&& c == current_tile.coord || tile_at(*tile_map, c).unwrap().cell_type == CellType::Empty
                &&& exists|q: Seq<Tile>| {
                    &&& #[trigger] safe_walk(*tile_map, Seq::empty(), 0, current_tile.coord, q)
                    &&& walk_ends_at(current_tile.coord, q, c)
                    &&& forall|p: Seq<Tile>| #[trigger] safe_walk(*tile_map, Seq::empty(), 0, current_tile.coord, p)
                        && p.len() > 0 && tile_at(*tile_map, p.last().coord).unwrap().safe ==> p.len() >= q.len()
                }
            },
            r is None ==> {
                &&& tile_at(*tile_map, current_tile.coord) is Some ==> !tile_at(*tile_map, current_tile.coord).unwrap().safe
                &&& forall|p: Seq<Tile>| #[trigger] safe_walk(*tile_map, Seq::empty(), 0, current_tile.coord, p) && p.len() > 0
                    && tile_at(*tile_map, p.last().coord).unwrap().safe ==> p.len() >= i32::MAX - 1
            },
    {
        match tile_map.nearest_safe_tile(current_tile) {
            Some(safe_tile) => Some(safe_tile.coord),
            None => None,
        }
    }

    /// Heads for `target` along a safe walk; standing on it already, and not fleeing, it
    /// drops the target and bombs when a safe tile lies at most three steps away. The
    /// flag tells whether the target was dropped.
    fn follow_target(&mut self, tile_map: &TileMap, map: &GameMap, player_location: Coord, target: Coord, fleeing: bool,
        tm0: Ghost<TileMap>) -> (r: (Command, bool))
        requires
            old(self).map_settings.size > 0,
            built_from(tm0@, *map, player_location, old(self).map_settings.size, old(self).map_settings.bomb_radius),
            same_but_visits(tm0@, *tile_map),
            tiles_placed(*tile_map),
        ensures
            *final(self) == *old(self),
            gz_move_ok(*map, player_location, old(self).map_settings.size, old(self).map_settings.bomb_radius, r.0),
            r.1 ==> target == player_location && !fleeing,
            r.0 == Command::PlaceBomb ==> r.1 && tile_at(tm0@, player_location) is Some,
            follows(*tile_map, map.bombs@, old(self).map_settings.bomb_radius, player_location, target, fleeing, r.0, r.1),
    {
        let size = self.map_settings.size;
        let radius = self.map_settings.bomb_radius;
        proof {
            lemma_wait_bomb_ok(*map, player_location, size, radius);
        }
        if let Some((_, path)) = self.try_find_path(tile_map, &map.bombs, player_location, target) {
            if path.len() > 0 {
                let first = path[0].coord;
                proof {
                    lemma_first_step(tm0@, *tile_map, *map, player_location, size, radius, path@);
                    assert(shortest_walk(*tile_map, map.bombs@, radius, player_location, target, path@));
                    assert(path@[0].coord == first);
                }
                return (get_command_to_move_to_coord(player_location, first), false);
            }
            if target == player_location && !fleeing {
                if let Some(goal_tile) = tile_map.get(target) {
                    proof {
                        lemma_placed(*tile_map, target);
                        lemma_sbv_tile(tm0@, *tile_map, target);
                    }
                    if let Some(escape_tile) = tile_map.nearest_safe_tile(goal_tile) {
                        if let Some((_, escape_path)) = tile_map.dijkstra(goal_tile, escape_tile, &map.bombs, radius) {
                            if escape_path.len() <= 3 {
                                proof {
                                    assert(nearest_safe(*tile_map, player_location, escape_tile.coord));
                                    assert(walk_ends_at(player_location, escape_path@, escape_tile.coord));
                                }
                                return (Command::PlaceBomb, true);
                            }
                        }
                    }
                    return (Command::Wait, true);
                }
            }
        }
        (Command::Wait, false)
    }

    fn debug_text(target: Coord, fleeing: bool) -> (s: String)
        ensures
            s@ == gz_debug(target, fleeing),
    {
        proof {
            reveal_strlit(" ");
            reveal_strlit(", fleeing: ");
            reveal_strlit("true");
            reveal_strlit("false");
        }
        let mut s = decimal_string(target.col.get());
        s.append(" ");
        s.append(decimal_string(target.row.get()).as_str());
        s.append(", fleeing: ");
        if fleeing {
            s.append("true");
        } else {
            s.append("false");
        }
        s
    }

    /// The places of the best-scored entries of `scores`.
    pub fn top_tiles(scores: &Vec<(Coord, i32)>) -> (top: Vec<Coord>)
        requires
            scores.len() > 0,
        ensures
            top@.len() > 0,
            forall|c: Coord| #[trigger] top@.contains(c) <==> exists|k: int| 0 <= k < scores@.len()
                && (#[trigger] scores@[k]).0 == c && scores@[k].1 == top_score(scores@),
    {
        proof {
            lemma_top_score(scores@);
        }
        let mut highest = scores[0].1;
        for k in 1..scores.len()
            invariant
                1 <= scores@.len(),
                highest == top_score(scores@.take(k as int)),
        {
            proof {
                assert(scores@.take(k + 1).drop_last() =~= scores@.take(k as int));
            }
            if scores[k].1 > highest {
                highest = scores[k].1;
            }
        }
        proof {
            assert(scores@.take(scores@.len() as int) =~= scores@);
        }
        let mut top: Vec<Coord> = Vec::new();
        for k in 0..scores.len()
            invariant
                highest == top_score(scores@),
                forall|c: Coord| #[trigger] top@.contains(c) <==> exists|q: int| 0 <= q < k
                    && (#[trigger] scores@[q]).0 == c && scores@[q].1 == highest,
        {
            if scores[k].1 == highest {
                let ghost t0 = top@;
                top.push(scores[k].0);
                proof {
                    assert forall|c: Coord| #[trigger] top@.contains(c) <==> exists|q: int| 0 <= q < k + 1
                        && (#[trigger] scores@[q]).0 == c && scores@[q].1 == highest by {
                        if top@.contains(c) {
                            let i = choose|i: int| 0 <= i < top@.len() && top@[i] == c;
                            if i < t0.len() {
                                assert(t0.contains(c));
                            } else {
                                assert(scores@[k as int].0 == c);
                            }
                        }
                        if exists|q: int| 0 <= q < k + 1 && (#[trigger] scores@[q]).0 == c && scores@[q].1 == highest {
                            let q = choose|q: int| 0 <= q < k + 1 && (#[trigger] scores@[q]).0 == c && scores@[q].1 == highest;
                            if q < k {
                                assert(t0.contains(c));
                                let i = choose|i: int| 0 <= i < t0.len() && t0[i] == c;
                                assert(top@[i] == c);
                            } else {
                                assert(top@[t0.len() as int] == c);
                            }
                        }
                    }
                }
            } else {
                proof {
                    assert forall|c: Coord| #[trigger] top@.contains(c) <==> exists|q: int| 0 <= q < k + 1
                        && (#[trigger] scores@[q]).0 == c && scores@[q].1 == highest by {
                        if exists|q: int| 0 <= q < k + 1 && (#[trigger] scores@[q]).0 == c && scores@[q].1 == highest {
                            let q = choose|q: int| 0 <= q < k + 1 && (#[trigger] scores@[q]).0 == c && scores@[q].1 == highest;
                            assert(q < k);
                        }
                    }
                }
            }
        }
        proof {
            let k0 = choose|k: int| 0 <= k < scores@.len() && (#[trigger] scores@[k]).1 == top_score(scores@);
            assert(top@.contains(scores@[k0].0));
        }
        top
    }

    /// The place of the `index`-th character of the board.
    pub fn get_coord_from_index(&self, index: usize) -> (c: Coord)
        requires
            self.map_settings.size > 0,
        ensures
            c == index_coord(index as int, self.map_settings.size),
    {
        let row = index / self.map_settings.size;
        let col = index % self.map_settings.size;
        Coord { col: Col::new(col), row: Row::new(row) }
    }

    /// The board as tiles, row by row, each tile at its place.
    pub fn generate_tile_map(&self, map: &GameMap, player_position: Coord) -> (tm: TileMap)
        requires
            self.map_settings.size > 0,
        ensures
            built_from(tm, *map, player_position, self.map_settings.size, self.map_settings.bomb_radius),
    {
        let size = self.map_settings.size;
        let radius = self.map_settings.bomb_radius;
        let n = map.grid.tiles.len();
        let mut rows: Vec<Vec<Tile>> = Vec::new();
        let ghost mut row: int = 0;
        let ghost mut col: int = 0;
        for index in 0..n
            invariant
                n == map.grid.tiles@.len(),
                size == self.map_settings.size,
                radius == self.map_settings.bomb_radius,
                size > 0,
                0 <= col < size,
                0 <= row,
                row * size + col == index,
                rows@.len() == if col == 0 { row } else { row + 1 },
                forall|r: int| 0 <= r < rows@.len() ==> (#[trigger] rows@[r])@.len() == if r < row { size as int } else { col },
                forall|r: int, c: int| 0 <= r < rows@.len() && 0 <= c < rows@[r]@.len() ==> {
                    &&& r * size + c < index
                    &&& #[trigger] rows@[r]@[c] == gz_tile(*map, player_position, size, radius, r * size + c)
                },
                forall|i: int| 0 <= i < index ==> #[trigger] tile_at(TileMap { map: rows }, index_coord(i, size))
                    == Some(gz_tile(*map, player_position, size, radius, i)),
        {
            let coord = self.get_coord_from_index(index);
            proof {
                vstd::arithmetic::div_mod::lemma_fundamental_div_mod_converse(index as int, size as int, row, col);
            }
            let mut cell_type = get_cell_type(&map.grid.tiles[index]);
            if coord == player_position {
                cell_type = CellType::Empty;
            }
            let tile = Tile { coord: coord, cell_type: cell_type, visited: false, safe: self.is_tile_safe(map, coord) };
            proof {
                assert(tile == gz_tile(*map, player_position, size, radius, index as int));
            }
            while rows.len() <= coord.row.get()
                invariant
                    n == map.grid.tiles@.len(),
                    size == self.map_settings.size,
                    radius == self.map_settings.bomb_radius,
                    size > 0,
                    0 <= col < size,
                    0 <= row,
                    row * size + col == index,
                    index < n,
                    coord.row.0 == row,
                    tile == gz_tile(*map, player_position, size, radius, index as int),
                    row <= rows@.len() <= row + 1,
                    col > 0 ==> rows@.len() == row + 1,
                    forall|r: int| 0 <= r < rows@.len() ==> (#[trigger] rows@[r])@.len() == if r < row { size as int } else { col },
                    forall|r: int, c: int| 0 <= r < rows@.len() && 0 <= c < rows@[r]@.len() ==> {
                        &&& r * size + c < index
                        &&& #[trigger] rows@[r]@[c] == gz_tile(*map, player_position, size, radius, r * size + c)
                    },
                    forall|i: int| 0 <= i < index ==> #[trigger] tile_at(TileMap { map: rows }, index_coord(i, size))
                        == Some(gz_tile(*map, player_position, size, radius, i)),
                decreases coord.row.0 + 1 - rows@.len(),
            {
                let ghost b = rows;
                rows.push(Vec::new());
                proof {
                    assert forall|i: int| 0 <= i < index implies #[trigger] tile_at(TileMap { map: rows }, index_coord(i, size))
                        == Some(gz_tile(*map, player_position, size, radius, i)) by {
                        let ic = index_coord(i, size);
                        assert(tile_at(TileMap { map: b }, ic) == Some(gz_tile(*map, player_position, size, radius, i)));
                        assert(rows@[ic.row.0 as int] == b@[ic.row.0 as int]);
                    }
                }
            }
            let ghost before = rows;
            let mut line = rows.pop().unwrap();
            line.push(tile);
            rows.push(line);
            proof {
                assert(rows@.len() == row + 1);
                assert(rows@[row]@.len() == col + 1);
                assert(rows@[row]@[col] == tile);
                assert forall|r: int| 0 <= r < row implies #[trigger] rows@[r] == before@[r] by {}
                assert forall|i: int| 0 <= i <= index implies #[trigger] tile_at(TileMap { map: rows }, index_coord(i, size))
                    == Some(gz_tile(*map, player_position, size, radius, i)) by {
                    if i < index {
                        assert(tile_at(TileMap { map: before }, index_coord(i, size)) == Some(gz_tile(*map, player_position, size, radius, i)));
                        let ic = index_coord(i, size);
                        if ic.row.0 == row {
                            assert(rows@[row]@[ic.col.0 as int] == before@[row]@[ic.col.0 as int]);
                        }
                    }
                }
            }
            proof {
                assert((row + 1) * size == row * size + size) by (nonlinear_arith);
                col = col + 1;
                if col == size {
                    col = 0;
                    row = row + 1;
                }
            }
        }
        let tm = TileMap { map: rows };
        proof {
            assert forall|r: int, c: int| 0 <= r < tm.map@.len() && 0 <= c < tm.map@[r]@.len()
                implies (#[trigger] tm.map@[r]@[c]).coord.row.0 == r && tm.map@[r]@[c].coord.col.0 == c by {
                assert(c < size);
                vstd::arithmetic::div_mod::lemma_fundamental_div_mod_converse(r * size + c, size as int, r, c);
            }
            reveal(built_from);
        }
        tm
    }
}

impl Bot for GzBot {
    fn name(&self) -> (s: String)
        ensures
            s@ == labelled(self.name@, self.id as nat),
    {
        label(&self.name, self.id)
    }

    fn start_game(&mut self, map_settings: &MapConfig, bot_id: usize) -> (ok: bool)
        ensures
            ok,
            final(self).id == bot_id,
            final(self).name == old(self).name,
            final(self).debug_info == old(self).debug_info,
            final(self).current_target == old(self).current_target,
            final(self).fleeing == old(self).fleeing,
            final(self).map_settings.size == map_settings.size,
            final(self).map_settings.bomb_radius == map_settings.bomb_radius,
            final(self).map_settings.bomb_timer == map_settings.bomb_timer,
            final(self).map_settings.endgame == map_settings.endgame,
    {
        self.id = bot_id;
        self.map_settings = map_settings.clone();
        true
    }

    /// Runs to the nearest safe tile when a bomb threatens the player; otherwise walks to
    /// its target, picking a new one when it has none, and bombs once it stands on the
    /// target with a safe tile at most three steps away. With a board width of 0, or
    /// with the player off the board and no target, it waits.
    fn get_move(&mut self, map: &GameMap, player_location: Coord) -> (c: Command)
        ensures
            final(self).name == old(self).name,
            final(self).id == old(self).id,
            final(self).map_settings == old(self).map_settings,
            old(self).map_settings.size == 0 ==> c == Command::Wait && *final(self) == *old(self),
            gz_move_ok(*map, player_location, old(self).map_settings.size, old(self).map_settings.bomb_radius, c),
            c == Command::PlaceBomb ==> {
                &&& tile_safe(map.bombs@, player_location, old(self).map_settings.bomb_radius)
                &&& !final(self).fleeing
                &&& final(self).current_target is None
            },
            old(self).map_settings.size > 0 ==> exists|tm0: TileMap, tm: TileMap, t: Coord|
                #[trigger] built_from(tm0, *map, player_location, old(self).map_settings.size, old(self).map_settings.bomb_radius)
                && #[trigger] gz_round(tm0, tm, map.bombs@, old(self).map_settings.bomb_radius, player_location,
                    old(self).current_target, old(self).fleeing, t, c, final(self).current_target, final(self).fleeing),
    {
        let size = self.map_settings.size;
        let radius = self.map_settings.bomb_radius;
        proof {
            lemma_wait_bomb_ok(*map, player_location, size, radius);
        }
        if size == 0 {
            return Command::Wait;
        }
        let mut tile_map = self.generate_tile_map(map, player_location);
        let ghost tm0 = tile_map;
        proof {
            lemma_built_placed(tm0, *map, player_location, size, radius);
            lemma_sbv_refl(tm0);
        }
        if let Some(current_tile) = tile_map.get(player_location) {
            if !current_tile.safe {
                self.fleeing = true;
                self.current_target = self.get_flee_location(&tile_map, current_tile);
            } else {
                self.fleeing = false;
            }
        }
        proof {
            if tile_at(tm0, player_location) is Some {
                lemma_placed(tm0, player_location);
            }
        }
        if self.current_target.is_none() {
            if tile_map.get(player_location).is_none() {
                proof {
                    assert(gz_round(tm0, tm0, map.bombs@, radius, player_location, old(self).current_target,
                        old(self).fleeing, player_location, Command::Wait, self.current_target, self.fleeing));
                }
                return Command::Wait;
            }
            let chosen = self.choose_coord_to_move_to(&mut tile_map, player_location);
            proof {
                assert(best_target(tm0, player_location, chosen));
            }
            self.current_target = Some(chosen);
        }
        assert(same_but_visits(tm0, tile_map));
        proof {
            lemma_sbv_placed(tm0, tile_map);
        }
        let target = self.current_target.unwrap();
        self.debug_info = Self::debug_text(target, self.fleeing);
        let ghost before_follow = *self;
        let (c, clear) = self.follow_target(&tile_map, map, player_location, target, self.fleeing, Ghost(tm0));
        if clear {
            self.current_target = None;
        }
        proof {
            if c == Command::PlaceBomb {
                lemma_built_tile(tm0, *map, player_location, size, radius, player_location);
            }
            assert(gz_round(tm0, tile_map, map.bombs@, radius, player_location, old(self).current_target,
                old(self).fleeing, target, c, self.current_target, self.fleeing));
        }
        c
    }

    fn get_debug_info(&self) -> (s: String)
        ensures
            s@ == self.debug_info@,
    {
        self.debug_info.clone()
    }
}

} // verus!
