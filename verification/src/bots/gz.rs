use vstd::prelude::*;
use crate::bomb::Bomb;
use crate::cell::CellType;
use crate::coord::Coord;
use crate::bots::fuzzy::neighbours_of;
use crate::text::{decimal, decimal_string};

pub use crate::bots::fuzzy::{get_command_to_move_to_coord, get_neighbour_coords};

verus! {

/// A tile as the gz bot sees it.
#[derive(Clone, Copy, Debug, PartialEq, Eq, Structural)]
pub struct Tile {
    pub coord: Coord,
    pub cell_type: CellType,
    pub visited: bool,
    pub safe: bool,
}

/// How the gz bot reads a character: walls, players, floor and destroyable blocks;
/// anything else counts as a wall.
pub open spec fn gz_cell_type(c: char) -> CellType {
    if c == 'P' {
        CellType::Player
    } else if c == ' ' {
        CellType::Empty
    } else if c == '.' {
        CellType::Destroyable
    } else {
        CellType::Wall
    }
}

/// The distance between two indices.
pub open spec fn index_gap(a: usize, b: usize) -> int {
    if a < b { b - a } else { a - b }
}

/// A bomb at `bomb` with reach `radius` covers `position`.
pub open spec fn gz_in_range(position: Coord, bomb: Coord, radius: usize) -> bool {
    ||| position == bomb
    ||| position.row == bomb.row && index_gap(position.col.0, bomb.col.0) <= radius
    ||| position.col == bomb.col && index_gap(position.row.0, bomb.row.0) <= radius
}

/// Standing on `position` after `steps` steps is safe from `bomb`: out of its reach,
/// or it goes off later.
pub open spec fn safe_from(position: Coord, steps: usize, bomb: Bomb, radius: usize) -> bool {
    !gz_in_range(position, bomb.position, radius) || bomb.timer > steps
}

/// Standing on `coord` after `steps` steps is safe from every bomb.
pub open spec fn safe_from_all(bombs: Seq<Bomb>, coord: Coord, steps: usize, radius: usize) -> bool {
    forall|i: int| 0 <= i < bombs.len() ==> #[trigger] safe_from(coord, steps, bombs[i], radius)
}

pub fn is_tile_in_bomb_range(position: Coord, bomb_position: Coord, radius: usize) -> (b: bool)
    ensures
        b == gz_in_range(position, bomb_position, radius),
{
    if position == bomb_position {
        return true;
    }
    if position.row == bomb_position.row {
        let gap = if position.col.get() < bomb_position.col.get() {
            bomb_position.col.get() - position.col.get()
        } else {
            position.col.get() - bomb_position.col.get()
        };
        if gap <= radius {
            return true;
        }
    }
    if position.col == bomb_position.col {
        let gap = if position.row.get() < bomb_position.row.get() {
            bomb_position.row.get() - position.row.get()
        } else {
            position.row.get() - bomb_position.row.get()
        };
        if gap <= radius {
            return true;
        }
    }
    false
}

pub fn get_cell_type(cell_value: &char) -> (t: CellType)
    ensures
        t == gz_cell_type(*cell_value),
{
    match cell_value {
        'W' => CellType::Wall,
        'P' => CellType::Player,
        ' ' => CellType::Empty,
        '.' => CellType::Destroyable,
        _ => CellType::Wall,
    }
}

/// Is a tile reached after `steps_to_reach_coord` steps safe from every bomb?
pub fn is_tile_currently_safe(bombs: &Vec<Bomb>, coord: Coord, steps_to_reach_coord: usize, radius: usize) -> (b: bool)
    ensures
        b == safe_from_all(bombs@, coord, steps_to_reach_coord, radius),
{
    if bombs.len() == 0 {
        return true;
    }
    for i in 0..bombs.len()
        invariant
            forall|j: int| 0 <= j < i ==> #[trigger] safe_from(coord, steps_to_reach_coord, bombs@[j], radius),
    {
        if !tile_current_safety_from_bomb(coord, steps_to_reach_coord, &bombs[i], radius) {
            return false;
        }
    }
    true
}

/// Is a tile reached after `steps_to_reach` steps safe from `bomb`?
pub fn tile_current_safety_from_bomb(position: Coord, steps_to_reach: usize, bomb: &Bomb, radius: usize) -> (b: bool)
    ensures
        b == safe_from(position, steps_to_reach, *bomb, radius),
{
    if !is_tile_in_bomb_range(position, bomb.position, radius) {
        return true;
    }
    if bomb.timer > steps_to_reach {
        return true;
    }
    false
}

impl Tile {
    pub fn visit(&mut self)
        ensures
            *final(self) == (Tile { visited: true, ..*old(self) }),
    {
        self.visited = true;
    }

    /// The tile's column and row: `col:row`.
    pub fn to_string(self) -> (s: String)
        ensures
            s@ == decimal(self.coord.col.0 as nat) + ":"@ + decimal(self.coord.row.0 as nat),
    {
        proof {
            reveal_strlit(":");
        }
        let mut s = decimal_string(self.coord.col.get());
        s.append(":");
        s.append(decimal_string(self.coord.row.get()).as_str());
        s
    }
}

/// The tiles of the board, row by row: `map[row][col]`.
pub struct TileMap {
    pub map: Vec<Vec<Tile>>,
}

/// `a` comes before `b`: by column, then by row.
pub open spec fn coord_before(a: Coord, b: Coord) -> bool {
    a.col.0 < b.col.0 || (a.col.0 == b.col.0 && a.row.0 < b.row.0)
}

/// `v` is in strictly increasing order of column, then row.
pub open spec fn coords_sorted(v: Seq<Coord>) -> bool {
    forall|i: int, j: int| 0 <= i < j < v.len() ==> coord_before(v[i], v[j])
}

/// Inserts `x` into `v` in order of column, then row, unless it is there already.
fn insert_coord(v: &mut Vec<Coord>, x: Coord)
    requires
        coords_sorted(old(v)@),
    ensures
        coords_sorted(final(v)@),
        forall|y: Coord| #[trigger] final(v)@.contains(y) <==> old(v)@.contains(y) || y == x,
{
    let mut i: usize = 0;
    while i < v.len() && (v[i].col.get() < x.col.get() || (v[i].col.get() == x.col.get() && v[i].row.get() < x.row.get()))
        invariant
            0 <= i <= v@.len(),
            coords_sorted(v@),
            v@ == old(v)@,
            forall|j: int| 0 <= j < i ==> coord_before(v@[j], x),
        decreases v@.len() - i,
    {
        i = i + 1;
    }
    if i < v.len() && v[i] == x {
        proof {
            assert(v@[i as int] == x);
        }
        return;
    }
    let ghost before = v@;
    v.insert(i, x);
    proof {
        assert forall|a: int, b: int| 0 <= a < b < v@.len() implies coord_before(v@[a], v@[b]) by {
            if a < i && b < i {
            } else if a < i && b == i {
            } else if a < i && b > i {
                assert(v@[b] == before[b - 1]);
                assert(coord_before(before[a], before[b - 1]));
            } else if a == i {
                assert(v@[b] == before[b - 1]);
                assert(i < before.len() ==> !coord_before(before[i as int], x) && before[i as int] != x);
                if b - 1 > i {
                    assert(coord_before(before[i as int], before[b - 1]));
                }
            } else {
                assert(v@[a] == before[a - 1] && v@[b] == before[b - 1]);
            }
        }
        assert forall|y: Coord| #[trigger] v@.contains(y) <==> before.contains(y) || y == x by {
            if v@.contains(y) {
                let k = choose|k: int| 0 <= k < v@.len() && v@[k] == y;
                if k < i {
                    assert(before[k] == y);
                } else if k > i {
                    assert(before[k - 1] == y);
                }
            }
            if before.contains(y) {
                let k = choose|k: int| 0 <= k < before.len() && before[k] == y;
                if k < i {
                    assert(v@[k] == y);
                } else {
                    assert(v@[k + 1] == y);
                }
            }
            if y == x {
                assert(v@[i as int] == x);
            }
        }
    }
}

/// The tile of `tm` at `c`, if the map has one there.
pub open spec fn tile_at(tm: TileMap, c: Coord) -> Option<Tile> {
    if c.row.0 < tm.map@.len() && c.col.0 < tm.map@[c.row.0 as int]@.len() {
        Some(tm.map@[c.row.0 as int]@[c.col.0 as int])
    } else {
        None
    }
}

/// `path` walks from `start` over empty tiles of `tm`, each step onto a neighbour, and
/// every tile is safe from every bomb at the step it is reached.
pub open spec fn safe_walk(tm: TileMap, bombs: Seq<Bomb>, radius: usize, start: Coord, path: Seq<Tile>) -> bool {
    forall|i: int| 0 <= i < path.len() ==> #[trigger] walk_step_ok(tm, bombs, radius, start, path, i)
}

/// Step `i` of `path` (from `start`): onto a neighbour, an empty tile of `tm` that is
/// safe from every bomb after `i + 1` steps.
pub open spec fn walk_step_ok(tm: TileMap, bombs: Seq<Bomb>, radius: usize, start: Coord, path: Seq<Tile>, i: int) -> bool {
    &&& tile_at(tm, path[i].coord) == Some(path[i])
    &&& path[i].cell_type == CellType::Empty
    &&& safe_from_all(bombs, path[i].coord, (i + 1) as usize, radius)
    &&& neighbours_of(if i == 0 { start } else { path[i - 1].coord }).contains(path[i].coord)
}

/// `a` has the shape of the tile map: as many rows, each as long.
pub open spec fn same_shape<T>(a: Seq<Vec<T>>, tm: TileMap) -> bool {
    &&& a.len() == tm.map@.len()
    &&& forall|r: int| 0 <= r < a.len() ==> (#[trigger] a[r])@.len() == tm.map@[r]@.len()
}

/// The entry of `a` for `c`.
pub open spec fn at<T>(a: Seq<Vec<T>>, c: Coord) -> T {
    a[c.row.0 as int]@[c.col.0 as int]
}

/// A table shaped like the tile map with `x` everywhere.
fn blank_like<T: Copy>(tm: &TileMap, x: T) -> (r: Vec<Vec<T>>)
    ensures
        same_shape(r@, *tm),
        forall|c: Coord| tile_at(*tm, c) is Some ==> #[trigger] at(r@, c) == x,
{
    let mut r: Vec<Vec<T>> = Vec::new();
    for q in 0..tm.map.len()
        invariant
            r@.len() == q,
            forall|p: int| 0 <= p < q ==> (#[trigger] r@[p])@.len() == tm.map@[p]@.len(),
            forall|p: int, k: int| 0 <= p < q && 0 <= k < r@[p]@.len() ==> #[trigger] r@[p]@[k] == x,
    {
        let mut row: Vec<T> = Vec::new();
        let width = tm.map[q].len();
        for k in 0..width
            invariant
                row@.len() == k,
                forall|j: int| 0 <= j < k ==> #[trigger] row@[j] == x,
        {
            row.push(x);
        }
        r.push(row);
    }
    proof {
        assert forall|c: Coord| tile_at(*tm, c) is Some implies #[trigger] at(r@, c) == x by {
            assert(r@[c.row.0 as int]@[c.col.0 as int] == x);
        }
    }
    r
}

/// Sets the entry of `a` for `c`.
fn set_at<T: Copy>(a: &mut Vec<Vec<T>>, c: Coord, x: T)
    requires
        c.row.0 < old(a)@.len(),
        c.col.0 < old(a)@[c.row.0 as int]@.len(),
    ensures
        final(a)@.len() == old(a)@.len(),
        forall|r: int| 0 <= r < old(a)@.len() ==> (#[trigger] final(a)@[r])@.len() == old(a)@[r]@.len(),
        forall|d: Coord| d.row.0 < old(a)@.len() && d.col.0 < old(a)@[d.row.0 as int]@.len()
            ==> #[trigger] at(final(a)@, d) == if d == c { x } else { at(old(a)@, d) },
{
    let r = c.row.get();
    let mut row: Vec<T> = Vec::new();
    let width = a[r].len();
    for k in 0..width
        invariant
            width == a@[r as int]@.len(),
            r == c.row.0,
            r < a@.len(),
            row@ == a@[r as int]@.take(k as int),
    {
        row.push(a[r][k]);
        proof {
            assert(row@ =~= a@[r as int]@.take(k + 1));
        }
    }
    proof {
        assert(row@ =~= a@[r as int]@);
    }
    row.set(c.col.get(), x);
    let ghost before = a@;
    a.set(r, row);
    proof {
        assert forall|d: Coord| d.row.0 < before.len() && d.col.0 < before[d.row.0 as int]@.len()
            implies #[trigger] at(a@, d) == if d == c { x } else { at(before, d) } by {
            if d.row.0 == r {
                if d.col.0 != c.col.0 {
                    assert(at(a@, d) == at(before, d));
                }
            }
        }
    }
}

/// Every tile of `tm` records the place where it lies.
pub open spec fn tiles_placed(tm: TileMap) -> bool {
    forall|r: int, c: int| 0 <= r < tm.map@.len() && 0 <= c < tm.map@[r]@.len()
        ==> (#[trigger] tm.map@[r]@[c]).coord.row.0 == r && tm.map@[r]@[c].coord.col.0 == c
}

pub proof fn lemma_placed(tm: TileMap, c: Coord)
    requires
        tiles_placed(tm),
        tile_at(tm, c) is Some,
    ensures
        tile_at(tm, c).unwrap().coord == c,
{
    let t = tm.map@[c.row.0 as int]@[c.col.0 as int];
    assert(t.coord.row == c.row);
    assert(t.coord.col == c.col);
}

/// Every reached tile other than `s` is empty floor, safe at the step it is reached, and
/// one step further than the tile it was reached from, a reached neighbour.
#[verifier::opaque]
pub open spec fn parents_ok(tm: TileMap, dist: Seq<Vec<i32>>, came: Seq<Vec<Option<Coord>>>, s: Coord,
    bombs: Seq<Bomb>, radius: usize) -> bool {
    forall|c: Coord| #![trigger at(dist, c)] tile_at(tm, c) is Some && at(dist, c) != i32::MAX && c != s ==> {
        &&& at(came, c) matches Some(p) && tile_at(tm, p) is Some && at(dist, p) != i32::MAX
            && at(dist, p) + 1 == at(dist, c) && neighbours_of(p).contains(c)
        &&& tile_at(tm, c).unwrap().cell_type == CellType::Empty
        &&& safe_from_all(bombs, c, at(dist, c) as usize, radius)
        &&& at(dist, c) >= 1
    }
}

/// Every reached tile is at most `bound` steps away.
#[verifier::opaque]
pub open spec fn reached_within(tm: TileMap, dist: Seq<Vec<i32>>, bound: int) -> bool {
    forall|c: Coord| #![trigger at(dist, c)] tile_at(tm, c) is Some && at(dist, c) != i32::MAX ==> 0 <= at(dist, c) <= bound
}

/// Every place in `v` is on the map and `cost` steps away.
#[verifier::opaque]
pub open spec fn all_at(tm: TileMap, dist: Seq<Vec<i32>>, v: Seq<Coord>, cost: int) -> bool {
    forall|k: int| 0 <= k < v.len() ==> tile_at(tm, #[trigger] v[k]) is Some && at(dist, v[k]) == cost
}

proof fn lemma_parent(tm: TileMap, dist: Seq<Vec<i32>>, came: Seq<Vec<Option<Coord>>>, s: Coord,
    bombs: Seq<Bomb>, radius: usize, c: Coord)
    requires
        parents_ok(tm, dist, came, s, bombs, radius),
        tile_at(tm, c) is Some,
        at(dist, c) != i32::MAX,
        c != s,
    ensures
        at(came, c) matches Some(p) && tile_at(tm, p) is Some && at(dist, p) != i32::MAX
            && at(dist, p) + 1 == at(dist, c) && neighbours_of(p).contains(c),
        tile_at(tm, c).unwrap().cell_type == CellType::Empty,
        safe_from_all(bombs, c, at(dist, c) as usize, radius),
        at(dist, c) >= 1,
{
    reveal(parents_ok);
}

proof fn lemma_all_at(tm: TileMap, dist: Seq<Vec<i32>>, v: Seq<Coord>, cost: int, k: int)
    requires
        all_at(tm, dist, v, cost),
        0 <= k < v.len(),
    ensures
        tile_at(tm, v[k]) is Some,
        at(dist, v[k]) == cost,
{
    reveal(all_at);
}

/// Reaching `nc` from `current` in one more step keeps the search state sound.
proof fn lemma_relax(tm: TileMap, d0: Seq<Vec<i32>>, c0: Seq<Vec<Option<Coord>>>, d1: Seq<Vec<i32>>,
    c1: Seq<Vec<Option<Coord>>>, s: Coord, bombs: Seq<Bomb>, radius: usize, cost: i32, current: Coord,
    nc: Coord, layer: Seq<Coord>, n0: Seq<Coord>, n1: Seq<Coord>)
    requires
        same_shape(d0, tm),
        same_shape(c0, tm),
        0 <= cost < i32::MAX - 1,
        parents_ok(tm, d0, c0, s, bombs, radius),
        reached_within(tm, d0, cost + 1),
        all_at(tm, d0, layer, cost as int),
        all_at(tm, d0, n0, cost + 1),
        tile_at(tm, current) is Some,
        at(d0, current) == cost,
        neighbours_of(current).contains(nc),
        tile_at(tm, nc) is Some,
        tile_at(tm, nc).unwrap().cell_type == CellType::Empty,
        safe_from_all(bombs, nc, (cost + 1) as usize, radius),
        cost + 1 < at(d0, nc),
        nc != s,
        forall|d: Coord| d.row.0 < d0.len() && d.col.0 < d0[d.row.0 as int]@.len()
            ==> #[trigger] at(d1, d) == if d == nc { (cost + 1) as i32 } else { at(d0, d) },
        forall|d: Coord| d.row.0 < c0.len() && d.col.0 < c0[d.row.0 as int]@.len()
            ==> #[trigger] at(c1, d) == if d == nc { Some(current) } else { at(c0, d) },
        forall|y: Coord| #[trigger] n1.contains(y) <==> n0.contains(y) || y == nc,
    ensures
        parents_ok(tm, d1, c1, s, bombs, radius),
        reached_within(tm, d1, cost + 1),
        all_at(tm, d1, layer, cost as int),
        all_at(tm, d1, n1, cost + 1),
{
    reveal(parents_ok);
    reveal(reached_within);
    reveal(all_at);
    assert forall|d: Coord| #![trigger at(d1, d)] #![trigger at(c1, d)] tile_at(tm, d) is Some implies
        at(d1, d) == (if d == nc { (cost + 1) as i32 } else { at(d0, d) })
        && at(c1, d) == (if d == nc { Some(current) } else { at(c0, d) }) by {
        assert(d0[d.row.0 as int]@.len() == tm.map@[d.row.0 as int]@.len());
        assert(c0[d.row.0 as int]@.len() == tm.map@[d.row.0 as int]@.len());
    }
    assert forall|q: int| 0 <= q < layer.len() implies tile_at(tm, #[trigger] layer[q]) is Some
        && at(d1, layer[q]) == cost by {
        assert(at(d0, layer[q]) == cost);
    }
    assert forall|q: int| 0 <= q < n1.len() implies tile_at(tm, #[trigger] n1[q]) is Some
        && at(d1, n1[q]) == cost + 1 by {
        assert(n1.contains(n1[q]));
        if n1[q] != nc {
            assert(n0.contains(n1[q]));
            let q0 = choose|q0: int| 0 <= q0 < n0.len() && n0[q0] == n1[q];
            assert(tile_at(tm, n0[q0]) is Some && at(d0, n0[q0]) == cost + 1);
        }
    }
    assert forall|c: Coord| #![trigger at(d1, c)] tile_at(tm, c) is Some && at(d1, c) != i32::MAX && c != s implies {
        &&& at(c1, c) matches Some(p) && tile_at(tm, p) is Some && at(d1, p) != i32::MAX
            && at(d1, p) + 1 == at(d1, c) && neighbours_of(p).contains(c)
        &&& tile_at(tm, c).unwrap().cell_type == CellType::Empty
        &&& safe_from_all(bombs, c, at(d1, c) as usize, radius)
        &&& at(d1, c) >= 1
    } by {
        if c != nc {
            assert(at(d0, c) != i32::MAX);
            let p = at(c0, c).unwrap();
            assert(at(d1, p) == at(d0, p)) by {
                if p == nc {
                    assert(at(d0, nc) > cost + 1);
                    assert(false);
                }
            }
        } else {
            assert(at(d1, current) == at(d0, current));
        }
    }
    assert forall|c: Coord| #![trigger at(d1, c)] tile_at(tm, c) is Some && at(d1, c) != i32::MAX
        implies 0 <= at(d1, c) <= cost + 1 by {
        if c != nc {
            assert(at(d0, c) != i32::MAX);
        }
    }
}

/// The first search layer: only `s` reached, at no cost.
proof fn lemma_search_start(tm: TileMap, d0: Seq<Vec<i32>>, d1: Seq<Vec<i32>>, came: Seq<Vec<Option<Coord>>>,
    s: Coord, bombs: Seq<Bomb>, radius: usize)
    requires
        same_shape(d0, tm),
        tile_at(tm, s) is Some,
        forall|c: Coord| tile_at(tm, c) is Some ==> #[trigger] at(d0, c) == i32::MAX,
        forall|d: Coord| d.row.0 < d0.len() && d.col.0 < d0[d.row.0 as int]@.len()
            ==> #[trigger] at(d1, d) == if d == s { 0i32 } else { at(d0, d) },
    ensures
        at(d1, s) == 0,
        parents_ok(tm, d1, came, s, bombs, radius),
        reached_within(tm, d1, 0),
        all_at(tm, d1, seq![s], 0),
        complete_at(tm, d1, seq![s], 0),
{
    reveal(parents_ok);
    reveal(reached_within);
    reveal(all_at);
    reveal(complete_at);
    assert forall|d: Coord| #![trigger at(d1, d)] tile_at(tm, d) is Some implies
        at(d1, d) == (if d == s { 0i32 } else { i32::MAX }) by {
        assert(d0[d.row.0 as int]@.len() == tm.map@[d.row.0 as int]@.len());
        assert(at(d0, d) == i32::MAX);
    }
    assert(seq![s][0] == s);
    assert forall|c: Coord| #![trigger at(d1, c)] tile_at(tm, c) is Some && at(d1, c) == 0 implies seq![s].contains(c) by {
        assert(seq![s][0] == c);
    }
}

/// Safety only wears off: a tile safe after `t2` steps is safe after fewer.
proof fn lemma_safe_earlier(bombs: Seq<Bomb>, c: Coord, t1: usize, t2: usize, radius: usize)
    requires
        safe_from_all(bombs, c, t2, radius),
        t1 <= t2,
    ensures
        safe_from_all(bombs, c, t1, radius),
{
    assert forall|i: int| 0 <= i < bombs.len() implies #[trigger] safe_from(c, t1, bombs[i], radius) by {
        assert(safe_from(c, t2, bombs[i], radius));
    }
}

/// Every empty neighbour of `y` that is safe one step after `y` is reached has been
/// reached, at most one step further.
pub open spec fn expanded(tm: TileMap, dist: Seq<Vec<i32>>, bombs: Seq<Bomb>, radius: usize, y: Coord) -> bool {
    forall|j: int| 0 <= j < neighbours_of(y).len() ==> (
        tile_at(tm, #[trigger] neighbours_of(y)[j]) is Some
        && tile_at(tm, neighbours_of(y)[j]).unwrap().cell_type == CellType::Empty
        && safe_from_all(bombs, neighbours_of(y)[j], (at(dist, y) + 1) as usize, radius)
        ==> at(dist, neighbours_of(y)[j]) != i32::MAX && at(dist, neighbours_of(y)[j]) <= at(dist, y) + 1)
}

/// Every tile reached in fewer than `bound` steps has been expanded.
#[verifier::opaque]
pub open spec fn expanded_below(tm: TileMap, dist: Seq<Vec<i32>>, bombs: Seq<Bomb>, radius: usize, bound: int) -> bool {
    forall|y: Coord| #![trigger at(dist, y)] tile_at(tm, y) is Some && at(dist, y) != i32::MAX && at(dist, y) < bound
        ==> expanded(tm, dist, bombs, radius, y)
}

/// Every tile reached in exactly `cost` steps is in `v`.
#[verifier::opaque]
pub open spec fn complete_at(tm: TileMap, dist: Seq<Vec<i32>>, v: Seq<Coord>, cost: int) -> bool {
    forall|c: Coord| #![trigger at(dist, c)] tile_at(tm, c) is Some && at(dist, c) == cost ==> v.contains(c)
}

/// From `d0` to `d1` only tiles further than `cost + 1` steps (or not reached) changed,
/// and they became `cost + 1` steps away.
#[verifier::opaque]
pub open spec fn relaxed_from(tm: TileMap, d0: Seq<Vec<i32>>, d1: Seq<Vec<i32>>, cost: int) -> bool {
    forall|c: Coord| #![trigger at(d1, c)] tile_at(tm, c) is Some ==> {
        &&& at(d1, c) <= at(d0, c)
        &&& at(d0, c) <= cost + 1 ==> at(d1, c) == at(d0, c)
        &&& at(d1, c) != at(d0, c) ==> at(d1, c) == cost + 1
    }
}

proof fn lemma_relaxed_refl(tm: TileMap, d: Seq<Vec<i32>>, cost: int)
    ensures
        relaxed_from(tm, d, d, cost),
{
    reveal(relaxed_from);
}

proof fn lemma_relaxed_trans(tm: TileMap, d0: Seq<Vec<i32>>, d1: Seq<Vec<i32>>, d2: Seq<Vec<i32>>, cost: int)
    requires
        relaxed_from(tm, d0, d1, cost),
        relaxed_from(tm, d1, d2, cost),
    ensures
        relaxed_from(tm, d0, d2, cost),
{
    reveal(relaxed_from);
    assert forall|c: Coord| #![trigger at(d2, c)] tile_at(tm, c) is Some implies {
        &&& at(d2, c) <= at(d0, c)
        &&& at(d0, c) <= cost + 1 ==> at(d2, c) == at(d0, c)
        &&& at(d2, c) != at(d0, c) ==> at(d2, c) == cost + 1
    } by {
        assert(at(d1, c) <= at(d0, c));
    }
}

/// Expansion of a tile at most `cost` steps away survives a relaxation.
proof fn lemma_expanded_stable(tm: TileMap, d0: Seq<Vec<i32>>, d1: Seq<Vec<i32>>, bombs: Seq<Bomb>, radius: usize,
    cost: int, y: Coord)
    requires
        relaxed_from(tm, d0, d1, cost),
        tile_at(tm, y) is Some,
        at(d0, y) <= cost,
        expanded(tm, d0, bombs, radius, y),
    ensures
        expanded(tm, d1, bombs, radius, y),
{
    reveal(relaxed_from);
    assert(at(d1, y) == at(d0, y));
    assert forall|j: int| 0 <= j < neighbours_of(y).len()
        && tile_at(tm, #[trigger] neighbours_of(y)[j]) is Some
        && tile_at(tm, neighbours_of(y)[j]).unwrap().cell_type == CellType::Empty
        && safe_from_all(bombs, neighbours_of(y)[j], (at(d1, y) + 1) as usize, radius)
        implies at(d1, neighbours_of(y)[j]) != i32::MAX && at(d1, neighbours_of(y)[j]) <= at(d1, y) + 1 by {
        let x = neighbours_of(y)[j];
        assert(at(d1, x) <= at(d0, x));
    }
}

/// The expansion and layer of a search survive a relaxation of that layer.
proof fn lemma_layer_stable_core(tm: TileMap, d0: Seq<Vec<i32>>, d1: Seq<Vec<i32>>, bombs: Seq<Bomb>, radius: usize,
    cost: int, layer: Seq<Coord>)
    requires
        relaxed_from(tm, d0, d1, cost),
        expanded_below(tm, d0, bombs, radius, cost),
        complete_at(tm, d0, layer, cost),
    ensures
        expanded_below(tm, d1, bombs, radius, cost),
        complete_at(tm, d1, layer, cost),
{
    reveal(expanded_below);
    reveal(complete_at);
    reveal(relaxed_from);
    assert forall|y: Coord| #![trigger at(d1, y)] tile_at(tm, y) is Some && at(d1, y) != i32::MAX && at(d1, y) < cost
        implies expanded(tm, d1, bombs, radius, y) by {
        assert(at(d1, y) == at(d0, y));
        lemma_expanded_stable(tm, d0, d1, bombs, radius, cost, y);
    }
    assert forall|c: Coord| #![trigger at(d1, c)] tile_at(tm, c) is Some && at(d1, c) == cost implies layer.contains(c) by {
        assert(at(d0, c) == cost);
    }
}

/// Once every tile of the layer at `cost` is expanded, every tile below `cost + 1` is.
proof fn lemma_layer_done_core(tm: TileMap, dist: Seq<Vec<i32>>, bombs: Seq<Bomb>, radius: usize, cost: int,
    layer: Seq<Coord>)
    requires
        expanded_below(tm, dist, bombs, radius, cost),
        complete_at(tm, dist, layer, cost),
        forall|q: int| 0 <= q < layer.len() ==> expanded(tm, dist, bombs, radius, #[trigger] layer[q]),
    ensures
        expanded_below(tm, dist, bombs, radius, cost + 1),
{
    reveal(expanded_below);
    reveal(complete_at);
    assert forall|y: Coord| #![trigger at(dist, y)] tile_at(tm, y) is Some && at(dist, y) != i32::MAX && at(dist, y) < cost + 1
        implies expanded(tm, dist, bombs, radius, y) by {
        if at(dist, y) == cost {
            assert(layer.contains(y));
            let q = choose|q: int| 0 <= q < layer.len() && layer[q] == y;
            assert(expanded(tm, dist, bombs, radius, layer[q]));
        }
    }
}

/// The search state at a layer survives a relaxation of that layer.
proof fn lemma_layer_stable(tm: TileMap, d0: Seq<Vec<i32>>, d1: Seq<Vec<i32>>, bombs: Seq<Bomb>, radius: usize,
    cost: int, layer: Seq<Coord>, goal: Coord)
    requires
        relaxed_from(tm, d0, d1, cost),
        expanded_below(tm, d0, bombs, radius, cost),
        complete_at(tm, d0, layer, cost),
        tile_at(tm, goal) is Some ==> at(d0, goal) == i32::MAX || at(d0, goal) >= cost,
    ensures
        expanded_below(tm, d1, bombs, radius, cost),
        complete_at(tm, d1, layer, cost),
        tile_at(tm, goal) is Some ==> at(d1, goal) == i32::MAX || at(d1, goal) >= cost,
{
    reveal(expanded_below);
    reveal(complete_at);
    reveal(relaxed_from);
    assert forall|y: Coord| #![trigger at(d1, y)] tile_at(tm, y) is Some && at(d1, y) != i32::MAX && at(d1, y) < cost
        implies expanded(tm, d1, bombs, radius, y) by {
        assert(at(d1, y) == at(d0, y));
        lemma_expanded_stable(tm, d0, d1, bombs, radius, cost, y);
    }
    assert forall|c: Coord| #![trigger at(d1, c)] tile_at(tm, c) is Some && at(d1, c) == cost implies layer.contains(c) by {
        assert(at(d0, c) == cost);
    }
}

/// Once every tile of the layer at `cost` is expanded, every tile below `cost + 1` is.
proof fn lemma_layer_done(tm: TileMap, dist: Seq<Vec<i32>>, bombs: Seq<Bomb>, radius: usize, cost: int,
    layer: Seq<Coord>, goal: Coord)
    requires
        expanded_below(tm, dist, bombs, radius, cost),
        complete_at(tm, dist, layer, cost),
        forall|q: int| 0 <= q < layer.len() ==> expanded(tm, dist, bombs, radius, #[trigger] layer[q]),
        forall|q: int| 0 <= q < layer.len() ==> #[trigger] layer[q] != goal,
        tile_at(tm, goal) is Some ==> at(dist, goal) == i32::MAX || at(dist, goal) >= cost,
    ensures
        expanded_below(tm, dist, bombs, radius, cost + 1),
        tile_at(tm, goal) is Some ==> at(dist, goal) == i32::MAX || at(dist, goal) >= cost + 1,
{
    reveal(expanded_below);
    reveal(complete_at);
    assert forall|y: Coord| #![trigger at(dist, y)] tile_at(tm, y) is Some && at(dist, y) != i32::MAX && at(dist, y) < cost + 1
        implies expanded(tm, dist, bombs, radius, y) by {
        if at(dist, y) == cost {
            assert(layer.contains(y));
            let q = choose|q: int| 0 <= q < layer.len() && layer[q] == y;
            assert(expanded(tm, dist, bombs, radius, layer[q]));
        }
    }
    if tile_at(tm, goal) is Some && at(dist, goal) == cost {
        assert(layer.contains(goal));
        let q = choose|q: int| 0 <= q < layer.len() && layer[q] == goal;
        assert(layer[q] != goal);
    }
}

proof fn lemma_walk_prefix(tm: TileMap, bombs: Seq<Bomb>, radius: usize, s: Coord, path: Seq<Tile>)
    requires
        safe_walk(tm, bombs, radius, s, path),
        path.len() > 0,
    ensures
        safe_walk(tm, bombs, radius, s, path.drop_last()),
{
    let prefix = path.drop_last();
    assert forall|i: int| 0 <= i < prefix.len() implies #[trigger] walk_step_ok(tm, bombs, radius, s, prefix, i) by {
        assert(walk_step_ok(tm, bombs, radius, s, path, i));
        assert(prefix[i] == path[i]);
        if i > 0 {
            assert(prefix[i - 1] == path[i - 1]);
        }
    }
}

/// The last step of a safe walk, with the tile it starts from.
proof fn lemma_walk_last(tm: TileMap, bombs: Seq<Bomb>, radius: usize, s: Coord, path: Seq<Tile>)
    requires
        safe_walk(tm, bombs, radius, s, path),
        path.len() > 0,
    ensures
        ({
            let n = path.len() - 1;
            let y = if n == 0 { s } else { path[n - 1].coord };
            &&& tile_at(tm, path[n].coord) == Some(path[n])
            &&& path[n].cell_type == CellType::Empty
            &&& safe_from_all(bombs, path[n].coord, (n + 1) as usize, radius)
            &&& neighbours_of(y).contains(path[n].coord)
            &&& n > 0 ==> tile_at(tm, path[n - 1].coord) == Some(path[n - 1])
        }),
{
    let n = path.len() - 1;
    assert(walk_step_ok(tm, bombs, radius, s, path, n));
    if n > 0 {
        assert(walk_step_ok(tm, bombs, radius, s, path, n - 1));
    }
}

proof fn lemma_nonneg(tm: TileMap, dist: Seq<Vec<i32>>, bound: int)
    requires
        reached_within(tm, dist, bound),
    ensures
        forall|c: Coord| #![trigger at(dist, c)] tile_at(tm, c) is Some && at(dist, c) != i32::MAX
            ==> 0 <= at(dist, c) <= bound,
{
    reveal(reached_within);
}

proof fn lemma_search_origin(tm: TileMap, dist: Seq<Vec<i32>>, bombs: Seq<Bomb>, radius: usize, cost: int)
    requires
        reached_within(tm, dist, cost),
        cost + 1 < i32::MAX,
    ensures
        expanded_below(tm, dist, bombs, radius, 0),
        complete_at(tm, dist, Seq::<Coord>::empty(), cost + 1),
{
    reveal(reached_within);
    reveal(expanded_below);
    reveal(complete_at);
    assert forall|y: Coord| #![trigger at(dist, y)] tile_at(tm, y) is Some && at(dist, y) != i32::MAX && at(dist, y) < 0
        implies expanded(tm, dist, bombs, radius, y) by {
        assert(0 <= at(dist, y));
    }
    assert forall|c: Coord| #![trigger at(dist, c)] tile_at(tm, c) is Some && at(dist, c) == cost + 1
        implies Seq::<Coord>::empty().contains(c) by {
        assert(at(dist, c) <= cost);
    }
}

/// Reaching `nc` in `cost + 1` steps, and adding it to the next layer, is a relaxation
/// that keeps the next layer complete.
proof fn lemma_relax_step(tm: TileMap, d0: Seq<Vec<i32>>, d1: Seq<Vec<i32>>, n0: Seq<Coord>, n1: Seq<Coord>,
    nc: Coord, cost: int)
    requires
        same_shape(d0, tm),
        tile_at(tm, nc) is Some,
        0 <= cost < i32::MAX - 1,
        cost + 1 < at(d0, nc),
        forall|d: Coord| d.row.0 < d0.len() && d.col.0 < d0[d.row.0 as int]@.len()
            ==> #[trigger] at(d1, d) == if d == nc { (cost + 1) as i32 } else { at(d0, d) },
        forall|y: Coord| #[trigger] n1.contains(y) <==> n0.contains(y) || y == nc,
        complete_at(tm, d0, n0, cost + 1),
    ensures
        relaxed_from(tm, d0, d1, cost),
        complete_at(tm, d1, n1, cost + 1),
{
    reveal(relaxed_from);
    reveal(complete_at);
    assert forall|d: Coord| #![trigger at(d1, d)] tile_at(tm, d) is Some implies
        at(d1, d) == (if d == nc { (cost + 1) as i32 } else { at(d0, d) }) by {
        assert(d0[d.row.0 as int]@.len() == tm.map@[d.row.0 as int]@.len());
    }
    assert forall|c: Coord| #![trigger at(d1, c)] tile_at(tm, c) is Some && at(d1, c) == cost + 1 implies n1.contains(c) by {
        if c != nc {
            assert(at(d0, c) == cost + 1);
            assert(n0.contains(c));
        }
    }
}

/// The walk the recorded steps give from `s` to `c`: as many steps as `c` is away.
proof fn path_to(tm: TileMap, dist: Seq<Vec<i32>>, came: Seq<Vec<Option<Coord>>>, s: Coord, bombs: Seq<Bomb>,
    radius: usize, c: Coord) -> (path: Seq<Tile>)
    requires
        tiles_placed(tm),
        parents_ok(tm, dist, came, s, bombs, radius),
        at(dist, s) == 0,
        tile_at(tm, c) is Some,
        at(dist, c) != i32::MAX,
        0 <= at(dist, c),
    ensures
        safe_walk(tm, bombs, radius, s, path),
        path.len() == at(dist, c),
        path.len() == 0 ==> c == s,
        path.len() > 0 ==> path.last().coord == c,
    decreases at(dist, c),
{
    if c == s {
        Seq::empty()
    } else {
        lemma_parent(tm, dist, came, s, bombs, radius, c);
        let p = at(came, c).unwrap();
        let prefix = path_to(tm, dist, came, s, bombs, radius, p);
        lemma_placed(tm, c);
        let t = tile_at(tm, c).unwrap();
        let path = prefix.push(t);
        assert forall|i: int| 0 <= i < path.len() implies #[trigger] walk_step_ok(tm, bombs, radius, s, path, i) by {
            if i < prefix.len() {
                assert(walk_step_ok(tm, bombs, radius, s, prefix, i));
                assert(path[i] == prefix[i]);
                if i > 0 {
                    assert(path[i - 1] == prefix[i - 1]);
                }
            } else {
                assert(path[i] == t);
                if i > 0 {
                    assert(path[i - 1] == prefix.last());
                }
            }
        }
        path
    }
}

/// A safe walk of at most `cost` steps (or of any length, once no reached tile is `cost`
/// or more steps away) ends on a reached tile no further than its length.
proof fn lemma_walk_reached(tm: TileMap, dist: Seq<Vec<i32>>, bombs: Seq<Bomb>, radius: usize, s: Coord,
    path: Seq<Tile>, cost: int, all: bool)
    requires
        at(dist, s) == 0,
        tile_at(tm, s) is Some,
        0 <= cost,
        expanded_below(tm, dist, bombs, radius, cost),
        safe_walk(tm, bombs, radius, s, path),
        path.len() <= i32::MAX,
        forall|c: Coord| #![trigger at(dist, c)] tile_at(tm, c) is Some && at(dist, c) != i32::MAX ==> at(dist, c) >= 0,
        all ==> forall|c: Coord| #![trigger at(dist, c)] tile_at(tm, c) is Some && at(dist, c) != i32::MAX ==> at(dist, c) < cost,
        !all ==> path.len() <= cost,
    ensures
        path.len() > 0 ==> at(dist, path.last().coord) != i32::MAX && at(dist, path.last().coord) <= path.len(),
    decreases path.len(),
{
    if path.len() > 0 {
        let prefix = path.drop_last();
        lemma_walk_prefix(tm, bombs, radius, s, path);
        lemma_walk_reached(tm, dist, bombs, radius, s, prefix, cost, all);
        lemma_walk_last(tm, bombs, radius, s, path);
        let n = path.len() - 1;
        let y = if n == 0 { s } else { path[n - 1].coord };
        let x = path[n].coord;
        if n > 0 {
            assert(prefix.last() == path[n - 1]);
        }
        assert(tile_at(tm, y) is Some);
        assert(at(dist, y) != i32::MAX && at(dist, y) <= n);
        assert(at(dist, y) < cost);
        assert(expanded(tm, dist, bombs, radius, y)) by {
            reveal(expanded_below);
        }
        assert(safe_from_all(bombs, x, (n + 1) as usize, radius));
        lemma_safe_earlier(bombs, x, (at(dist, y) + 1) as usize, (n + 1) as usize, radius);
        let j = choose|j: int| 0 <= j < neighbours_of(y).len() && neighbours_of(y)[j] == x;
        assert(neighbours_of(y)[j] == x);
    }
}

/// No tile reached in fewer than `cost` steps is marked safe.
#[verifier::opaque]
pub open spec fn no_safe_below(tm: TileMap, dist: Seq<Vec<i32>>, cost: int) -> bool {
    forall|c: Coord| #![trigger at(dist, c)] tile_at(tm, c) is Some && at(dist, c) != i32::MAX && at(dist, c) < cost
        ==> !tile_at(tm, c).unwrap().safe
}

/// `q` walks from `s` to `c`: the empty walk stays on `s`.
pub open spec fn walk_ends_at(s: Coord, q: Seq<Tile>, c: Coord) -> bool {
    if q.len() == 0 { c == s } else { q.last().coord == c }
}

/// The search state of a nearest-safe-tile search survives a relaxation of its layer.
proof fn lemma_layer_stable_safe(tm: TileMap, d0: Seq<Vec<i32>>, d1: Seq<Vec<i32>>, bombs: Seq<Bomb>, radius: usize,
    cost: int, layer: Seq<Coord>)
    requires
        relaxed_from(tm, d0, d1, cost),
        expanded_below(tm, d0, bombs, radius, cost),
        complete_at(tm, d0, layer, cost),
        no_safe_below(tm, d0, cost),
    ensures
        expanded_below(tm, d1, bombs, radius, cost),
        complete_at(tm, d1, layer, cost),
        no_safe_below(tm, d1, cost),
{
    reveal(expanded_below);
    reveal(complete_at);
    reveal(relaxed_from);
    reveal(no_safe_below);
    assert forall|y: Coord| #![trigger at(d1, y)] tile_at(tm, y) is Some && at(d1, y) != i32::MAX && at(d1, y) < cost
        implies expanded(tm, d1, bombs, radius, y) by {
        assert(at(d1, y) == at(d0, y));
        lemma_expanded_stable(tm, d0, d1, bombs, radius, cost, y);
    }
    assert forall|c: Coord| #![trigger at(d1, c)] tile_at(tm, c) is Some && at(d1, c) == cost implies layer.contains(c) by {
        assert(at(d0, c) == cost);
    }
    assert forall|c: Coord| #![trigger at(d1, c)] tile_at(tm, c) is Some && at(d1, c) != i32::MAX && at(d1, c) < cost
        implies !tile_at(tm, c).unwrap().safe by {
        assert(at(d1, c) == at(d0, c));
    }
}

/// Once every tile of the layer at `cost` is expanded and found unsafe, the search
/// state holds one step further.
proof fn lemma_layer_done_safe(tm: TileMap, dist: Seq<Vec<i32>>, bombs: Seq<Bomb>, radius: usize, cost: int,
    layer: Seq<Coord>)
    requires
        expanded_below(tm, dist, bombs, radius, cost),
        complete_at(tm, dist, layer, cost),
        no_safe_below(tm, dist, cost),
        forall|q: int| 0 <= q < layer.len() ==> expanded(tm, dist, bombs, radius, #[trigger] layer[q]),
        forall|q: int| 0 <= q < layer.len() ==> tile_at(tm, #[trigger] layer[q]) is Some
            && !tile_at(tm, layer[q]).unwrap().safe,
    ensures
        expanded_below(tm, dist, bombs, radius, cost + 1),
        no_safe_below(tm, dist, cost + 1),
{
    reveal(expanded_below);
    reveal(complete_at);
    reveal(no_safe_below);
    assert forall|y: Coord| #![trigger at(dist, y)] tile_at(tm, y) is Some && at(dist, y) != i32::MAX && at(dist, y) < cost + 1
        implies expanded(tm, dist, bombs, radius, y) by {
        if at(dist, y) == cost {
            assert(layer.contains(y));
            let q = choose|q: int| 0 <= q < layer.len() && layer[q] == y;
            assert(expanded(tm, dist, bombs, radius, layer[q]));
        }
    }
    assert forall|c: Coord| #![trigger at(dist, c)] tile_at(tm, c) is Some && at(dist, c) != i32::MAX && at(dist, c) < cost + 1
        implies !tile_at(tm, c).unwrap().safe by {
        if at(dist, c) == cost {
            assert(layer.contains(c));
            let q = choose|q: int| 0 <= q < layer.len() && layer[q] == c;
            assert(!tile_at(tm, layer[q]).unwrap().safe);
        }
    }
}

/// Step `i` of the floor walk `cs` from `s`: onto an empty tile of `tm` next to the
/// place before.
pub open spec fn floor_step(tm: TileMap, s: Coord, cs: Seq<Coord>, i: int) -> bool {
    &&& tile_at(tm, cs[i]) is Some
    &&& tile_at(tm, cs[i]).unwrap().cell_type == CellType::Empty
    &&& neighbours_of(if i == 0 { s } else { cs[i - 1] }).contains(cs[i])
}

/// `cs` walks from `s` over empty floor of `tm`, each step onto a neighbour.
pub open spec fn floor_walk(tm: TileMap, s: Coord, cs: Seq<Coord>) -> bool {
    forall|i: int| 0 <= i < cs.len() ==> #[trigger] floor_step(tm, s, cs, i)
}

/// `cs` ends on `c`; the empty walk stays on `s`.
pub open spec fn floor_ends_at(s: Coord, cs: Seq<Coord>, c: Coord) -> bool {
    if cs.len() == 0 { c == s } else { cs.last() == c }
}

/// `d` is the fewest steps of a floor walk from `s` to `c`.
pub open spec fn floor_distance(tm: TileMap, s: Coord, c: Coord, d: int) -> bool {
    &&& exists|cs: Seq<Coord>| #[trigger] floor_walk(tm, s, cs) && cs.len() == d && floor_ends_at(s, cs, c)
    &&& forall|cs: Seq<Coord>| #[trigger] floor_walk(tm, s, cs) && floor_ends_at(s, cs, c) ==> cs.len() >= d
}

/// A place has one floor distance.
pub proof fn lemma_floor_distance_unique(tm: TileMap, s: Coord, c: Coord, d1: int, d2: int)
    requires
        floor_distance(tm, s, c, d1),
        floor_distance(tm, s, c, d2),
    ensures
        d1 == d2,
{
    let cs1 = choose|cs: Seq<Coord>| #[trigger] floor_walk(tm, s, cs) && cs.len() == d1 && floor_ends_at(s, cs, c);
    let cs2 = choose|cs: Seq<Coord>| #[trigger] floor_walk(tm, s, cs) && cs.len() == d2 && floor_ends_at(s, cs, c);
    assert(floor_walk(tm, s, cs1));
    assert(floor_walk(tm, s, cs2));
}

/// The places of a safe walk that meets no bomb form a floor walk.
proof fn lemma_safe_to_floor(tm: TileMap, s: Coord, p: Seq<Tile>)
    requires
        safe_walk(tm, Seq::empty(), 0, s, p),
    ensures
        floor_walk(tm, s, p.map_values(|t: Tile| t.coord)),
        p.len() > 0 ==> floor_ends_at(s, p.map_values(|t: Tile| t.coord), p.last().coord),
        p.len() == 0 ==> floor_ends_at(s, p.map_values(|t: Tile| t.coord), s),
{
    let cs = p.map_values(|t: Tile| t.coord);
    assert forall|i: int| 0 <= i < cs.len() implies #[trigger] floor_step(tm, s, cs, i) by {
        assert(walk_step_ok(tm, Seq::empty(), 0, s, p, i));
        if i > 0 {
            assert(cs[i - 1] == p[i - 1].coord);
        }
    }
}

/// The tiles along a floor walk form a safe walk when no bomb is about.
proof fn lemma_floor_to_safe(tm: TileMap, s: Coord, cs: Seq<Coord>) -> (p: Seq<Tile>)
    requires
        tiles_placed(tm),
        floor_walk(tm, s, cs),
    ensures
        safe_walk(tm, Seq::empty(), 0, s, p),
        p.len() == cs.len(),
        p.len() > 0 ==> p.last().coord == cs.last(),
{
    let p = cs.map_values(|c: Coord| tile_at(tm, c).unwrap());
    assert forall|i: int| 0 <= i < p.len() implies #[trigger] walk_step_ok(tm, Seq::empty(), 0, s, p, i) by {
        assert(floor_step(tm, s, cs, i));
        lemma_placed(tm, cs[i]);
        if i > 0 {
            assert(floor_step(tm, s, cs, i - 1));
            lemma_placed(tm, cs[i - 1]);
        }
        assert forall|j: int| 0 <= j < Seq::<Bomb>::empty().len() implies #[trigger] safe_from(p[i].coord, (i + 1) as usize, Seq::<Bomb>::empty()[j], 0) by {}
    }
    if cs.len() > 0 {
        assert(floor_step(tm, s, cs, cs.len() - 1));
        lemma_placed(tm, cs.last());
    }
    p
}

/// Some floor walk of one to `d` steps from `s` ends on `c`.
pub open spec fn floor_within(tm: TileMap, s: Coord, c: Coord, d: int) -> bool {
    exists|cs: Seq<Coord>| #[trigger] floor_walk(tm, s, cs) && 1 <= cs.len() <= d && cs.last() == c
}

/// A floor walk goes on onto an empty neighbour of where it stands.
proof fn lemma_floor_push(tm: TileMap, s: Coord, cs: Seq<Coord>, c: Coord)
    requires
        floor_walk(tm, s, cs),
        tile_at(tm, c) is Some,
        tile_at(tm, c).unwrap().cell_type == CellType::Empty,
        neighbours_of(if cs.len() == 0 { s } else { cs.last() }).contains(c),
    ensures
        floor_walk(tm, s, cs.push(c)),
{
    let ds = cs.push(c);
    assert forall|i: int| 0 <= i < ds.len() implies #[trigger] floor_step(tm, s, ds, i) by {
        if i < cs.len() {
            assert(floor_step(tm, s, cs, i));
            if i > 0 {
                assert(ds[i - 1] == cs[i - 1]);
            }
        }
    }
}

/// Every beginning of a floor walk is a floor walk.
proof fn lemma_floor_take(tm: TileMap, s: Coord, cs: Seq<Coord>, n: int)
    requires
        floor_walk(tm, s, cs),
        0 <= n <= cs.len(),
    ensures
        floor_walk(tm, s, cs.take(n)),
{
    let ds = cs.take(n);
    assert forall|i: int| 0 <= i < ds.len() implies #[trigger] floor_step(tm, s, ds, i) by {
        assert(floor_step(tm, s, cs, i));
        if i > 0 {
            assert(ds[i - 1] == cs[i - 1]);
        }
    }
}

/// From a start off the map, a tile reached within `d` steps but not within `d - 1` is
/// exactly `d` steps away.
proof fn lemma_floor_exact(tm: TileMap, s: Coord, c: Coord, d: int)
    requires
        tile_at(tm, s) is None,
        d >= 1,
        floor_within(tm, s, c, d),
        !floor_within(tm, s, c, d - 1),
    ensures
        floor_distance(tm, s, c, d),
{
    let cs = choose|cs: Seq<Coord>| #[trigger] floor_walk(tm, s, cs) && 1 <= cs.len() <= d && cs.last() == c;
    assert(floor_step(tm, s, cs, cs.len() - 1));
    assert(floor_ends_at(s, cs, c));
    assert forall|ds: Seq<Coord>| #[trigger] floor_walk(tm, s, ds) && floor_ends_at(s, ds, c) implies ds.len() >= d by {
        if ds.len() > 0 && ds.len() < d {
            assert(floor_within(tm, s, c, d - 1));
        }
    }
}

/// With no tile exactly `d` steps from a start off the map, whatever is reached within
/// `d` steps is reached within `d - 1`.
proof fn lemma_floor_gap(tm: TileMap, s: Coord, c: Coord, d: int)
    requires
        tile_at(tm, s) is None,
        d >= 1,
        forall|x: Coord| !#[trigger] floor_distance(tm, s, x, d),
        floor_within(tm, s, c, d),
    ensures
        floor_within(tm, s, c, d - 1),
{
    if !floor_within(tm, s, c, d - 1) {
        lemma_floor_exact(tm, s, c, d);
    }
}

/// With no tile exactly `d` steps from a start off the map, every tile of every floor walk
/// is reached within `d - 1` steps.
proof fn lemma_floor_gap_along(tm: TileMap, s: Coord, cs: Seq<Coord>, i: int, d: int)
    requires
        tile_at(tm, s) is None,
        d >= 1,
        forall|x: Coord| !#[trigger] floor_distance(tm, s, x, d),
        floor_walk(tm, s, cs),
        1 <= i <= cs.len(),
    ensures
        floor_within(tm, s, cs[i - 1], d - 1),
    decreases i,
{
    if i <= d {
        lemma_floor_take(tm, s, cs, i);
        assert(cs.take(i).last() == cs[i - 1]);
        assert(floor_within(tm, s, cs[i - 1], d));
        lemma_floor_gap(tm, s, cs[i - 1], d);
    } else {
        lemma_floor_gap_along(tm, s, cs, i - 1, d);
        let w = choose|w: Seq<Coord>| #[trigger] floor_walk(tm, s, w) && 1 <= w.len() <= d - 1 && w.last() == cs[i - 2];
        assert(floor_step(tm, s, cs, i - 1));
        lemma_floor_push(tm, s, w, cs[i - 1]);
        assert(w.push(cs[i - 1]).last() == cs[i - 1]);
        assert(floor_within(tm, s, cs[i - 1], d));
        lemma_floor_gap(tm, s, cs[i - 1], d);
    }
}

/// A finished layer of the search from a start off the map: the next layer holds exactly
/// the tiles one step further, everything within that reach has been seen, and nothing
/// nearer is safe.
proof fn lemma_next_layer(tm: TileMap, s: Coord, cost: int, layer: Seq<Coord>, next: Seq<Coord>, seen: Seq<Vec<bool>>)
    requires
        tile_at(tm, s) is None,
        cost >= 0,
        cost == 0 ==> layer == seq![s],
        cost > 0 ==> forall|q: int| 0 <= q < layer.len() ==> floor_distance(tm, s, #[trigger] layer[q], cost),
        cost > 0 ==> forall|c: Coord| #[trigger] floor_distance(tm, s, c, cost) ==> layer.contains(c),
        forall|c: Coord| #[trigger] floor_within(tm, s, c, cost - 1) ==> !tile_at(tm, c).unwrap().safe,
        forall|q: int| 0 <= q < next.len() ==> floor_distance(tm, s, #[trigger] next[q], cost + 1),
        forall|c: Coord| tile_at(tm, c) is Some ==> (#[trigger] at(seen, c) <==> (floor_within(tm, s, c, cost) || next.contains(c))),
        forall|j: int| 0 <= j < layer.len() ==> !(tile_at(tm, #[trigger] layer[j]) is Some && tile_at(tm, layer[j]).unwrap().safe),
        forall|j: int, c: Coord| #![trigger layer[j], at(seen, c)]
            0 <= j < layer.len() && tile_at(tm, c) is Some && tile_at(tm, c).unwrap().cell_type == CellType::Empty
            && neighbours_of(layer[j]).contains(c) ==> at(seen, c),
    ensures
        forall|c: Coord| #[trigger] floor_distance(tm, s, c, cost + 1) ==> next.contains(c),
        forall|c: Coord| tile_at(tm, c) is Some ==> (#[trigger] at(seen, c) <==> floor_within(tm, s, c, cost + 1)),
        forall|c: Coord| #[trigger] floor_within(tm, s, c, cost) ==> !tile_at(tm, c).unwrap().safe,
{
    assert forall|c: Coord| #[trigger] floor_distance(tm, s, c, cost + 1) implies next.contains(c) by {
        let cs = choose|cs: Seq<Coord>| #[trigger] floor_walk(tm, s, cs) && cs.len() == cost + 1 && floor_ends_at(s, cs, c);
        assert(floor_step(tm, s, cs, cost));
        assert(cs.last() == c);
        let p = if cost == 0 { s } else { cs[cost - 1] };
        assert(neighbours_of(p).contains(c));
        if cost == 0 {
            assert(layer[0] == p);
            assert(at(seen, c));
        } else {
            lemma_floor_take(tm, s, cs, cost);
            assert(cs.take(cost).last() == p);
            assert(floor_within(tm, s, p, cost));
            if floor_within(tm, s, p, cost - 1) {
                let w = choose|w: Seq<Coord>| #[trigger] floor_walk(tm, s, w) && 1 <= w.len() <= cost - 1 && w.last() == p;
                lemma_floor_push(tm, s, w, c);
                assert(w.push(c).last() == c);
                assert(floor_ends_at(s, w.push(c), c));
                assert(false);
            }
            lemma_floor_exact(tm, s, p, cost);
            assert(layer.contains(p));
            let j = choose|j: int| 0 <= j < layer.len() && layer[j] == p;
            assert(at(seen, c));
        }
        if floor_within(tm, s, c, cost) {
            let w = choose|w: Seq<Coord>| #[trigger] floor_walk(tm, s, w) && 1 <= w.len() <= cost && w.last() == c;
            assert(floor_ends_at(s, w, c));
            assert(false);
        }
    }
    assert forall|c: Coord| tile_at(tm, c) is Some implies (#[trigger] at(seen, c) <==> floor_within(tm, s, c, cost + 1)) by {
        if floor_within(tm, s, c, cost) {
            let w = choose|w: Seq<Coord>| #[trigger] floor_walk(tm, s, w) && 1 <= w.len() <= cost && w.last() == c;
            assert(floor_within(tm, s, c, cost + 1));
        }
        if next.contains(c) {
            let q = choose|q: int| 0 <= q < next.len() && next[q] == c;
            assert(floor_distance(tm, s, next[q], cost + 1));
            let w = choose|w: Seq<Coord>| #[trigger] floor_walk(tm, s, w) && w.len() == cost + 1 && floor_ends_at(s, w, c);
            assert(floor_within(tm, s, c, cost + 1));
        }
        if floor_within(tm, s, c, cost + 1) && !floor_within(tm, s, c, cost) {
            lemma_floor_exact(tm, s, c, cost + 1);
        }
    }
    assert forall|c: Coord| #[trigger] floor_within(tm, s, c, cost) implies !tile_at(tm, c).unwrap().safe by {
        if !floor_within(tm, s, c, cost - 1) {
            let w = choose|w: Seq<Coord>| #[trigger] floor_walk(tm, s, w) && 1 <= w.len() <= cost && w.last() == c;
            assert(cost >= 1);
            lemma_floor_exact(tm, s, c, cost);
            assert(layer.contains(c));
            let j = choose|j: int| 0 <= j < layer.len() && layer[j] == c;
            assert(floor_step(tm, s, w, w.len() - 1));
        }
    }
}

impl TileMap {
    /// The tile at `coord`, if there is one.
    pub fn get(&self, coord: Coord) -> (r: Option<&Tile>)
        ensures
            match r {
                Some(t) => tile_at(*self, coord) == Some(*t),
                None => tile_at(*self, coord) is None,
            },
    {
        let row = coord.row.get();
        let col = coord.col.get();
        if row < self.map.len() && col < self.map[row].len() {
            Some(&self.map[row][col])
        } else {
            None
        }
    }

    /// The tile at `coord` to change in place, if there is one.
    pub fn get_mut(&mut self, coord: Coord) -> (r: Option<&mut Tile>)
        ensures
            match r {
                Some(t) => {
                    &&& tile_at(*old(self), coord) == Some(*t)
                    &&& final(self).map@.len() == old(self).map@.len()
                    &&& forall|q: int| 0 <= q < old(self).map@.len() ==> (#[trigger] final(self).map@[q])@.len() == old(self).map@[q]@.len()
                    &&& forall|q: int, c: int| 0 <= q < old(self).map@.len() && 0 <= c < old(self).map@[q]@.len()
                        ==> #[trigger] final(self).map@[q]@[c] == if q == coord.row.0 && c == coord.col.0 { *final(t) } else { old(self).map@[q]@[c] }
                },
                None => tile_at(*old(self), coord) is None && *final(self) == *old(self),
            },
    {
        let row = coord.row.get();
        let col = coord.col.get();
        if row < self.map.len() && col < self.map[row].len() {
            Some(&mut self.map[row][col])
        } else {
            None
        }
    }

    /// Follows the recorded steps back from `goal` to `start` and gives the tiles walked,
    /// in walking order, `start` itself left out.
    fn trace(&self, dist: &Vec<Vec<i32>>, came: &Vec<Vec<Option<Coord>>>, start: Coord, goal: Coord,
        bombs: &Vec<Bomb>, radius: usize) -> (path: Vec<Tile>)
        requires
            tiles_placed(*self),
            same_shape(dist@, *self),
            same_shape(came@, *self),
            tile_at(*self, start) is Some,
            tile_at(*self, goal) is Some,
            at(dist@, start) == 0,
            0 <= at(dist@, goal) < i32::MAX,
            parents_ok(*self, dist@, came@, start, bombs@, radius),
        ensures
            path@.len() == at(dist@, goal),
            safe_walk(*self, bombs@, radius, start, path@),
            path@.len() == 0 ==> goal == start,
            path@.len() > 0 ==> path@.last().coord == goal,
    {
        let ghost dg = at(dist@, goal) as int;
        let mut rev: Vec<Tile> = Vec::new();
        let mut current = goal;
        while current != start
            invariant
                tiles_placed(*self),
                same_shape(dist@, *self),
                same_shape(came@, *self),
                tile_at(*self, start) is Some,
                at(dist@, start) == 0,
                dg == at(dist@, goal),
                0 <= dg < i32::MAX,
                parents_ok(*self, dist@, came@, start, bombs@, radius),
                tile_at(*self, current) is Some,
                at(dist@, current) != i32::MAX,
                0 <= at(dist@, current),
                at(dist@, current) + rev@.len() == dg,
                rev@.len() > 0 ==> rev@[0].coord == goal,
                rev@.len() > 0 ==> neighbours_of(current).contains(rev@.last().coord),
                rev@.len() == 0 ==> current == goal,
                forall|i: int| 0 <= i < rev@.len() ==> {
                    &&& tile_at(*self, (#[trigger] rev@[i]).coord) == Some(rev@[i])
                    &&& rev@[i].cell_type == CellType::Empty
                    &&& safe_from_all(bombs@, rev@[i].coord, (dg - i) as usize, radius)
                },
                forall|i: int| 0 <= i < rev@.len() - 1 ==> neighbours_of((#[trigger] rev@[i + 1]).coord).contains(rev@[i].coord),
            decreases at(dist@, current),
        {
            proof {
                lemma_parent(*self, dist@, came@, start, bombs@, radius, current);
                lemma_placed(*self, current);
            }
            let tile = *self.get(current).unwrap();
            let prev = came[current.row.get()][current.col.get()].unwrap();
            let ghost old_rev = rev@;
            rev.push(tile);
            proof {
                assert(rev@[old_rev.len() as int] == tile);
                assert forall|i: int| 0 <= i < rev@.len() - 1 implies neighbours_of((#[trigger] rev@[i + 1]).coord).contains(rev@[i].coord) by {
                    if i + 1 < old_rev.len() {
                        assert(rev@[i] == old_rev[i] && rev@[i + 1] == old_rev[i + 1]);
                    }
                }
            }
            current = prev;
        }
        let n = rev.len();
        let mut path: Vec<Tile> = Vec::new();
        for j in 0..n
            invariant
                n == rev@.len(),
                n == dg,
                current == start,
                rev@.len() > 0 ==> neighbours_of(start).contains(rev@.last().coord),
                forall|i: int| 0 <= i < rev@.len() ==> {
                    &&& tile_at(*self, (#[trigger] rev@[i]).coord) == Some(rev@[i])
                    &&& rev@[i].cell_type == CellType::Empty
                    &&& safe_from_all(bombs@, rev@[i].coord, (dg - i) as usize, radius)
                },
                forall|i: int| 0 <= i < rev@.len() - 1 ==> neighbours_of((#[trigger] rev@[i + 1]).coord).contains(rev@[i].coord),
                path@.len() == j,
                forall|i: int| 0 <= i < j ==> #[trigger] path@[i] == rev@[n - 1 - i],
        {
            path.push(rev[n - 1 - j]);
        }
        proof {
            assert forall|i: int| 0 <= i < path@.len() implies #[trigger] walk_step_ok(*self, bombs@, radius, start, path@, i) by {
                assert(path@[i] == rev@[n - 1 - i]);
                if i > 0 {
                    assert(path@[i - 1] == rev@[n - i]);
                    assert(neighbours_of(rev@[n - 1 - i + 1].coord).contains(rev@[n - 1 - i].coord));
                }
            }
            if n > 0 {
                assert(path@[n - 1] == rev@[0]);
            }
        }
        path
    }

    /// Reaches, from `current`, every empty neighbour not reached yet that is safe one step
    /// later, and adds it to `next`.
    fn relax(&self, dist: &mut Vec<Vec<i32>>, came: &mut Vec<Vec<Option<Coord>>>, next: &mut Vec<Coord>,
        layer: Ghost<Seq<Coord>>, current: Coord, cost: i32, s: Coord, bombs: &Vec<Bomb>, bomb_radius: usize)
        requires
            same_shape(old(dist)@, *self),
            same_shape(old(came)@, *self),
            tile_at(*self, s) is Some,
            at(old(dist)@, s) == 0,
            0 <= cost < i32::MAX - 1,
            tile_at(*self, current) is Some,
            at(old(dist)@, current) == cost,
            reached_within(*self, old(dist)@, cost + 1),
            parents_ok(*self, old(dist)@, old(came)@, s, bombs@, bomb_radius),
            all_at(*self, old(dist)@, layer@, cost as int),
            coords_sorted(old(next)@),
            all_at(*self, old(dist)@, old(next)@, cost + 1),
            complete_at(*self, old(dist)@, old(next)@, cost + 1),
        ensures
            same_shape(final(dist)@, *self),
            same_shape(final(came)@, *self),
            at(final(dist)@, s) == 0,
            reached_within(*self, final(dist)@, cost + 1),
            parents_ok(*self, final(dist)@, final(came)@, s, bombs@, bomb_radius),
            all_at(*self, final(dist)@, layer@, cost as int),
            coords_sorted(final(next)@),
            all_at(*self, final(dist)@, final(next)@, cost + 1),
            complete_at(*self, final(dist)@, final(next)@, cost + 1),
            relaxed_from(*self, old(dist)@, final(dist)@, cost as int),
            expanded(*self, final(dist)@, bombs@, bomb_radius, current),
    {
        let ghost d_in = dist@;
        proof {
            lemma_relaxed_refl(*self, d_in, cost as int);
        }
        let nbs = get_neighbour_coords(current);
        for j in 0..nbs.len()
            invariant
                same_shape(dist@, *self),
                same_shape(came@, *self),
                tile_at(*self, s) is Some,
                at(dist@, s) == 0,
                0 <= cost < i32::MAX - 1,
                tile_at(*self, current) is Some,
                at(dist@, current) == cost,
                nbs@ == neighbours_of(current),
                reached_within(*self, dist@, cost + 1),
                parents_ok(*self, dist@, came@, s, bombs@, bomb_radius),
                all_at(*self, dist@, layer@, cost as int),
                coords_sorted(next@),
                all_at(*self, dist@, next@, cost + 1),
                complete_at(*self, dist@, next@, cost + 1),
                relaxed_from(*self, d_in, dist@, cost as int),
                forall|jj: int| 0 <= jj < j ==> (tile_at(*self, #[trigger] nbs@[jj]) is Some
                    && tile_at(*self, nbs@[jj]).unwrap().cell_type == CellType::Empty
                    && safe_from_all(bombs@, nbs@[jj], (cost + 1) as usize, bomb_radius)
                    ==> at(dist@, nbs@[jj]) != i32::MAX && at(dist@, nbs@[jj]) <= cost + 1),
        {
            let nc = nbs[j];
            let next_cost = cost + 1;
            let ghost d_prev = dist@;
            if let Some(tile) = self.get(nc) {
                let known = dist[nc.row.get()][nc.col.get()];
                if next_cost < known && tile.cell_type == CellType::Empty
                    && is_tile_currently_safe(bombs, nc, next_cost as usize, bomb_radius) {
                    proof {
                        assert(nbs@.contains(nc)) by {
                            assert(nbs@[j as int] == nc);
                        }
                    }
                    let ghost d0 = dist@;
                    let ghost c0 = came@;
                    let ghost n0 = next@;
                    set_at(dist, nc, next_cost);
                    set_at(came, nc, Some(current));
                    insert_coord(next, nc);
                    proof {
                        lemma_relax(*self, d0, c0, dist@, came@, s, bombs@, bomb_radius, cost, current, nc,
                            layer@, n0, next@);
                        lemma_relax_step(*self, d0, dist@, n0, next@, nc, cost as int);
                        lemma_relaxed_trans(*self, d_in, d0, dist@, cost as int);
                        assert(nbs@[j as int] == nc);
                        assert forall|jj: int| 0 <= jj < j + 1 && tile_at(*self, #[trigger] nbs@[jj]) is Some
                            && tile_at(*self, nbs@[jj]).unwrap().cell_type == CellType::Empty
                            && safe_from_all(bombs@, nbs@[jj], (cost + 1) as usize, bomb_radius)
                            implies at(dist@, nbs@[jj]) != i32::MAX && at(dist@, nbs@[jj]) <= cost + 1 by {
                            reveal(relaxed_from);
                            if jj < j {
                                assert(at(dist@, nbs@[jj]) <= at(d0, nbs@[jj]));
                            }
                        }
                    }
                }
            }
            proof {
                assert(nbs@[j as int] == nc);
                if dist@ == d_prev {
                    assert forall|jj: int| 0 <= jj < j + 1 && tile_at(*self, #[trigger] nbs@[jj]) is Some
                        && tile_at(*self, nbs@[jj]).unwrap().cell_type == CellType::Empty
                        && safe_from_all(bombs@, nbs@[jj], (cost + 1) as usize, bomb_radius)
                        implies at(dist@, nbs@[jj]) != i32::MAX && at(dist@, nbs@[jj]) <= cost + 1 by {
                    }
                }
            }
        }
        proof {
            assert forall|j: int| 0 <= j < neighbours_of(current).len()
                && tile_at(*self, #[trigger] neighbours_of(current)[j]) is Some
                && tile_at(*self, neighbours_of(current)[j]).unwrap().cell_type == CellType::Empty
                && safe_from_all(bombs@, neighbours_of(current)[j], (at(dist@, current) + 1) as usize, bomb_radius)
                implies at(dist@, neighbours_of(current)[j]) != i32::MAX && at(dist@, neighbours_of(current)[j]) <= at(dist@, current) + 1 by {
                assert(nbs@[j] == neighbours_of(current)[j]);
            }
        }
    }

    /// The cheapest walk from `start` to `goal`, searched breadth first over empty tiles
    /// that are safe from every bomb when reached; tiles at the same distance are
    /// tried in order of column, then row. Gives the number of steps and the tiles
    /// walked (`start` left out). The search gives up after `i32::MAX - 1` steps.
    pub fn dijkstra(&self, start: &Tile, goal: &Tile, bombs: &Vec<Bomb>, bomb_radius: usize) -> (r: Option<(i32, Vec<Tile>)>)
        requires
            tiles_placed(*self),
            tile_at(*self, start.coord) is Some,
        ensures
            r matches Some((cost, path)) ==> {
                &&& cost == path@.len()
                &&& cost < i32::MAX - 1
                &&& safe_walk(*self, bombs@, bomb_radius, start.coord, path@)
                &&& path@.len() == 0 ==> goal.coord == start.coord
                &&& path@.len() > 0 ==> path@.last().coord == goal.coord
                &&& forall|p: Seq<Tile>| #[trigger] safe_walk(*self, bombs@, bomb_radius, start.coord, p) && p.len() > 0
                    && p.last().coord == goal.coord ==> p.len() >= cost
            },
            r is None ==> goal.coord != start.coord,
            goal.coord == start.coord ==> (r matches Some((cost, path)) && cost == 0 && path@.len() == 0),
            r is None ==> forall|p: Seq<Tile>| #[trigger] safe_walk(*self, bombs@, bomb_radius, start.coord, p) && p.len() > 0
                && p.last().coord == goal.coord ==> p.len() >= i32::MAX - 1,
    {
        let s = start.coord;
        let g = goal.coord;
        let mut dist: Vec<Vec<i32>> = blank_like(self, i32::MAX);
        let mut came: Vec<Vec<Option<Coord>>> = blank_like(self, None);
        let ghost blank = dist@;
        set_at(&mut dist, s, 0);
        let mut layer: Vec<Coord> = Vec::new();
        layer.push(s);
        proof {
            lemma_search_start(*self, blank, dist@, came@, s, bombs@, bomb_radius);
            assert(layer@ =~= seq![s]);
            lemma_search_origin(*self, dist@, bombs@, bomb_radius, 0);
            lemma_nonneg(*self, dist@, 0);
        }
        let mut cost: i32 = 0;
        while layer.len() > 0 && cost < i32::MAX - 1
            invariant
                s == start.coord,
                g == goal.coord,
                tiles_placed(*self),
                same_shape(dist@, *self),
                same_shape(came@, *self),
                tile_at(*self, s) is Some,
                at(dist@, s) == 0,
                0 <= cost < i32::MAX,
                reached_within(*self, dist@, cost as int),
                parents_ok(*self, dist@, came@, s, bombs@, bomb_radius),
                all_at(*self, dist@, layer@, cost as int),
                expanded_below(*self, dist@, bombs@, bomb_radius, cost as int),
                complete_at(*self, dist@, layer@, cost as int),
                tile_at(*self, g) is Some ==> at(dist@, g) == i32::MAX || at(dist@, g) >= cost,
                cost == 0 ==> layer@ == seq![s],
                cost > 0 ==> s != g,
            decreases i32::MAX - cost,
        {
            proof {
                assert(reached_within(*self, dist@, cost + 1)) by {
                    reveal(reached_within);
                }
                lemma_search_origin(*self, dist@, bombs@, bomb_radius, cost as int);
            }
            let mut next: Vec<Coord> = Vec::new();
            proof {
                assert(all_at(*self, dist@, next@, cost + 1)) by {
                    reveal(all_at);
                }
                assert(next@ =~= Seq::<Coord>::empty());
            }
            for k in 0..layer.len()
                invariant
                    s == start.coord,
                    g == goal.coord,
                    tiles_placed(*self),
                    same_shape(dist@, *self),
                    same_shape(came@, *self),
                    tile_at(*self, s) is Some,
                    at(dist@, s) == 0,
                    0 <= cost < i32::MAX - 1,
                    reached_within(*self, dist@, cost + 1),
                    parents_ok(*self, dist@, came@, s, bombs@, bomb_radius),
                    all_at(*self, dist@, layer@, cost as int),
                    coords_sorted(next@),
                    all_at(*self, dist@, next@, cost + 1),
                    complete_at(*self, dist@, next@, cost + 1),
                    expanded_below(*self, dist@, bombs@, bomb_radius, cost as int),
                    complete_at(*self, dist@, layer@, cost as int),
                    tile_at(*self, g) is Some ==> at(dist@, g) == i32::MAX || at(dist@, g) >= cost,
                    forall|q: int| 0 <= q < k ==> expanded(*self, dist@, bombs@, bomb_radius, #[trigger] layer@[q]),
                    forall|q: int| 0 <= q < k ==> #[trigger] layer@[q] != g,
                    cost == 0 ==> layer@ == seq![s],
                    cost > 0 ==> s != g,
            {
                let current = layer[k];
                proof {
                    lemma_all_at(*self, dist@, layer@, cost as int, k as int);
                }
                if current == goal.coord {
                    let path = self.trace(&dist, &came, s, current, bombs, bomb_radius);
                    proof {
                        lemma_nonneg(*self, dist@, cost + 1);
                        assert forall|p: Seq<Tile>| #[trigger] safe_walk(*self, bombs@, bomb_radius, start.coord, p)
                            && p.len() > 0 && p.last().coord == goal.coord implies p.len() >= cost by {
                            if p.len() < cost {
                                lemma_walk_reached(*self, dist@, bombs@, bomb_radius, s, p, cost as int, false);
                            }
                        }
                    }
                    return Some((cost, path));
                }
                let ghost d_before = dist@;
                self.relax(&mut dist, &mut came, &mut next, Ghost(layer@), current, cost, s, bombs, bomb_radius);
                proof {
                    lemma_layer_stable(*self, d_before, dist@, bombs@, bomb_radius, cost as int, layer@, g);
                    assert forall|q: int| 0 <= q < k + 1 implies expanded(*self, dist@, bombs@, bomb_radius, #[trigger] layer@[q]) by {
                        if q < k {
                            lemma_all_at(*self, d_before, layer@, cost as int, q);
                            lemma_expanded_stable(*self, d_before, dist@, bombs@, bomb_radius, cost as int, layer@[q]);
                        }
                    }
                    assert forall|q: int| 0 <= q < k + 1 implies #[trigger] layer@[q] != g by {}
                }
            }
            proof {
                lemma_layer_done(*self, dist@, bombs@, bomb_radius, cost as int, layer@, g);
            }
            layer = next;
            cost = cost + 1;
        }
        proof {
            lemma_nonneg(*self, dist@, cost as int);
            if g == s {
                reveal(complete_at);
                assert(layer@.contains(s));
            }
            assert forall|p: Seq<Tile>| #[trigger] safe_walk(*self, bombs@, bomb_radius, start.coord, p) && p.len() > 0
                && p.last().coord == goal.coord implies p.len() >= i32::MAX - 1 by {
                if p.len() < i32::MAX - 1 {
                    lemma_walk_last(*self, bombs@, bomb_radius, s, p);
                    if cost >= i32::MAX - 1 {
                        lemma_walk_reached(*self, dist@, bombs@, bomb_radius, s, p, cost as int, false);
                    } else {
                        assert forall|c: Coord| #![trigger at(dist@, c)] tile_at(*self, c) is Some && at(dist@, c) != i32::MAX
                            implies at(dist@, c) < cost by {
                            reveal(complete_at);
                            if at(dist@, c) == cost {
                                assert(layer@.contains(c));
                            }
                        }
                        lemma_walk_reached(*self, dist@, bombs@, bomb_radius, s, p, cost as int, true);
                    }
                }
            }
        }
        None
    }

    /// The nearest tile marked safe that can be walked to from `start` over empty
    /// tiles, `start` itself first; tiles at the same distance are tried in order of
    /// column, then row. The search gives up after `i32::MAX - 1` steps.
    pub fn nearest_safe_tile(&self, start: &Tile) -> (r: Option<&Tile>)
        requires
            tiles_placed(*self),
        ensures
            r matches Some(t) ==> {
                &&& t.safe
                &&& tile_at(*self, t.coord) == Some(*t)
                &&& t.coord == start.coord || t.cell_type == CellType::Empty
            },
            r matches Some(t) ==> exists|q: Seq<Tile>| {
                &&& #[trigger] safe_walk(*self, Seq::empty(), 0, start.coord, q)
                &&& walk_ends_at(start.coord, q, t.coord)
                &&& forall|p: Seq<Tile>| #[trigger] safe_walk(*self, Seq::empty(), 0, start.coord, p) && p.len() > 0
                    && tile_at(*self, p.last().coord).unwrap().safe ==> p.len() >= q.len()
            },
            r is None ==> {
                &&& tile_at(*self, start.coord) is Some ==> !tile_at(*self, start.coord).unwrap().safe
                &&& forall|p: Seq<Tile>| #[trigger] safe_walk(*self, Seq::empty(), 0, start.coord, p) && p.len() > 0
                    && tile_at(*self, p.last().coord).unwrap().safe ==> p.len() >= i32::MAX - 1
            },
    {
        let s = start.coord;
        if self.get(s).is_none() {
            let r = self.nearest_from_outside(start);
            proof {
                assert forall|p: Seq<Tile>| #[trigger] safe_walk(*self, Seq::empty(), 0, s, p) && p.len() > 0 implies {
                    &&& floor_walk(*self, s, p.map_values(|t: Tile| t.coord))
                    &&& p.map_values(|t: Tile| t.coord).len() == p.len()
                    &&& p.map_values(|t: Tile| t.coord).last() == p.last().coord
                } by {
                    lemma_safe_to_floor(*self, s, p);
                }
                if let Some(t) = r {
                    let cs = choose|cs: Seq<Coord>| #[trigger] floor_walk(*self, s, cs) && cs.len() >= 1 && cs.last() == t.coord
                        && forall|ds: Seq<Coord>| #[trigger] floor_walk(*self, s, ds) && ds.len() >= 1
                            && tile_at(*self, ds.last()).unwrap().safe ==> ds.len() >= cs.len();
                    let q = lemma_floor_to_safe(*self, s, cs);
                    assert(walk_ends_at(s, q, t.coord));
                    assert forall|p: Seq<Tile>| #[trigger] safe_walk(*self, Seq::empty(), 0, s, p) && p.len() > 0
                        && tile_at(*self, p.last().coord).unwrap().safe implies p.len() >= q.len() by {
                        let ds = p.map_values(|t: Tile| t.coord);
                        assert(floor_walk(*self, s, ds));
                    }
                } else {
                    assert forall|p: Seq<Tile>| #[trigger] safe_walk(*self, Seq::empty(), 0, s, p) && p.len() > 0
                        && tile_at(*self, p.last().coord).unwrap().safe implies p.len() >= i32::MAX - 1 by {
                        let ds = p.map_values(|t: Tile| t.coord);
                        assert(floor_walk(*self, s, ds));
                    }
                }
            }
            return r;
        }
        let none: Vec<Bomb> = Vec::new();
        let radius: usize = 0;
        proof {
            assert(none@ =~= Seq::<Bomb>::empty());
        }
        let mut dist: Vec<Vec<i32>> = blank_like(self, i32::MAX);
        let mut came: Vec<Vec<Option<Coord>>> = blank_like(self, None);
        let ghost blank = dist@;
        set_at(&mut dist, s, 0);
        let mut layer: Vec<Coord> = Vec::new();
        layer.push(s);
        proof {
            lemma_search_start(*self, blank, dist@, came@, s, none@, radius);
            assert(layer@ =~= seq![s]);
            lemma_search_origin(*self, dist@, none@, radius, 0);
            lemma_nonneg(*self, dist@, 0);
            assert(no_safe_below(*self, dist@, 0)) by {
                reveal(no_safe_below);
            }
        }
        let mut cost: i32 = 0;
        while layer.len() > 0 && cost < i32::MAX - 1
            invariant
                s == start.coord,
                none@ == Seq::<Bomb>::empty(),
                radius == 0,
                tiles_placed(*self),
                same_shape(dist@, *self),
                same_shape(came@, *self),
                tile_at(*self, s) is Some,
                at(dist@, s) == 0,
                0 <= cost < i32::MAX,
                reached_within(*self, dist@, cost as int),
                parents_ok(*self, dist@, came@, s, none@, radius),
                all_at(*self, dist@, layer@, cost as int),
                expanded_below(*self, dist@, none@, radius, cost as int),
                complete_at(*self, dist@, layer@, cost as int),
                no_safe_below(*self, dist@, cost as int),
            decreases i32::MAX - cost,
        {
            proof {
                assert(reached_within(*self, dist@, cost + 1)) by {
                    reveal(reached_within);
                }
                lemma_search_origin(*self, dist@, none@, radius, cost as int);
            }
            let mut next: Vec<Coord> = Vec::new();
            proof {
                assert(all_at(*self, dist@, next@, cost + 1)) by {
                    reveal(all_at);
                }
                assert(next@ =~= Seq::<Coord>::empty());
            }
            for k in 0..layer.len()
                invariant
                    s == start.coord,
                    none@ == Seq::<Bomb>::empty(),
                    radius == 0,
                    tiles_placed(*self),
                    same_shape(dist@, *self),
                    same_shape(came@, *self),
                    tile_at(*self, s) is Some,
                    at(dist@, s) == 0,
                    0 <= cost < i32::MAX - 1,
                    reached_within(*self, dist@, cost + 1),
                    parents_ok(*self, dist@, came@, s, none@, radius),
                    all_at(*self, dist@, layer@, cost as int),
                    coords_sorted(next@),
                    all_at(*self, dist@, next@, cost + 1),
                    complete_at(*self, dist@, next@, cost + 1),
                    expanded_below(*self, dist@, none@, radius, cost as int),
                    complete_at(*self, dist@, layer@, cost as int),
                    no_safe_below(*self, dist@, cost as int),
                    forall|q: int| 0 <= q < k ==> expanded(*self, dist@, none@, radius, #[trigger] layer@[q]),
                    forall|q: int| 0 <= q < k ==> tile_at(*self, #[trigger] layer@[q]) is Some
                        && !tile_at(*self, layer@[q]).unwrap().safe,
            {
                let current = layer[k];
                proof {
                    lemma_all_at(*self, dist@, layer@, cost as int, k as int);
                }
                let tile = self.get(current).unwrap();
                if tile.safe {
                    proof {
                        lemma_placed(*self, current);
                        lemma_nonneg(*self, dist@, cost + 1);
                        if current != s {
                            lemma_parent(*self, dist@, came@, s, none@, radius, current);
                        }
                        let q = path_to(*self, dist@, came@, s, none@, radius, current);
                        assert forall|p: Seq<Tile>| #[trigger] safe_walk(*self, Seq::empty(), 0, start.coord, p) && p.len() > 0
                            && tile_at(*self, p.last().coord).unwrap().safe implies p.len() >= q.len() by {
                            if p.len() < q.len() {
                                lemma_walk_reached(*self, dist@, none@, radius, s, p, cost as int, false);
                                lemma_walk_last(*self, none@, radius, s, p);
                                reveal(no_safe_below);
                            }
                        }
                        assert(walk_ends_at(start.coord, q, tile.coord));
                    }
                    return Some(tile);
                }
                let ghost d_before = dist@;
                self.relax(&mut dist, &mut came, &mut next, Ghost(layer@), current, cost, s, &none, radius);
                proof {
                    lemma_layer_stable_safe(*self, d_before, dist@, none@, radius, cost as int, layer@);
                    assert forall|q: int| 0 <= q < k + 1 implies expanded(*self, dist@, none@, radius, #[trigger] layer@[q]) by {
                        if q < k {
                            lemma_all_at(*self, d_before, layer@, cost as int, q);
                            lemma_expanded_stable(*self, d_before, dist@, none@, radius, cost as int, layer@[q]);
                        }
                    }
                }
            }
            proof {
                lemma_layer_done_safe(*self, dist@, none@, radius, cost as int, layer@);
            }
            layer = next;
            cost = cost + 1;
        }
        proof {
            lemma_nonneg(*self, dist@, cost as int);
            if cost == 0 {
                reveal(complete_at);
                assert(layer@.contains(s));
            }
            reveal(no_safe_below);
            assert(!tile_at(*self, s).unwrap().safe);
            assert forall|p: Seq<Tile>| #[trigger] safe_walk(*self, Seq::empty(), 0, start.coord, p) && p.len() > 0
                && tile_at(*self, p.last().coord).unwrap().safe implies p.len() >= i32::MAX - 1 by {
                if p.len() < i32::MAX - 1 {
                    lemma_walk_last(*self, none@, radius, s, p);
                    if cost >= i32::MAX - 1 {
                        lemma_walk_reached(*self, dist@, none@, radius, s, p, cost as int, false);
                    } else {
                        assert forall|c: Coord| #![trigger at(dist@, c)] tile_at(*self, c) is Some && at(dist@, c) != i32::MAX
                            implies at(dist@, c) < cost by {
                            reveal(complete_at);
                            if at(dist@, c) == cost {
                                assert(layer@.contains(c));
                            }
                        }
                        lemma_walk_reached(*self, dist@, none@, radius, s, p, cost as int, true);
                    }
                }
            }
        }
        None
    }

    /// Every place that can be walked to from `start` over empty floor, with its floor
    /// distance: layer by layer, within a layer in order of column, then row; `start`
    /// first. The search stops after `i32::MAX - 1` steps.
    pub(crate) fn floor_distances(&self, start: Coord) -> (r: Vec<(Coord, i32)>)
        requires
            tiles_placed(*self),
            tile_at(*self, start) is Some,
        ensures
            r@.len() > 0,
            r@[0] == (start, 0i32),
            forall|k: int| 0 <= k < r@.len() ==> {
                &&& tile_at(*self, (#[trigger] r@[k]).0) is Some
                &&& r@[k].0 == start || tile_at(*self, r@[k].0).unwrap().cell_type == CellType::Empty
                &&& 0 <= r@[k].1 < i32::MAX - 1
                &&& floor_distance(*self, start, r@[k].0, r@[k].1 as int)
            },
            forall|k1: int, k2: int| 0 <= k1 < k2 < r@.len() ==> (#[trigger] r@[k1]).0 != (#[trigger] r@[k2]).0,
            forall|cs: Seq<Coord>| #[trigger] floor_walk(*self, start, cs) && 0 < cs.len() < i32::MAX - 1
                ==> exists|k: int| 0 <= k < r@.len() && (#[trigger] r@[k]).0 == cs.last(),
    {
        let s = start;
        let none: Vec<Bomb> = Vec::new();
        let radius: usize = 0;
        proof {
            assert(none@ =~= Seq::<Bomb>::empty());
        }
        let mut dist: Vec<Vec<i32>> = blank_like(self, i32::MAX);
        let mut came: Vec<Vec<Option<Coord>>> = blank_like(self, None);
        let ghost blank = dist@;
        set_at(&mut dist, s, 0);
        let mut layer: Vec<Coord> = Vec::new();
        layer.push(s);
        let mut r: Vec<(Coord, i32)> = Vec::new();
        proof {
            lemma_search_start(*self, blank, dist@, came@, s, none@, radius);
            assert(layer@ =~= seq![s]);
            lemma_search_origin(*self, dist@, none@, radius, 0);
            lemma_nonneg(*self, dist@, 0);
        }
        let mut cost: i32 = 0;
        while layer.len() > 0 && cost < i32::MAX - 1
            invariant
                s == start,
                none@ == Seq::<Bomb>::empty(),
                radius == 0,
                tiles_placed(*self),
                same_shape(dist@, *self),
                same_shape(came@, *self),
                tile_at(*self, s) is Some,
                at(dist@, s) == 0,
                0 <= cost < i32::MAX,
                reached_within(*self, dist@, cost as int),
                parents_ok(*self, dist@, came@, s, none@, radius),
                all_at(*self, dist@, layer@, cost as int),
                coords_sorted(layer@),
                expanded_below(*self, dist@, none@, radius, cost as int),
                complete_at(*self, dist@, layer@, cost as int),
                cost == 0 ==> r@.len() == 0,
                cost > 0 ==> r@.len() > 0 && r@[0] == (s, 0i32),
                forall|k: int| 0 <= k < r@.len() ==> {
                    &&& tile_at(*self, (#[trigger] r@[k]).0) is Some
                    &&& r@[k].0 == s || tile_at(*self, r@[k].0).unwrap().cell_type == CellType::Empty
                    &&& 0 <= r@[k].1 < cost
                    &&& at(dist@, r@[k].0) == r@[k].1
                    &&& floor_distance(*self, s, r@[k].0, r@[k].1 as int)
                },
                forall|k1: int, k2: int| 0 <= k1 < k2 < r@.len() ==> (#[trigger] r@[k1]).0 != (#[trigger] r@[k2]).0,
                forall|c: Coord| #![trigger at(dist@, c)] tile_at(*self, c) is Some && at(dist@, c) != i32::MAX && at(dist@, c) < cost
                    ==> exists|k: int| 0 <= k < r@.len() && (#[trigger] r@[k]).0 == c,
            decreases i32::MAX - cost,
        {
            proof {
                assert(reached_within(*self, dist@, cost + 1)) by {
                    reveal(reached_within);
                }
                lemma_search_origin(*self, dist@, none@, radius, cost as int);
            }
            let mut next: Vec<Coord> = Vec::new();
            proof {
                assert(all_at(*self, dist@, next@, cost + 1)) by {
                    reveal(all_at);
                }
                assert(next@ =~= Seq::<Coord>::empty());
            }
            let ghost len0 = r@.len() as int;
            for k in 0..layer.len()
                invariant
                    s == start,
                    none@ == Seq::<Bomb>::empty(),
                    radius == 0,
                    tiles_placed(*self),
                    same_shape(dist@, *self),
                    same_shape(came@, *self),
                    tile_at(*self, s) is Some,
                    at(dist@, s) == 0,
                    0 <= cost < i32::MAX - 1,
                    reached_within(*self, dist@, cost + 1),
                    parents_ok(*self, dist@, came@, s, none@, radius),
                    all_at(*self, dist@, layer@, cost as int),
                    coords_sorted(layer@),
                    coords_sorted(next@),
                    all_at(*self, dist@, next@, cost + 1),
                    complete_at(*self, dist@, next@, cost + 1),
                    expanded_below(*self, dist@, none@, radius, cost as int),
                    complete_at(*self, dist@, layer@, cost as int),
                    forall|q: int| 0 <= q < k ==> expanded(*self, dist@, none@, radius, #[trigger] layer@[q]),
                    r@.len() == len0 + k,
                    cost == 0 ==> len0 == 0,
                    cost > 0 ==> len0 > 0 && r@[0] == (s, 0i32),
                    forall|q: int| 0 <= q < k ==> r@[len0 + q] == (#[trigger] layer@[q], cost),
                    forall|j: int| 0 <= j < r@.len() ==> {
                        &&& tile_at(*self, (#[trigger] r@[j]).0) is Some
                        &&& r@[j].0 == s || tile_at(*self, r@[j].0).unwrap().cell_type == CellType::Empty
                        &&& 0 <= r@[j].1 <= cost
                        &&& (j < len0 ==> r@[j].1 < cost)
                        &&& at(dist@, r@[j].0) == r@[j].1
                        &&& floor_distance(*self, s, r@[j].0, r@[j].1 as int)
                    },
                    forall|k1: int, k2: int| 0 <= k1 < k2 < r@.len() ==> (#[trigger] r@[k1]).0 != (#[trigger] r@[k2]).0,
                    forall|c: Coord| #![trigger at(dist@, c)] tile_at(*self, c) is Some && at(dist@, c) != i32::MAX && at(dist@, c) < cost
                        ==> exists|j: int| 0 <= j < len0 && (#[trigger] r@[j]).0 == c,
            {
                let current = layer[k];
                proof {
                    lemma_all_at(*self, dist@, layer@, cost as int, k as int);
                    lemma_nonneg(*self, dist@, cost + 1);
                    if current != s {
                        lemma_parent(*self, dist@, came@, s, none@, radius, current);
                    }
                    let q = path_to(*self, dist@, came@, s, none@, radius, current);
                    lemma_safe_to_floor(*self, s, q);
                    let qc = q.map_values(|t: Tile| t.coord);
                    assert(floor_walk(*self, s, qc) && qc.len() == cost && floor_ends_at(s, qc, current));
                    assert forall|cs: Seq<Coord>| #[trigger] floor_walk(*self, s, cs) && floor_ends_at(s, cs, current)
                        implies cs.len() >= cost by {
                        if cs.len() < cost {
                            if cs.len() > 0 {
                                let p = lemma_floor_to_safe(*self, s, cs);
                                lemma_walk_reached(*self, dist@, none@, radius, s, p, cost as int, false);
                            }
                        }
                    }
                    assert(floor_distance(*self, s, current, cost as int));
                }
                let ghost r0 = r@;
                r.push((current, cost));
                proof {
                    assert(r@[len0 + k] == (current, cost));
                    assert forall|j: int| 0 <= j < r0.len() implies (#[trigger] r0[j]).0 != current by {
                        if r0[j].0 == current && j >= len0 {
                            let q = j - len0;
                            assert(r0[len0 + q] == (layer@[q], cost));
                            assert(coord_before(layer@[q], layer@[k as int]));
                        }
                    }
                    assert forall|k1: int, k2: int| 0 <= k1 < k2 < r@.len() implies (#[trigger] r@[k1]).0 != (#[trigger] r@[k2]).0 by {
                        assert(r@[k1] == r0[k1]);
                        if k2 < r0.len() {
                            assert(r@[k2] == r0[k2]);
                        }
                    }
                    assert forall|q: int| 0 <= q < k + 1 implies r@[len0 + q] == (#[trigger] layer@[q], cost) by {
                        if q < k {
                            assert(r@[len0 + q] == r0[len0 + q]);
                        }
                    }
                    assert forall|c: Coord| #![trigger at(dist@, c)] tile_at(*self, c) is Some && at(dist@, c) != i32::MAX && at(dist@, c) < cost
                        implies exists|j: int| 0 <= j < len0 && (#[trigger] r@[j]).0 == c by {
                        let j = choose|j: int| 0 <= j < len0 && (#[trigger] r0[j]).0 == c;
                        assert(r@[j] == r0[j]);
                    }
                    if cost > 0 {
                        assert(r@[0] == r0[0]);
                    }
                }
                let ghost d_before = dist@;
                self.relax(&mut dist, &mut came, &mut next, Ghost(layer@), current, cost, s, &none, radius);
                proof {
                    lemma_layer_stable_core(*self, d_before, dist@, none@, radius, cost as int, layer@);
                    assert forall|q: int| 0 <= q < k + 1 implies expanded(*self, dist@, none@, radius, #[trigger] layer@[q]) by {
                        if q < k {
                            lemma_all_at(*self, d_before, layer@, cost as int, q);
                            lemma_expanded_stable(*self, d_before, dist@, none@, radius, cost as int, layer@[q]);
                        }
                    }
                    reveal(relaxed_from);
                    assert forall|j: int| 0 <= j < r@.len() implies at(dist@, (#[trigger] r@[j]).0) == r@[j].1 by {
                        assert(at(d_before, r@[j].0) == r@[j].1);
                    }
                    assert forall|c: Coord| #![trigger at(dist@, c)] tile_at(*self, c) is Some && at(dist@, c) != i32::MAX && at(dist@, c) < cost
                        implies exists|j: int| 0 <= j < len0 && (#[trigger] r@[j]).0 == c by {
                        assert(at(d_before, c) == at(dist@, c));
                    }
                }
            }
            proof {
                lemma_layer_done_core(*self, dist@, none@, radius, cost as int, layer@);
                assert forall|c: Coord| #![trigger at(dist@, c)] tile_at(*self, c) is Some && at(dist@, c) != i32::MAX && at(dist@, c) < cost + 1
                    implies exists|j: int| 0 <= j < r@.len() && (#[trigger] r@[j]).0 == c by {
                    if at(dist@, c) == cost {
                        reveal(complete_at);
                        assert(layer@.contains(c));
                        let q = choose|q: int| 0 <= q < layer@.len() && layer@[q] == c;
                        assert(r@[len0 + q] == (layer@[q], cost));
                    }
                }
                if cost == 0 {
                    assert(layer@[0] == s) by {
                        reveal(all_at);
                        assert(at(dist@, layer@[0]) == 0);
                        if layer@[0] != s {
                            lemma_parent(*self, dist@, came@, s, none@, radius, layer@[0]);
                        }
                    }
                    assert(r@[0] == (layer@[0], cost));
                }
            }
            layer = next;
            cost = cost + 1;
        }
        proof {
            lemma_nonneg(*self, dist@, cost as int);
            if cost == 0 {
                reveal(complete_at);
                assert(layer@.contains(s));
            }
            assert forall|cs: Seq<Coord>| #[trigger] floor_walk(*self, s, cs) && 0 < cs.len() < i32::MAX - 1
                implies exists|k: int| 0 <= k < r@.len() && (#[trigger] r@[k]).0 == cs.last() by {
                let p = lemma_floor_to_safe(*self, s, cs);
                lemma_walk_last(*self, none@, radius, s, p);
                if cost >= i32::MAX - 1 {
                    lemma_walk_reached(*self, dist@, none@, radius, s, p, cost as int, false);
                } else {
                    assert forall|c: Coord| #![trigger at(dist@, c)] tile_at(*self, c) is Some && at(dist@, c) != i32::MAX
                        implies at(dist@, c) < cost by {
                        reveal(complete_at);
                        if at(dist@, c) == cost {
                            assert(layer@.contains(c));
                        }
                    }
                    lemma_walk_reached(*self, dist@, none@, radius, s, p, cost as int, true);
                }
                assert(at(dist@, p.last().coord) < cost);
            }
        }
        r
    }

    /// The search of `nearest_safe_tile` from a start off the map: breadth first from its
    /// neighbours on the map, over empty tiles, layer by layer, within a layer in order of
    /// column, then row. Gives the first safe tile found, which no floor walk beats.
    fn nearest_from_outside(&self, start: &Tile) -> (r: Option<&Tile>)
        requires
            tiles_placed(*self),
            tile_at(*self, start.coord) is None,
        ensures
            r matches Some(t) ==> {
                &&& t.safe
                &&& tile_at(*self, t.coord) == Some(*t)
                &&& t.cell_type == CellType::Empty
                &&& exists|cs: Seq<Coord>| #[trigger] floor_walk(*self, start.coord, cs) && cs.len() >= 1 && cs.last() == t.coord
                    && forall|ds: Seq<Coord>| #[trigger] floor_walk(*self, start.coord, ds) && ds.len() >= 1
                        && tile_at(*self, ds.last()).unwrap().safe ==> ds.len() >= cs.len()
            },
            r is None ==> forall|ds: Seq<Coord>| #[trigger] floor_walk(*self, start.coord, ds) && ds.len() >= 1
                && tile_at(*self, ds.last()).unwrap().safe ==> ds.len() >= i32::MAX - 1,
    {
        let s = start.coord;
        let mut seen: Vec<Vec<bool>> = blank_like(self, false);
        let mut layer: Vec<Coord> = Vec::new();
        layer.push(s);
        let mut cost: i32 = 0;
        proof {
            assert(layer@ =~= seq![s]);
        }
        while layer.len() > 0 && cost < i32::MAX - 1
            invariant
                s == start.coord,
                tiles_placed(*self),
                tile_at(*self, s) is None,
                same_shape(seen@, *self),
                0 <= cost < i32::MAX,
                coords_sorted(layer@),
                cost == 0 ==> layer@ == seq![s],
                cost > 0 ==> forall|q: int| 0 <= q < layer@.len() ==> floor_distance(*self, s, #[trigger] layer@[q], cost as int),
                cost > 0 ==> forall|c: Coord| #[trigger] floor_distance(*self, s, c, cost as int) ==> layer@.contains(c),
                forall|c: Coord| tile_at(*self, c) is Some ==> (#[trigger] at(seen@, c) <==> floor_within(*self, s, c, cost as int)),
                forall|c: Coord| #[trigger] floor_within(*self, s, c, cost - 1) ==> !tile_at(*self, c).unwrap().safe,
            decreases i32::MAX - cost,
        {
            let mut next: Vec<Coord> = Vec::new();
            for k in 0..layer.len()
                invariant
                    s == start.coord,
                    tiles_placed(*self),
                    tile_at(*self, s) is None,
                    same_shape(seen@, *self),
                    0 <= cost < i32::MAX - 1,
                    coords_sorted(layer@),
                    cost == 0 ==> layer@ == seq![s],
                    cost > 0 ==> forall|q: int| 0 <= q < layer@.len() ==> floor_distance(*self, s, #[trigger] layer@[q], cost as int),
                    cost > 0 ==> forall|c: Coord| #[trigger] floor_distance(*self, s, c, cost as int) ==> layer@.contains(c),
                    forall|c: Coord| #[trigger] floor_within(*self, s, c, cost - 1) ==> !tile_at(*self, c).unwrap().safe,
                    coords_sorted(next@),
                    forall|q: int| 0 <= q < next@.len() ==> floor_distance(*self, s, #[trigger] next@[q], cost + 1),
                    forall|c: Coord| tile_at(*self, c) is Some
                        ==> (#[trigger] at(seen@, c) <==> (floor_within(*self, s, c, cost as int) || next@.contains(c))),
                    forall|j: int| 0 <= j < k ==> !(tile_at(*self, #[trigger] layer@[j]) is Some
                        && tile_at(*self, layer@[j]).unwrap().safe),
                    forall|j: int, c: Coord| #![trigger layer@[j], at(seen@, c)]
                        0 <= j < k && tile_at(*self, c) is Some && tile_at(*self, c).unwrap().cell_type == CellType::Empty
                        && neighbours_of(layer@[j]).contains(c) ==> at(seen@, c),
            {
                let current = layer[k];
                if let Some(tile) = self.get(current) {
                    if tile.safe {
                        proof {
                            lemma_placed(*self, current);
                            assert(cost > 0);
                            assert(floor_distance(*self, s, layer@[k as int], cost as int));
                            let cs = choose|cs: Seq<Coord>| #[trigger] floor_walk(*self, s, cs) && cs.len() == cost
                                && floor_ends_at(s, cs, current);
                            assert(floor_step(*self, s, cs, cs.len() - 1));
                            assert forall|ds: Seq<Coord>| #[trigger] floor_walk(*self, s, ds) && ds.len() >= 1
                                && tile_at(*self, ds.last()).unwrap().safe implies ds.len() >= cs.len() by {
                                if ds.len() < cs.len() {
                                    assert(floor_within(*self, s, ds.last(), cost - 1));
                                }
                            }
                        }
                        return Some(tile);
                    }
                }
                let nbs = get_neighbour_coords(current);
                for j in 0..nbs.len()
                    invariant
                        s == start.coord,
                        tiles_placed(*self),
                        tile_at(*self, s) is None,
                        same_shape(seen@, *self),
                        0 <= cost < i32::MAX - 1,
                        0 <= k < layer@.len(),
                        current == layer@[k as int],
                        nbs@ == neighbours_of(current),
                        cost == 0 ==> layer@ == seq![s],
                        cost > 0 ==> forall|q: int| 0 <= q < layer@.len() ==> floor_distance(*self, s, #[trigger] layer@[q], cost as int),
                        coords_sorted(next@),
                        forall|q: int| 0 <= q < next@.len() ==> floor_distance(*self, s, #[trigger] next@[q], cost + 1),
                        forall|c: Coord| tile_at(*self, c) is Some
                            ==> (#[trigger] at(seen@, c) <==> (floor_within(*self, s, c, cost as int) || next@.contains(c))),
                        forall|jj: int, c: Coord| #![trigger layer@[jj], at(seen@, c)]
                            0 <= jj < k && tile_at(*self, c) is Some && tile_at(*self, c).unwrap().cell_type == CellType::Empty
                            && neighbours_of(layer@[jj]).contains(c) ==> at(seen@, c),
                        forall|q: int| 0 <= q < j && tile_at(*self, #[trigger] nbs@[q]) is Some
                            && tile_at(*self, nbs@[q]).unwrap().cell_type == CellType::Empty ==> at(seen@, nbs@[q]),
                {
                    let nc = nbs[j];
                    if let Some(tile) = self.get(nc) {
                        if !seen[nc.row.get()][nc.col.get()] && tile.cell_type == CellType::Empty {
                            proof {
                                assert(!at(seen@, nc));
                                assert(!floor_within(*self, s, nc, cost as int));
                                assert(neighbours_of(current).contains(nc)) by {
                                    assert(nbs@[j as int] == nc);
                                }
                                if cost == 0 {
                                    assert(current == s);
                                    let w = seq![nc];
                                    assert(floor_step(*self, s, w, 0));
                                    assert(floor_walk(*self, s, w));
                                    assert(floor_within(*self, s, nc, cost + 1));
                                } else {
                                    assert(floor_distance(*self, s, layer@[k as int], cost as int));
                                    let w = choose|w: Seq<Coord>| #[trigger] floor_walk(*self, s, w) && w.len() == cost
                                        && floor_ends_at(s, w, current);
                                    lemma_floor_push(*self, s, w, nc);
                                    assert(w.push(nc).last() == nc);
                                    assert(floor_within(*self, s, nc, cost + 1));
                                }
                                lemma_floor_exact(*self, s, nc, cost + 1);
                            }
                            let ghost n0 = next@;
                            let ghost seen0 = seen@;
                            set_at(&mut seen, nc, true);
                            insert_coord(&mut next, nc);
                            proof {
                                assert forall|q: int| 0 <= q < next@.len() implies floor_distance(*self, s, #[trigger] next@[q], cost + 1) by {
                                    assert(next@.contains(next@[q]));
                                    if next@[q] != nc {
                                        assert(n0.contains(next@[q]));
                                        let q0 = choose|q0: int| 0 <= q0 < n0.len() && n0[q0] == next@[q];
                                        assert(floor_distance(*self, s, n0[q0], cost + 1));
                                    }
                                }
                                assert(same_shape(seen@, *self)) by {
                                    assert forall|r: int| 0 <= r < seen@.len() implies (#[trigger] seen@[r])@.len() == self.map@[r]@.len() by {}
                                }
                                assert forall|c: Coord| tile_at(*self, c) is Some implies
                                    (#[trigger] at(seen@, c) <==> (floor_within(*self, s, c, cost as int) || next@.contains(c))) by {
                                    if c != nc {
                                        assert(at(seen@, c) == at(seen0, c));
                                    }
                                }
                            }
                        }
                    }
                    proof {
                        if tile_at(*self, nc) is Some && tile_at(*self, nc).unwrap().cell_type == CellType::Empty {
                            assert(at(seen@, nc));
                        }
                    }
                }
                proof {
                    assert forall|jj: int, c: Coord| #![trigger layer@[jj], at(seen@, c)]
                        0 <= jj < k + 1 && tile_at(*self, c) is Some && tile_at(*self, c).unwrap().cell_type == CellType::Empty
                        && neighbours_of(layer@[jj]).contains(c) implies at(seen@, c) by {
                        if jj == k {
                            let q = choose|q: int| 0 <= q < nbs@.len() && nbs@[q] == c;
                            assert(tile_at(*self, nbs@[q]) is Some);
                        }
                    }
                }
            }
            proof {
                lemma_next_layer(*self, s, cost as int, layer@, next@, seen@);
            }
            layer = next;
            cost = cost + 1;
        }
        proof {
            if layer.len() == 0 {
                assert(cost > 0);
                assert forall|x: Coord| !#[trigger] floor_distance(*self, s, x, cost as int) by {
                    if floor_distance(*self, s, x, cost as int) {
                        assert(layer@.contains(x));
                    }
                }
                assert forall|ds: Seq<Coord>| #[trigger] floor_walk(*self, s, ds) && ds.len() >= 1
                    && tile_at(*self, ds.last()).unwrap().safe implies ds.len() >= i32::MAX - 1 by {
                    lemma_floor_gap_along(*self, s, ds, ds.len() as int, cost as int);
                }
            } else {
                assert forall|ds: Seq<Coord>| #[trigger] floor_walk(*self, s, ds) && ds.len() >= 1
                    && tile_at(*self, ds.last()).unwrap().safe implies ds.len() >= i32::MAX - 1 by {
                    if ds.len() < cost {
                        assert(floor_within(*self, s, ds.last(), cost - 1));
                    }
                }
            }
        }
        None
    }

    /// Marks every tile as not visited.
    pub fn reset(&mut self)
        ensures
            final(self).map@.len() == old(self).map@.len(),
            forall|r: int| 0 <= r < old(self).map@.len() ==> (#[trigger] final(self).map@[r])@.len() == old(self).map@[r]@.len(),
            forall|r: int, c: int| 0 <= r < old(self).map@.len() && 0 <= c < old(self).map@[r]@.len()
                ==> #[trigger] final(self).map@[r]@[c] == (Tile { visited: false, ..old(self).map@[r]@[c] }),
    {
        let n = self.map.len();
        for r in 0..n
            invariant
                n == old(self).map@.len(),
                self.map@.len() == n,
                forall|q: int| 0 <= q < n ==> (#[trigger] self.map@[q])@.len() == old(self).map@[q]@.len(),
                forall|q: int, c: int| 0 <= q < r && 0 <= c < old(self).map@[q]@.len()
                    ==> #[trigger] self.map@[q]@[c] == (Tile { visited: false, ..old(self).map@[q]@[c] }),
                forall|q: int| r <= q < n ==> #[trigger] self.map@[q] == old(self).map@[q],
        {
            let mut row = self.map[r].clone();
            let m = row.len();
            proof {
                assert(row@ == old(self).map@[r as int]@) by {
                    assert forall|c: int| 0 <= c < row@.len() implies row@[c] == old(self).map@[r as int]@[c] by {}
                }
            }
            for c in 0..m
                invariant
                    m == old(self).map@[r as int]@.len(),
                    row@.len() == m,
                    forall|k: int| 0 <= k < c ==> #[trigger] row@[k] == (Tile { visited: false, ..old(self).map@[r as int]@[k] }),
                    forall|k: int| c <= k < m ==> #[trigger] row@[k] == old(self).map@[r as int]@[k],
            {
                let mut t = row[c];
                t.visited = false;
                row.set(c, t);
            }
            self.map.set(r, row);
        }
    }
}

} // verus!
