use vstd::prelude::*;
use crate::cell::CellType;
use crate::coord::{Coord, step_up, step_down, step_left, step_right};
use crate::grid::Grid;
use crate::map::GameMap;

verus! {

/// A bomb lying on the board, `timer` turns from exploding.
#[derive(Clone, Copy, Debug)]
pub struct Bomb {
    pub position: Coord,
    pub timer: usize,
    pub player_id: usize,
}

/// One step in direction `d`: 0 up, 1 down, 2 left, 3 right.
pub open spec fn step_dir(c: Coord, d: int) -> Option<Coord> {
    if d == 0 {
        step_up(c)
    } else if d == 1 {
        step_down(c)
    } else if d == 2 {
        step_left(c)
    } else {
        step_right(c)
    }
}

/// The tiles a blast reaches from `from` going in direction `d` for at most `steps` tiles:
/// a wall stops it before the wall, a destroyable block stops it on the block, and
/// everything else lets it through.
pub open spec fn blast_ray(grid: Grid, from: Coord, d: int, steps: nat) -> Seq<Coord>
    decreases steps,
{
    if steps == 0 {
        Seq::empty()
    } else {
        match step_dir(from, d) {
            None => Seq::empty(),
            Some(next) => {
                let t = grid.cell_at(next);
                if t == CellType::Wall {
                    Seq::empty()
                } else if t == CellType::Destroyable {
                    seq![next]
                } else {
                    seq![next] + blast_ray(grid, next, d, (steps - 1) as nat)
                }
            }
        }
    }
}

/// The tiles an explosion at `center` with the given radius reaches, in order: the
/// centre, then the rays going up, down, left and right.
pub open spec fn blast_area(grid: Grid, center: Coord, radius: nat) -> Seq<Coord> {
    seq![center] + blast_ray(grid, center, 0, radius) + blast_ray(grid, center, 1, radius)
        + blast_ray(grid, center, 2, radius) + blast_ray(grid, center, 3, radius)
}

/// The tile `k` steps away from `c` in direction `d`, if the board's edge allows it.
pub open spec fn tile_out(c: Coord, d: int, k: nat) -> Option<Coord>
    decreases k,
{
    if k == 0 {
        Some(c)
    } else {
        match step_dir(c, d) {
            Some(next) => tile_out(next, d, (k - 1) as nat),
            None => None,
        }
    }
}

/// The tiles 1 to `k` steps from `c` in direction `d` all exist and hold neither a wall
/// nor a destroyable block (they are empty, or hold a player or a bomb).
pub open spec fn open_line(grid: Grid, c: Coord, d: int, k: nat) -> bool {
    forall|j: nat| 1 <= j <= k ==> {
        &&& (#[trigger] tile_out(c, d, j)) is Some
        &&& grid.cell_at(tile_out(c, d, j).unwrap()) != CellType::Wall
        &&& grid.cell_at(tile_out(c, d, j).unwrap()) != CellType::Destroyable
    }
}

proof fn lemma_ray_passes(grid: Grid, from: Coord, d: int, steps: nat, k: nat)
    requires
        k < steps,
        open_line(grid, from, d, k),
        tile_out(from, d, k + 1) is Some,
        grid.cell_at(tile_out(from, d, k + 1).unwrap()) != CellType::Wall,
    ensures
        blast_ray(grid, from, d, steps).contains(tile_out(from, d, k + 1).unwrap()),
    decreases k,
{
    let next = step_dir(from, d).unwrap();
    assert(tile_out(from, d, 1) == tile_out(next, d, 0));
    let rest = blast_ray(grid, next, d, (steps - 1) as nat);
    if k == 0 {
        assert(tile_out(from, d, 1) == Some(next));
        if grid.cell_at(next) == CellType::Destroyable {
            assert(blast_ray(grid, from, d, steps) == seq![next]);
            assert(seq![next][0] == next);
        } else {
            assert(blast_ray(grid, from, d, steps) == seq![next] + rest);
            assert((seq![next] + rest)[0] == next);
        }
    } else {
        assert(tile_out(from, d, 1) is Some);
        assert(blast_ray(grid, from, d, steps) == seq![next] + rest);
        assert forall|j: nat| 1 <= j <= (k - 1) as nat implies {
            &&& (#[trigger] tile_out(next, d, j)) is Some
            &&& grid.cell_at(tile_out(next, d, j).unwrap()) != CellType::Wall
            &&& grid.cell_at(tile_out(next, d, j).unwrap()) != CellType::Destroyable
        } by {
            assert(tile_out(from, d, j + 1) == tile_out(next, d, j));
        }
        assert(tile_out(from, d, k + 1) == tile_out(next, d, k));
        lemma_ray_passes(grid, next, d, (steps - 1) as nat, (k - 1) as nat);
        let t = tile_out(from, d, k + 1).unwrap();
        crate::map::lemma_contains_concat(seq![next], rest, t);
    }
}

/// `t` is the tile `k` steps from `from` in direction `d`, the tiles before it on the
/// way hold neither a wall nor a destroyable block, and `t` is no wall.
pub open spec fn reached_at(grid: Grid, from: Coord, d: int, k: nat, t: Coord) -> bool {
    &&& tile_out(from, d, k) == Some(t)
    &&& open_line(grid, from, d, (k - 1) as nat)
    &&& grid.cell_at(t) != CellType::Wall
}

/// A ray of a blast holds only tiles it could reach: each is some `k` steps out, within
/// the ray's length, past tiles that hold neither a wall nor a destroyable block, and
/// is no wall itself. So the ray ends before a wall and on a destroyable block.
pub proof fn law_blast_ray_reaches_only_open_tiles(grid: Grid, from: Coord, d: int, steps: nat, t: Coord)
    requires
        blast_ray(grid, from, d, steps).contains(t),
    ensures
        exists|k: nat| 1 <= k <= steps && #[trigger] reached_at(grid, from, d, k, t),
    decreases steps,
{
    let next = step_dir(from, d).unwrap();
    let rest = blast_ray(grid, next, d, (steps - 1) as nat);
    assert(tile_out(from, d, 1) == tile_out(next, d, 0));
    if t == next {
        assert(reached_at(grid, from, d, 1, t));
    } else {
        if grid.cell_at(next) == CellType::Destroyable {
            assert(blast_ray(grid, from, d, steps) == seq![next]);
            assert(seq![next].contains(t));
            assert(seq![next][0] == next);
            assert(false);
        }
        assert(blast_ray(grid, from, d, steps) == seq![next] + rest);
        crate::map::lemma_contains_concat(seq![next], rest, t);
        if seq![next].contains(t) {
            assert(seq![next][0] == next);
        }
        law_blast_ray_reaches_only_open_tiles(grid, next, d, (steps - 1) as nat, t);
        let k = choose|k: nat| 1 <= k <= (steps - 1) as nat && #[trigger] reached_at(grid, next, d, k, t);
        assert(tile_out(from, d, k + 1) == tile_out(next, d, k));
        assert forall|j: nat| 1 <= j <= k implies {
            &&& (#[trigger] tile_out(from, d, j)) is Some
            &&& grid.cell_at(tile_out(from, d, j).unwrap()) != CellType::Wall
            &&& grid.cell_at(tile_out(from, d, j).unwrap()) != CellType::Destroyable
        } by {
            assert(tile_out(from, d, j) == tile_out(next, d, (j - 1) as nat));
            if j > 1 {
                assert(1 <= (j - 1) as nat <= (k - 1) as nat);
                assert(open_line(grid, next, d, (k - 1) as nat));
            }
        }
        assert(reached_at(grid, from, d, k + 1, t));
    }
}

/// A blast passes over empty tiles, players and bombs: going out from the centre in
/// any direction, as long as the tiles passed hold neither a wall nor a destroyable
/// block, the next tile within the radius is blasted unless it is a wall (a
/// destroyable block there is blasted too, and stops the ray).
pub proof fn law_blast_passes_players_and_bombs(grid: Grid, center: Coord, radius: nat, d: int, k: nat)
    requires
        0 <= d < 4,
        k < radius,
        open_line(grid, center, d, k),
        tile_out(center, d, k + 1) is Some,
        grid.cell_at(tile_out(center, d, k + 1).unwrap()) != CellType::Wall,
    ensures
        blast_area(grid, center, radius).contains(tile_out(center, d, k + 1).unwrap()),
{
    let t = tile_out(center, d, k + 1).unwrap();
    lemma_ray_passes(grid, center, d, radius, k);
    let r0 = blast_ray(grid, center, 0, radius);
    let r1 = blast_ray(grid, center, 1, radius);
    let r2 = blast_ray(grid, center, 2, radius);
    let r3 = blast_ray(grid, center, 3, radius);
    crate::map::lemma_contains_concat(seq![center] + r0 + r1 + r2, r3, t);
    crate::map::lemma_contains_concat(seq![center] + r0 + r1, r2, t);
    crate::map::lemma_contains_concat(seq![center] + r0, r1, t);
    crate::map::lemma_contains_concat(seq![center], r0, t);
}

fn step_direction(c: Coord, d: usize) -> (r: Option<Coord>)
    requires
        d < 4,
    ensures
        r == step_dir(c, d as int),
{
    if d == 0 {
        c.move_up()
    } else if d == 1 {
        c.move_down()
    } else if d == 2 {
        c.move_left()
    } else {
        c.move_right()
    }
}

/// Appends the tiles of one ray of a blast to `locations`.
fn push_ray(grid: &Grid, center: Coord, d: usize, radius: usize, locations: &mut Vec<Coord>)
    requires
        grid.wf(),
        d < 4,
    ensures
        final(locations)@ == old(locations)@ + blast_ray(*grid, center, d as int, radius as nat),
{
    let ghost base = locations@;
    let mut current = center;
    let mut k: usize = 0;
    while k < radius
        invariant_except_break
            grid.wf(),
            d < 4,
            k <= radius,
            locations@ + blast_ray(*grid, current, d as int, (radius - k) as nat)
                == base + blast_ray(*grid, center, d as int, radius as nat),
        ensures
            locations@ == base + blast_ray(*grid, center, d as int, radius as nat),
        decreases radius - k,
    {
        match step_direction(current, d) {
            Some(loc) => {
                let cell_type = grid.cell_type(loc);
                match cell_type {
                    CellType::Wall => {
                        break;
                    },
                    CellType::Destroyable => {
                        locations.push(loc);
                        proof {
                            assert(blast_ray(*grid, current, d as int, (radius - k) as nat) == seq![loc]);
                        }
                        break;
                    },
                    _ => {
                        let ghost acc = locations@;
                        locations.push(loc);
                        proof {
                            assert(blast_ray(*grid, current, d as int, (radius - k) as nat)
                                == seq![loc] + blast_ray(*grid, loc, d as int, (radius - k - 1) as nat));
                            assert(acc + (seq![loc] + blast_ray(*grid, loc, d as int, (radius - k - 1) as nat))
                                =~= acc.push(loc) + blast_ray(*grid, loc, d as int, (radius - k - 1) as nat));
                        }
                        current = loc;
                    },
                }
            },
            None => {
                break;
            },
        }
        k = k + 1;
    }
    proof {
        assert(locations@ =~= base + blast_ray(*grid, center, d as int, radius as nat));
    }
}

/// The tiles an explosion at `center` reaches on `grid`.
pub fn blast_locations(grid: &Grid, center: Coord, radius: usize) -> (locations: Vec<Coord>)
    requires
        grid.wf(),
    ensures
        locations@ == blast_area(*grid, center, radius as nat),
{
    let mut locations: Vec<Coord> = Vec::new();
    locations.push(center);
    push_ray(grid, center, 0, radius, &mut locations);
    push_ray(grid, center, 1, radius, &mut locations);
    push_ray(grid, center, 2, radius, &mut locations);
    push_ray(grid, center, 3, radius, &mut locations);
    proof {
        assert(locations@ =~= blast_area(*grid, center, radius as nat));
    }
    locations
}

impl Bomb {
    pub fn new(position: Coord, timer: usize, player_id: usize) -> (b: Bomb)
        ensures
            b.position == position,
            b.timer == timer,
            b.player_id == player_id,
    {
        Bomb { position, timer, player_id }
    }

    /// The tiles this bomb's explosion reaches on `map`.
    pub fn explosion_locations(&self, map: &GameMap) -> (locations: Vec<Coord>)
        requires
            map.grid.wf(),
        ensures
            locations@ == blast_area(map.grid, self.position, map.map_settings.bomb_radius as nat),
    {
        blast_locations(&map.grid, self.position, map.map_settings.bomb_radius)
    }
}

} // verus!
