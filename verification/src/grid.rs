use vstd::prelude::*;
use crate::cell::{CellType, cell_of, char_of};
use crate::coord::{Coord, in_bounds};

verus! {

/// A square board of `size` x `size` tiles, stored row by row.
pub struct Grid {
    pub tiles: Vec<char>,
    pub size: usize,
}

/// `r * n + c < n * n` whenever `r < n` and `c < n`.
pub proof fn lemma_index_in_square(r: int, c: int, n: int)
    requires
        0 <= r < n,
        0 <= c < n,
    ensures
        0 <= r * n + c < n * n,
        r * n + c <= (n - 1) * n + (n - 1),
{
    assert(r * n <= (n - 1) * n) by (nonlinear_arith)
        requires 0 <= r < n;
    assert((n - 1) * n + (n - 1) < n * n) by (nonlinear_arith)
        requires 0 < n;
    assert(0 <= r * n) by (nonlinear_arith)
        requires 0 <= r, 0 < n;
}

/// The row-major index of a position on a grid of side `size`.
pub open spec fn index_of(c: Coord, size: int) -> int {
    c.row.0 * size + c.col.0
}

impl Grid {
    /// The tile vector holds a character for every tile (any more are not read).
    pub open spec fn wf(&self) -> bool {
        self.size * self.size <= self.tiles.len()
    }

    /// What the tile at `c` holds; everything off the board counts as wall.
    pub open spec fn cell_at(&self, c: Coord) -> CellType {
        if in_bounds(c, self.size as int, self.size as int) {
            cell_of(self.tiles@[index_of(c, self.size as int)])
        } else {
            CellType::Wall
        }
    }

    pub fn new(tiles: Vec<char>, size: usize) -> (g: Grid)
        ensures
            g.tiles@ == tiles@,
            g.size == size,
    {
        Grid { tiles, size }
    }

    pub fn cell_type(&self, position: Coord) -> (t: CellType)
        requires
            self.wf(),
        ensures
            t == self.cell_at(position),
    {
        if self.out_of_bounds(&position) {
            return CellType::Wall;
        }
        proof {
            lemma_index_in_square(position.row.0 as int, position.col.0 as int, self.size as int);
        }
        let idx = self.cell_index(&position);
        CellType::from_char(self.tiles[idx])
    }

    pub fn cell_index(&self, position: &Coord) -> (i: usize)
        requires
            index_of(*position, self.size as int) <= usize::MAX,
        ensures
            i == index_of(*position, self.size as int),
    {
        proof {
            assert(0 <= position.row.0 * self.size) by (nonlinear_arith);
        }
        position.row.0 * self.size + position.col.0
    }

    pub fn out_of_bounds(&self, position: &Coord) -> (b: bool)
        ensures
            b == !in_bounds(*position, self.size as int, self.size as int),
    {
        !position.is_valid(self.size, self.size)
    }

    /// A destroyable tile at `location` becomes empty; any other tile stays as it is.
    pub fn clear_destructable(&mut self, location: Coord)
        requires
            old(self).wf(),
        ensures
            final(self).wf(),
            final(self).size == old(self).size,
            final(self).tiles@ == if old(self).cell_at(location) == CellType::Destroyable {
                old(self).tiles@.update(index_of(location, old(self).size as int), ' ')
            } else {
                old(self).tiles@
            },
    {
        if self.cell_type(location) == CellType::Destroyable {
            self.set_cell(location, CellType::Empty);
        }
    }

    /// Turns the tile at `position` into a wall when it lies on the board.
    pub fn set_wall(&mut self, position: Coord)
        requires
            old(self).wf(),
        ensures
            final(self).wf(),
            final(self).size == old(self).size,
            final(self).tiles@ == if in_bounds(position, old(self).size as int, old(self).size as int) {
                old(self).tiles@.update(index_of(position, old(self).size as int), 'W')
            } else {
                old(self).tiles@
            },
    {
        if position.is_valid(self.size, self.size) {
            self.set_cell(position, CellType::Wall);
        }
    }

    /// Stores `cell_type` at `position` when it lies on the board.
    pub fn set_cell(&mut self, position: Coord, cell_type: CellType)
        requires
            old(self).wf(),
        ensures
            final(self).wf(),
            final(self).size == old(self).size,
            final(self).tiles@ == if in_bounds(position, old(self).size as int, old(self).size as int) {
                old(self).tiles@.update(index_of(position, old(self).size as int), char_of(cell_type))
            } else {
                old(self).tiles@
            },
    {
        if position.is_valid(self.size, self.size) {
            proof {
                lemma_index_in_square(position.row.0 as int, position.col.0 as int, self.size as int);
            }
            let idx = self.cell_index(&position);
            self.tiles.set(idx, cell_type.as_char());
        }
    }

    /// Only empty tiles on the board can be walked onto.
    pub fn can_move_to(&self, coord: Coord) -> (b: bool)
        requires
            self.wf(),
        ensures
            b == (self.cell_at(coord) == CellType::Empty),
    {
        self.cell_type(coord) == CellType::Empty
    }
}

/// Two different positions on the board have different tile indices.
pub proof fn lemma_index_injective(a: Coord, b: Coord, n: int)
    requires
        in_bounds(a, n, n),
        in_bounds(b, n, n),
        a != b,
    ensures
        index_of(a, n) != index_of(b, n),
{
    if a.row.0 == b.row.0 {
        assert(a.col.0 != b.col.0);
    } else if a.row.0 < b.row.0 {
        assert(a.row.0 * n + n <= b.row.0 * n) by (nonlinear_arith)
            requires a.row.0 < b.row.0, n > 0;
    } else {
        assert(b.row.0 * n + n <= a.row.0 * n) by (nonlinear_arith)
            requires b.row.0 < a.row.0, n > 0;
    }
}

/// What a write stores is what a read gives back: after storing `t` at an on-board
/// position, that position reads as `t` and every other position reads as before.
pub proof fn lemma_set_cell_then_read(before: Grid, after: Grid, position: Coord, t: CellType, other: Coord)
    requires
        before.wf(),
        after.size == before.size,
        in_bounds(position, before.size as int, before.size as int),
        after.tiles@ == before.tiles@.update(index_of(position, before.size as int), char_of(t)),
    ensures
        after.wf(),
        after.cell_at(position) == t,
        other != position ==> after.cell_at(other) == before.cell_at(other),
{
    lemma_index_in_square(position.row.0 as int, position.col.0 as int, before.size as int);
    if other != position && in_bounds(other, before.size as int, before.size as int) {
        lemma_index_injective(other, position, before.size as int);
        lemma_index_in_square(other.row.0 as int, other.col.0 as int, before.size as int);
    }
}

} // verus!
