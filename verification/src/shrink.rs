use vstd::prelude::*;
use crate::coord::{Coord, coord};

verus! {

/// The tile walled at step `n` of the shrink that spirals clockwise inwards over the
/// `size` x `size` square whose top-left tile sits at `(layer + 1, layer + 1)`:
/// first the top row left to right, then the right column downwards, the bottom row
/// right to left, the left column upwards, then the next ring inside.
pub open spec fn spiral(size: int, n: int, layer: int) -> Option<Coord>
    decreases size,
{
    if size <= 0 {
        None
    } else if size == 1 {
        Some(coord(layer + 1, layer + 1))
    } else if n < 4 * (size - 1) {
        let start = layer;
        let end = layer + size - 1;
        if n < size - 1 {
            Some(coord(start + n + 1, start + 1))
        } else if n < 2 * (size - 1) {
            Some(coord(end + 1, start + (n - (size - 1)) + 1))
        } else if n < 3 * (size - 1) {
            Some(coord(end - (n - 2 * (size - 1)) + 1, end + 1))
        } else {
            Some(coord(start + 1, end - (n - 3 * (size - 1)) + 1))
        }
    } else {
        spiral(size - 2, n - 4 * (size - 1), layer + 1)
    }
}

/// The tile the shrink walls at step `shrink_number` on a board of side `size`;
/// none once every inner tile has been walled.
pub open spec fn shrink_location(shrink_number: nat, size: nat) -> Option<Coord> {
    if size < 2 || shrink_number >= (size - 2) * (size - 2) {
        None
    } else {
        spiral(size - 2, shrink_number as int, 0)
    }
}

pub fn calculate_shrink_location(shrink_number: usize, size: usize) -> (r: Option<Coord>)
    requires
        size >= 2,
        (size - 2) * (size - 2) <= usize::MAX,
    ensures
        r == shrink_location(shrink_number as nat, size as nat),
{
    let inner_length = size - 2;
    if size < 2 || shrink_number >= (inner_length * inner_length) {
        return None;
    }
    proof {
        if inner_length >= 4 {
            assert(4 * inner_length <= inner_length * inner_length) by (nonlinear_arith)
                requires inner_length >= 4;
        }
    }
    spiral_coord(size - 2, shrink_number, 0)
}

fn spiral_coord(size: usize, n: usize, layer: usize) -> (r: Option<Coord>)
    requires
        layer + size + 2 <= usize::MAX,
        4 * size <= usize::MAX,
    ensures
        r == spiral(size as int, n as int, layer as int),
    decreases size,
{
    if size == 0 {
        return None;
    } else if size == 1 {
        return get_coord_with_offset(layer, layer);
    }
    let perimiter = calculate_perimiter(size);
    if n < perimiter {
        let start = layer;
        let end = layer + size - 1;
        if is_top_row(n, size) {
            get_coord_with_offset(start + n, start)
        } else if is_right_column(n, size) {
            let m = n - (size - 1);
            get_coord_with_offset(end, start + m)
        } else if is_bottom_row(n, size) {
            let m = n - 2 * (size - 1);
            get_coord_with_offset(end - m, end)
        } else {
            let m = n - 3 * (size - 1);
            get_coord_with_offset(start, end - m)
        }
    } else {
        spiral_coord(size - 2, n - perimiter, layer + 1)
    }
}

fn calculate_perimiter(size: usize) -> (p: usize)
    requires
        size >= 1,
        4 * size <= usize::MAX,
    ensures
        p == 4 * (size - 1),
{
    4 * (size - 1)
}

fn is_top_row(n: usize, size: usize) -> (b: bool)
    requires
        size >= 1,
    ensures
        b == (n < size - 1),
{
    n < size - 1
}

fn is_right_column(n: usize, size: usize) -> (b: bool)
    requires
        size >= 1,
        4 * size <= usize::MAX,
    ensures
        b == (n < 2 * (size - 1)),
{
    n < 2 * (size - 1)
}

fn is_bottom_row(n: usize, size: usize) -> (b: bool)
    requires
        size >= 1,
        4 * size <= usize::MAX,
    ensures
        b == (n < 3 * (size - 1)),
{
    n < 3 * (size - 1)
}

fn get_coord_with_offset(col: usize, row: usize) -> (r: Option<Coord>)
    requires
        col < usize::MAX,
        row < usize::MAX,
    ensures
        r == Some(coord(col + 1, row + 1)),
{
    Some(Coord::from(col + 1, row + 1))
}

/// Every step of the spiral that lies within the square lands inside the square.
proof fn lemma_spiral_inside(size: int, n: int, layer: int)
    requires
        size >= 0,
        n >= 0,
        layer >= 0,
        layer + size + 1 <= usize::MAX,
        n < size * size,
    ensures
        spiral(size, n, layer) matches Some(c) && layer + 1 <= c.col.0 <= layer + size
            && layer + 1 <= c.row.0 <= layer + size,
    decreases size,
{
    if size >= 2 && n >= 4 * (size - 1) {
        assert((size - 2) * (size - 2) == size * size - 4 * (size - 1)) by (nonlinear_arith)
            requires size >= 2;
        lemma_spiral_inside(size - 2, n - 4 * (size - 1), layer + 1);
    } else if size == 0 {
        assert(size * size == 0) by (nonlinear_arith)
            requires size == 0;
    }
}

/// Until the inner area is used up, every shrink step walls a tile strictly inside the
/// outer wall; after that there is nothing left to wall.
pub proof fn lemma_shrink_location_inside(shrink_number: nat, size: nat)
    requires
        size >= 2,
        size < usize::MAX,
    ensures
        shrink_number < (size - 2) * (size - 2) ==> (shrink_location(shrink_number, size) matches Some(c)
            && 1 <= c.col.0 <= size - 2 && 1 <= c.row.0 <= size - 2),
        shrink_number >= (size - 2) * (size - 2) ==> shrink_location(shrink_number, size) is None,
{
    if shrink_number < (size - 2) * (size - 2) {
        lemma_spiral_inside(size - 2, shrink_number as int, 0);
    }
}

/// Two different steps of the spiral within the square land on different tiles.
proof fn lemma_spiral_injective(size: int, n1: int, n2: int, layer: int)
    requires
        size >= 0,
        0 <= n1 < n2,
        n2 < size * size,
        layer >= 0,
        layer + size + 1 <= usize::MAX,
    ensures
        spiral(size, n1, layer) != spiral(size, n2, layer),
    decreases size,
{
    if size == 1 {
        assert(size * size == 1) by (nonlinear_arith)
            requires size == 1;
    } else if size >= 2 {
        let ring = 4 * (size - 1);
        assert((size - 2) * (size - 2) == size * size - ring) by (nonlinear_arith)
            requires size >= 2, ring == 4 * (size - 1);
        if n2 < ring {
        } else if n1 < ring {
            lemma_spiral_inside(size - 2, n2 - ring, layer + 1);
        } else {
            lemma_spiral_injective(size - 2, n1 - ring, n2 - ring, layer + 1);
        }
    } else {
        assert(size * size == 0) by (nonlinear_arith)
            requires size == 0;
    }
}

/// The shrink never walls a tile twice: different steps within the endgame wall
/// different tiles.
pub proof fn lemma_shrink_walls_each_tile_once(n1: nat, n2: nat, size: nat)
    requires
        size >= 2,
        size < usize::MAX,
        n1 < n2 < (size - 2) * (size - 2),
    ensures
        shrink_location(n1, size) != shrink_location(n2, size),
{
    lemma_spiral_injective(size - 2, n1 as int, n2 as int, 0);
}

/// Every tile of the square is some step of the spiral over it: the step is returned.
proof fn lemma_spiral_onto(size: int, layer: int, col: int, row: int) -> (n: int)
    requires
        size >= 1,
        layer >= 0,
        layer + 1 <= col <= layer + size,
        layer + 1 <= row <= layer + size,
    ensures
        0 <= n < size * size,
        spiral(size, n, layer) == Some(coord(col, row)),
    decreases size,
{
    if size == 1 {
        assert(size * size == 1) by (nonlinear_arith)
            requires size == 1;
        0
    } else {
        let ring = 4 * (size - 1);
        let start = layer;
        let end = layer + size - 1;
        assert(ring <= size * size) by (nonlinear_arith)
            requires size >= 2, ring == 4 * (size - 1);
        if row == start + 1 && col < end + 1 {
            col - start - 1
        } else if col == end + 1 && row < end + 1 {
            (size - 1) + (row - start - 1)
        } else if row == end + 1 && col > start + 1 {
            2 * (size - 1) + (end + 1 - col)
        } else if col == start + 1 && row > start + 1 {
            3 * (size - 1) + (end + 1 - row)
        } else {
            assert((size - 2) * (size - 2) == size * size - ring) by (nonlinear_arith)
                requires size >= 2, ring == 4 * (size - 1);
            let inner = lemma_spiral_onto(size - 2, layer + 1, col, row);
            inner + ring
        }
    }
}

/// The shrink reaches every tile inside the outer wall: each inner tile is walled at
/// some step before the inner area is used up.
pub proof fn lemma_shrink_walls_every_inner_tile(col: nat, row: nat, size: nat)
    requires
        size >= 3,
        1 <= col <= size - 2,
        1 <= row <= size - 2,
    ensures
        exists|n: nat| n < (size - 2) * (size - 2) && #[trigger] shrink_location(n, size) == Some(coord(col as int, row as int)),
{
    let n = lemma_spiral_onto(size - 2, 0, col as int, row as int);
    assert(shrink_location(n as nat, size) == Some(coord(col as int, row as int)));
}

} // verus!
