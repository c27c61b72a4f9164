use vstd::prelude::*;
use crate::coord::{Coord, in_bounds, in_square_3x3};
use crate::grid::{Grid, index_of, lemma_index_in_square, lemma_index_injective};

verus! {

/// Builds the starting board.
///
/// The outer ring is wall, every tile whose row and column are both even is wall,
/// everything else is a destroyable block, except that the blocks in the 3x3 square
/// around each player are cleared:
///
/// ```text
/// WWWWWWW
/// W.....W
/// W.W.W.W
/// W.....W
/// W.W.W.W
/// W.....W
/// WWWWWWW
/// ```
pub struct GridFactory {}

/// The tile at `c` before any player is placed.
pub open spec fn base_tile(size: int, c: Coord) -> char {
    let row = c.row.0 as int;
    let col = c.col.0 as int;
    if row == 0 || row == size - 1 || col == 0 || col == size - 1 || (col % 2 == 0 && row % 2 == 0) {
        'W'
    } else {
        '.'
    }
}

/// `c` lies in the 3x3 square around one of the `players`.
pub open spec fn near_a_player(players: Seq<Coord>, c: Coord) -> bool {
    exists|i: int| 0 <= i < players.len() && in_square_3x3(c, #[trigger] players[i])
}

/// The tile at `c` of the starting board for players at `players`.
pub open spec fn start_tile(size: int, players: Seq<Coord>, c: Coord) -> char {
    if base_tile(size, c) == '.' && near_a_player(players, c) {
        ' '
    } else {
        base_tile(size, c)
    }
}

/// `tiles` is the starting board of side `size` for players at `players`.
pub open spec fn is_start_board(tiles: Seq<char>, size: int, players: Seq<Coord>) -> bool {
    &&& tiles.len() == size * size
    &&& forall|c: Coord| in_bounds(c, size, size) ==> tiles[index_of(c, size)] == start_tile(size, players, c)
}

impl GridFactory {
    pub fn new(size: usize, player_locations: Vec<Coord>) -> (g: Grid)
        requires
            size * size <= usize::MAX,
        ensures
            g.wf(),
            g.size == size,
            is_start_board(g.tiles@, size as int, player_locations@),
    {
        let tiles = Self::generate_grid(size);
        let mut grid = Grid::new(tiles, size);
        Self::remove_destructables_around_users(&mut grid, player_locations);
        grid
    }

    fn generate_grid(size: usize) -> (tiles: Vec<char>)
        requires
            size * size <= usize::MAX,
        ensures
            tiles@.len() == size * size,
            forall|c: Coord| in_bounds(c, size as int, size as int)
                ==> tiles@[index_of(c, size as int)] == base_tile(size as int, c),
    {
        let n = size * size;
        let mut grid: Vec<char> = Vec::new();
        for k in 0..n
            invariant
                n == size * size,
                grid@.len() == k,
                forall|j: int| 0 <= j < k ==> grid@[j] == '.',
        {
            grid.push('.');
        }
        proof {
            assert forall|c: Coord| #![trigger index_of(c, size as int)] in_bounds(c, size as int, size as int)
                implies grid@[index_of(c, size as int)] == '.' by {
                lemma_index_in_square(c.row.0 as int, c.col.0 as int, size as int);
            }
        }
        for row in 0..size
            invariant
                n == size * size,
                grid@.len() == n,
                forall|c: Coord| #![trigger index_of(c, size as int)] in_bounds(c, size as int, size as int)
                    ==> grid@[index_of(c, size as int)] == if c.row.0 < row { base_tile(size as int, c) } else { '.' },
        {
            for column in 0..size
                invariant
                    n == size * size,
                    grid@.len() == n,
                    row < size,
                    forall|c: Coord| #![trigger index_of(c, size as int)] in_bounds(c, size as int, size as int)
                        ==> grid@[index_of(c, size as int)] == if c.row.0 < row || (c.row.0 == row && c.col.0 < column) {
                            base_tile(size as int, c)
                        } else {
                            '.'
                        },
            {
                let walled = (row == 0 || row == size - 1 || column == 0 || column == size - 1)
                    || (column % 2 == 0 && row % 2 == 0);
                let here = Coord::from(column, row);
                proof {
                    lemma_index_in_square(row as int, column as int, size as int);
                }
                let ghost before = grid@;
                if walled {
                    grid.set(row * size + column, 'W');
                }
                proof {
                    assert forall|c: Coord| #![trigger index_of(c, size as int)] in_bounds(c, size as int, size as int)
                        implies grid@[index_of(c, size as int)] == if c.row.0 < row || (c.row.0 == row && c.col.0 < column + 1) {
                            base_tile(size as int, c)
                        } else {
                            '.'
                        } by {
                        if c != here {
                            lemma_index_injective(c, here, size as int);
                            lemma_index_in_square(c.row.0 as int, c.col.0 as int, size as int);
                        }
                        assert(index_of(here, size as int) == row * size + column);
                    }
                }
            }
        }
        grid
    }

    fn remove_destructables_around_users(grid: &mut Grid, player_positions: Vec<Coord>)
        requires
            old(grid).wf(),
            old(grid).tiles@.len() == old(grid).size * old(grid).size,
            forall|c: Coord| in_bounds(c, old(grid).size as int, old(grid).size as int)
                ==> old(grid).tiles@[index_of(c, old(grid).size as int)] == base_tile(old(grid).size as int, c),
        ensures
            final(grid).wf(),
            final(grid).size == old(grid).size,
            is_start_board(final(grid).tiles@, old(grid).size as int, player_positions@),
    {
        let ghost size = grid.size as int;
        for k in 0..player_positions.len()
            invariant
                grid.wf(),
                grid.size == size,
                grid.tiles@.len() == size * size,
                forall|c: Coord| #![trigger index_of(c, size)] in_bounds(c, size, size)
                    ==> grid.tiles@[index_of(c, size)] == start_tile(size, player_positions@.take(k as int), c),
        {
            let square = player_positions[k].square_3x3();
            let ghost done = player_positions@.take(k as int);
            let ghost p = player_positions@[k as int];
            for j in 0..square.len()
                invariant
                    grid.wf(),
                    grid.size == size,
                    grid.tiles@.len() == size * size,
                    0 <= k < player_positions@.len(),
                    done == player_positions@.take(k as int),
                    p == player_positions@[k as int],
                    forall|i: int| 0 <= i < square@.len() ==> in_square_3x3(#[trigger] square@[i], p),
                    forall|c: Coord| #![trigger index_of(c, size)] in_bounds(c, size, size)
                        ==> grid.tiles@[index_of(c, size)] == if base_tile(size, c) == '.' && (near_a_player(done, c)
                            || exists|i: int| 0 <= i < j && square@[i] == c) {
                            ' '
                        } else {
                            base_tile(size, c)
                        },
            {
                let target = square[j];
                let ghost before = grid.tiles@;
                let ghost old_grid = *grid;
                grid.clear_destructable(target);
                proof {
                    if in_bounds(target, size, size) {
                        lemma_index_in_square(target.row.0 as int, target.col.0 as int, size);
                    }
                    assert(grid.tiles@.len() == before.len());
                    assert forall|c: Coord| #![trigger index_of(c, size)] in_bounds(c, size, size)
                        implies grid.tiles@[index_of(c, size)] == if base_tile(size, c) == '.' && (near_a_player(done, c)
                            || exists|i: int| 0 <= i < j + 1 && square@[i] == c) {
                            ' '
                        } else {
                            base_tile(size, c)
                        } by {
                        lemma_index_in_square(c.row.0 as int, c.col.0 as int, size);
                        if c != target && in_bounds(target, size, size) {
                            lemma_index_injective(c, target, size);
                        }
                        if c == target {
                            assert(square@[j as int] == c);
                            assert(exists|i: int| 0 <= i < j + 1 && square@[i] == c);
                            let b = base_tile(size, c);
                            assert(b == 'W' || b == '.');
                            if b == '.' {
                                assert(before[index_of(c, size)] == ' ' || before[index_of(c, size)] == '.');
                            } else {
                                assert(before[index_of(c, size)] == 'W');
                            }
                        } else {
                            if in_bounds(target, size, size) {
                                lemma_index_in_square(target.row.0 as int, target.col.0 as int, size);
                                assert(index_of(c, size) != index_of(target, size));
                            }
                            assert(grid.tiles@[index_of(c, size)] == before[index_of(c, size)]);
                            assert((exists|i: int| 0 <= i < j + 1 && square@[i] == c) == (exists|i: int| 0 <= i < j && square@[i] == c));
                            if exists|i: int| 0 <= i < j + 1 && square@[i] == c {
                                let i = choose|i: int| 0 <= i < j + 1 && square@[i] == c;
                                assert(i < j);
                            }
                        }
                    }
                }
            }
            proof {
                assert forall|c: Coord| #![trigger index_of(c, size)] in_bounds(c, size, size)
                    implies grid.tiles@[index_of(c, size)] == start_tile(size, player_positions@.take(k + 1), c) by {
                    let next = player_positions@.take(k + 1);
                    if near_a_player(next, c) {
                        let i = choose|i: int| 0 <= i < next.len() && in_square_3x3(c, #[trigger] next[i]);
                        if i < k {
                            assert(done[i] == next[i]);
                            assert(near_a_player(done, c));
                        } else {
                            assert(next[i] == p);
                            assert(square@.contains(c));
                        }
                    } else {
                        if near_a_player(done, c) {
                            let i = choose|i: int| 0 <= i < done.len() && in_square_3x3(c, #[trigger] done[i]);
                            assert(next[i] == done[i]);
                        }
                        if exists|i: int| 0 <= i < square@.len() && square@[i] == c {
                            let i = choose|i: int| 0 <= i < square@.len() && square@[i] == c;
                            assert(in_square_3x3(c, p));
                            assert(next[k as int] == p);
                        }
                    }
                }
            }
        }
        proof {
            assert(player_positions@.take(player_positions@.len() as int) =~= player_positions@);
        }
    }
}

} // verus!
