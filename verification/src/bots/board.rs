use vstd::prelude::*;
use rand::Rng;
use crate::command::Command;
use crate::coord::Coord;
use crate::map::GameMap;

verus! {

/// The character stored for `c` when the grid is read at index `row * size + col`;
/// an index past the end of the grid reads as a wall.
pub open spec fn cell_char(map: GameMap, c: Coord) -> char {
    let i = c.row.0 * map.grid.size + c.col.0;
    if i < map.grid.tiles@.len() { map.grid.tiles@[i] } else { 'W' }
}

/// Reads the grid at index `row * size + col`, or a wall past its end.
pub fn char_at(map: &GameMap, c: Coord) -> (ch: char)
    ensures
        ch == cell_char(*map, c),
{
    let len = map.grid.tiles.len();
    match c.row.get().checked_mul(map.grid.size) {
        Some(base) => match base.checked_add(c.col.get()) {
            Some(i) => if i < len { map.grid.tiles[i] } else { 'W' },
            None => 'W',
        },
        None => 'W',
    }
}

/// How many entries of `s` are still `false`.
pub open spec fn unmarked(s: Seq<bool>) -> nat
    decreases s.len(),
{
    if s.len() == 0 {
        0
    } else {
        unmarked(s.drop_last()) + if s.last() { 0nat } else { 1nat }
    }
}

/// Marking an unmarked entry leaves one fewer unmarked.
pub proof fn lemma_mark(s: Seq<bool>, i: int)
    requires
        0 <= i < s.len(),
        !s[i],
    ensures
        unmarked(s.update(i, true)) + 1 == unmarked(s),
    decreases s.len(),
{
    if i < s.len() - 1 {
        lemma_mark(s.drop_last(), i);
        assert(s.update(i, true).drop_last() =~= s.drop_last().update(i, true));
    } else {
        assert(s.update(i, true).drop_last() =~= s.drop_last());
    }
}

/// No more entries are unmarked than there are entries.
pub proof fn lemma_unmarked_bound(s: Seq<bool>)
    ensures
        unmarked(s) <= s.len(),
    decreases s.len(),
{
    if s.len() > 0 {
        lemma_unmarked_bound(s.drop_last());
    }
}

/// With nothing marked, every entry is unmarked.
pub proof fn lemma_unmarked_all(s: Seq<bool>)
    requires
        forall|i: int| 0 <= i < s.len() ==> !s[i],
    ensures
        unmarked(s) == s.len(),
    decreases s.len(),
{
    if s.len() > 0 {
        lemma_unmarked_all(s.drop_last());
    }
}

/// A number drawn by `rand::rng().random_range(0..n)`. The crate documents that the
/// value lies in the range and that an empty range panics, which `n > 0` rules out;
/// which value comes out is left open.
#[verifier::external_body]
pub(crate) fn random_below(n: usize) -> (r: usize)
    requires
        n > 0,
    ensures
        r < n,
{
    rand::rng().random_range(0..n)
}

/// The four moves and waiting, in the order the bots list them.
pub open spec fn wander_moves() -> Seq<Command> {
    seq![Command::Up, Command::Down, Command::Left, Command::Right, Command::Wait]
}

/// The move at `index` in the list of moves a wanderer picks from.
pub fn wander_move(index: usize) -> (c: Command)
    requires
        index < 5,
    ensures
        c == wander_moves()[index as int],
{
    let commands = [Command::Up, Command::Down, Command::Left, Command::Right, Command::Wait];
    proof {
        assert(wander_moves()[index as int] == commands@[index as int]);
    }
    commands[index]
}

/// A random move or a wait, never a bomb: the move at a number drawn below five.
pub fn random_wander() -> (c: Command)
    ensures
        wander_moves().contains(c),
{
    let i = random_below(5);
    wander_move(i)
}

} // verus!
