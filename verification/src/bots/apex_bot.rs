use vstd::prelude::*;
use crate::bots::board::{lemma_mark, lemma_unmarked_all, lemma_unmarked_bound, unmarked};
use crate::bomb::Bomb;
use crate::cell::CellType;
use crate::command::Command;
use crate::coord::{Coord, step_command};
use crate::map::GameMap;
use crate::map_config::MapConfig;
use crate::shrink::{calculate_shrink_location, lemma_shrink_location_inside, shrink_location};

verus! {

/// Marks "never" and "unreachable" in the tables of the bot.
pub const NEVER: usize = usize::MAX;

/// How many refinement passes the chain reaction search makes at most.
pub const CHAIN_PASSES: usize = 6;

/// What the bot knows of the next `horizon` turns, per tile. Times are arrival times:
/// `a` is the tile the bot stands on after its move `a - 1` turns from now.
pub struct Field {
    /// The first arrival time at which the tile may be entered (`NEVER`: solid).
    pub open_from: Vec<usize>,
    /// A bomb lies on the tile up to and including this arrival time.
    pub bomb_until: Vec<usize>,
    /// Bit `a` is set when standing on the tile at arrival time `a` is deadly.
    pub blast: Vec<u64>,
    /// From this arrival time on the tile has been walled by the shrink.
    pub shrink_from: Vec<usize>,
    /// The destroyable tiles cleared by the bomb this field adds.
    pub fresh_kills: Vec<usize>,
    pub horizon: usize,
}

/// Standing on `cell` at arrival time `a` is allowed: the tile is open, not yet walled,
/// free of bombs (the bot may stay on `start` for one turn after bombing it) and not in
/// a blast.
pub open spec fn allowed_at(field: Field, cell: int, a: int, start: int) -> bool {
    &&& a >= field.open_from@[cell]
    &&& a < field.shrink_from@[cell]
    &&& !(a <= field.bomb_until@[cell] && !(cell == start && a == 1))
    &&& !(a < 64 && (field.blast@[cell] >> (a as usize)) & 1 != 0)
}

impl Field {
    /// Every table holds one entry per tile of a board of `cells` tiles.
    pub open spec fn wf(&self, cells: int) -> bool {
        &&& self.open_from@.len() == cells
        &&& self.bomb_until@.len() == cells
        &&& self.blast@.len() == cells
        &&& self.shrink_from@.len() == cells
    }

    /// May the bot stand on `cell` at arrival time `a`?
    pub fn allowed(&self, cell: usize, a: usize, start: usize) -> (b: bool)
        requires
            cell < self.open_from@.len(),
            cell < self.bomb_until@.len(),
            cell < self.blast@.len(),
            cell < self.shrink_from@.len(),
        ensures
            b == allowed_at(*self, cell as int, a as int, start as int),
    {
        if a < self.open_from[cell] {
            return false;
        }
        if a >= self.shrink_from[cell] {
            return false;
        }
        if a <= self.bomb_until[cell] && !(cell == start && a == 1) {
            return false;
        }
        if a < 64 && (self.blast[cell] >> a) & 1 != 0 {
            return false;
        }
        true
    }
}

/// A command together with the tile the bot ends up on.
#[derive(Clone, Copy, Debug, PartialEq, Eq, Structural)]
pub struct Candidate {
    pub command: Command,
    pub target: usize,
    pub places_bomb: bool,
}

/// The candidate for command `c` from `me`: the four moves onto a walkable
/// neighbouring tile, then waiting, then (when `armed`) bombing.
pub open spec fn candidate_list(bot: ApexBot, map: GameMap, me: crate::coord::Coord, armed: bool) -> Seq<Candidate> {
    let moves = seq![Command::Up, Command::Down, Command::Left, Command::Right];
    let open = |c: Command| match step_command(me, c) {
        Some(t) => map.grid.cell_at(t) == CellType::Empty,
        None => false,
    };
    let target = |c: Command| match step_command(me, c) {
        Some(t) => tile_of(bot, t) as usize,
        None => 0usize,
    };
    moves.filter(open).map_values(|c: Command| Candidate { command: c, target: target(c), places_bomb: false })
        + seq![Candidate { command: Command::Wait, target: tile_of(bot, me) as usize, places_bomb: false }]
        + if armed { seq![Candidate { command: Command::PlaceBomb, target: tile_of(bot, me) as usize, places_bomb: true }] } else { seq![] }
}

/// A bot that models the coming turns tile by tile: bomb timers, chain reactions,
/// blocks about to be cleared and the walls of the shrink. Tiles are numbered row by
/// row: tile `row * size + col`.
pub struct ApexBot {
    pub name: String,
    pub id: usize,
    pub turn: usize,
    pub size: usize,
    pub endgame: usize,
    /// For every tile, the shrink step that walls it, or `NEVER`.
    pub shrink_order: Vec<usize>,
    /// For every tile, its neighbours: up, down, left, right, as far as they exist.
    pub neighbours: Vec<Vec<usize>>,
    /// The tile the shrink walls last.
    pub refuge: usize,
    pub last_cell: usize,
    pub stuck: usize,
    pub rng: u64,
    pub debug: String,
}

/// `Some(x)` as a one-element sequence, `None` as an empty one.
pub open spec fn maybe(o: Option<usize>) -> Seq<usize> {
    match o {
        Some(x) => seq![x],
        None => seq![],
    }
}

/// The tile next to `cell` in direction `d` (0 up, 1 down, 2 left, 3 right), if any.
pub open spec fn step_to(size: int, cell: int, d: int) -> Option<usize> {
    let row = cell / size;
    let col = cell % size;
    if d == 0 && row > 0 {
        Some((cell - size) as usize)
    } else if d == 1 && row + 1 < size {
        Some((cell + size) as usize)
    } else if d == 2 && col > 0 {
        Some((cell - 1) as usize)
    } else if d == 3 && col + 1 < size {
        Some((cell + 1) as usize)
    } else {
        None
    }
}

/// The neighbours of `cell` on a board of side `size`: up, down, left, right.
pub open spec fn neighbour_list(size: int, cell: int) -> Seq<usize> {
    maybe(step_to(size, cell, 0)) + maybe(step_to(size, cell, 1)) + maybe(step_to(size, cell, 2))
        + maybe(step_to(size, cell, 3))
}

/// The index of the tile the shrink walls at `step`, if it walls one.
pub open spec fn shrink_cell(size: int, step: int) -> Option<int> {
    match shrink_location(step as nat, size as nat) {
        Some(c) => Some(c.row.0 * size + c.col.0),
        None => None,
    }
}

/// The first of the shrink steps below `n` that walls `cell`, or `NEVER`.
pub open spec fn first_hit(size: int, cell: int, n: int) -> usize
    decreases n,
{
    if n <= 0 {
        NEVER
    } else if first_hit(size, cell, n - 1) != NEVER {
        first_hit(size, cell, n - 1)
    } else if shrink_cell(size, n - 1) == Some(cell) {
        (n - 1) as usize
    } else {
        NEVER
    }
}

/// Among the first `n` tiles, the one the shrink walls last (the later tile on a tie),
/// if any is walled at all.
pub open spec fn last_walled(order: Seq<usize>, n: int) -> Option<int>
    decreases n,
{
    if n <= 0 {
        None
    } else {
        let prev = last_walled(order, n - 1);
        if order[n - 1] == NEVER {
            prev
        } else {
            match prev {
                None => Some(n - 1),
                Some(p) => if order[n - 1] >= order[p] { Some(n - 1) } else { Some(p) },
            }
        }
    }
}

impl ApexBot {
    /// The number of tiles of the board.
    pub open spec fn cells(&self) -> int {
        self.size * self.size
    }

    /// The lookup tables match the board size.
    pub open spec fn wf(&self) -> bool {
        &&& self.size * self.size <= usize::MAX
        &&& self.shrink_order@.len() == self.cells()
        &&& self.neighbours@.len() == self.cells()
        &&& forall|c: int| 0 <= c < self.cells() ==> (#[trigger] self.neighbours@[c])@ == neighbour_list(self.size as int, c)
    }

    pub fn new() -> (b: Self)
        ensures
            b.wf(),
            b.name@ == "ApexBot"@,
            b.id == 0,
            b.turn == 0,
            b.size == 0,
            b.endgame == usize::MAX,
            b.refuge == 0,
            b.last_cell == NEVER,
            b.stuck == 0,
            b.rng == 0x9E37_79B9_7F4A_7C15u64,
            b.debug@.len() == 0,
    {
        ApexBot {
            name: String::from_str("ApexBot"),
            id: 0,
            turn: 0,
            size: 0,
            endgame: usize::MAX,
            shrink_order: Vec::new(),
            neighbours: Vec::new(),
            refuge: 0,
            last_cell: NEVER,
            stuck: 0,
            rng: 0x9E37_79B9_7F4A_7C15,
            debug: String::new(),
        }
    }

    /// Sets up the tables that depend on the board size alone: the shrink step of every
    /// tile, the tile walled last and the neighbours of every tile. Nothing changes when
    /// they were already set up for this size.
    pub fn prepare(&mut self, size: usize)
        requires
            old(self).wf(),
            2 <= size,
            size * size <= usize::MAX,
        ensures
            final(self).wf(),
            final(self).size == size,
            final(self).name == old(self).name,
            final(self).id == old(self).id,
            final(self).turn == old(self).turn,
            final(self).endgame == old(self).endgame,
            final(self).last_cell == old(self).last_cell,
            final(self).stuck == old(self).stuck,
            final(self).rng == old(self).rng,
            final(self).debug == old(self).debug,
            old(self).size == size && old(self).neighbours@.len() > 0 ==> *final(self) == *old(self),
            !(old(self).size == size && old(self).neighbours@.len() > 0) ==> {
                &&& final(self).shrink_order@ == Seq::new((size * size) as nat,
                    |c: int| first_hit(size as int, c, (size - 2) * (size - 2)))
                &&& final(self).refuge == match last_walled(final(self).shrink_order@, size * size) {
                    Some(c) => c as usize,
                    None => 0usize,
                }
            },
    {
        if self.size == size && self.neighbours.len() > 0 {
            return;
        }
        self.size = size;
        let cells = size * size;
        let inner = size - 2;
        proof {
            assert(inner * inner <= size * size) by (nonlinear_arith)
                requires inner < size;
        }
        let steps = inner * inner;
        proof {
            assert(size < usize::MAX) by (nonlinear_arith)
                requires 2 <= size, size * size <= usize::MAX;
        }
        let mut order: Vec<usize> = Vec::new();
        for c in 0..cells
            invariant
                order@ == Seq::new(c as nat, |i: int| first_hit(size as int, i, 0)),
        {
            order.push(NEVER);
            proof {
                assert(order@ =~= Seq::new((c + 1) as nat, |i: int| first_hit(size as int, i, 0)));
            }
        }
        for step in 0..steps
            invariant
                self.size == size,
                cells == size * size,
                steps == (size - 2) * (size - 2),
                size * size <= usize::MAX,
                2 <= size,
                size < usize::MAX,
                order@ == Seq::new(cells as nat, |i: int| first_hit(size as int, i, step as int)),
        {
            let found = calculate_shrink_location(step, size);
            proof {
                lemma_shrink_location_inside(step as nat, size as nat);
            }
            if let Some(coord) = found {
                proof {
                    assert(coord.row.0 * size + coord.col.0 < size * size) by (nonlinear_arith)
                        requires coord.row.0 < size, coord.col.0 < size;
                }
                let cell = self.index(coord.col.get(), coord.row.get());
                if cell < cells && order[cell] == NEVER {
                    order.set(cell, step);
                }
            }
            proof {
                assert(order@ =~= Seq::new(cells as nat, |i: int| first_hit(size as int, i, step + 1)));
            }
        }
        let mut best: Option<usize> = None;
        for c in 0..cells
            invariant
                order@.len() == cells,
                best == match last_walled(order@, c as int) { Some(b) => Some(b as usize), None => None::<usize> },
                forall|b: int| last_walled(order@, c as int) == Some(b) ==> 0 <= b < c,
        {
            if order[c] != NEVER {
                match best {
                    None => {
                        best = Some(c);
                    },
                    Some(p) => {
                        if order[c] >= order[p] {
                            best = Some(c);
                        }
                    },
                }
            }
        }
        self.refuge = match best {
            Some(c) => c,
            None => 0,
        };
        self.shrink_order = order;
        let mut neighbours: Vec<Vec<usize>> = Vec::new();
        assert(0 * size == 0);
        for row in 0..size
            invariant
                self.size == size,
                size * size <= usize::MAX,
                neighbours@.len() == row * size,
                forall|c: int| 0 <= c < neighbours@.len() ==> (#[trigger] neighbours@[c])@ == neighbour_list(size as int, c),
        {
            for col in 0..size
                invariant
                    self.size == size,
                    size * size <= usize::MAX,
                    row < size,
                    neighbours@.len() == row * size + col,
                    forall|c: int| 0 <= c < neighbours@.len() ==> (#[trigger] neighbours@[c])@ == neighbour_list(size as int, c),
            {
                proof {
                    assert(row * size + col < size * size) by (nonlinear_arith)
                        requires row < size, col < size;
                }
                let list = neighbours_of_tile(size, row, col);
                neighbours.push(list);
            }
            proof {
                assert((row + 1) * size == row * size + size) by (nonlinear_arith);
            }
        }
        self.neighbours = neighbours;
    }

    /// `table[a * cells + tile]` is how many further turns can be survived after arriving
    /// on `tile` at time `a`, solved backwards from the horizon.
    pub fn survival_table(&self, field: &Field, start: usize) -> (table: Vec<u16>)
        requires
            self.wf(),
            self.size > 0,
            field.wf(self.cells()),
            field.horizon < 65535,
            (field.horizon + 1) * self.cells() <= usize::MAX,
        ensures
            table@.len() == (field.horizon + 1) * self.cells(),
            forall|t: int, c: int| 0 <= t <= field.horizon && 0 <= c < self.cells()
                ==> entry(table@, self.cells(), t, c) == survive(*self, *field, start as int, t, c),
    {
        let cells = self.size * self.size;
        let horizon = field.horizon;
        let total = (horizon + 1) * cells;
        let mut table: Vec<u16> = Vec::new();
        for i in 0..total
            invariant
                table@.len() == i,
                forall|j: int| 0 <= j < i ==> table@[j] == 0,
        {
            table.push(0);
        }
        let mut time = horizon;
        proof {
            assert forall|t: int, c: int| 0 <= t <= horizon && 0 <= c < cells implies #[trigger] entry(table@, cells as int, t, c) == 0 by {
                lemma_row_in_table(t, c, cells as int, horizon + 1);
            }
        }
        while time > 1
            invariant
                self.wf(),
                self.size > 0,
                field.wf(cells as int),
                cells == self.cells(),
                horizon == field.horizon,
                horizon < 65535,
                total == (horizon + 1) * cells,
                (horizon + 1) * cells <= usize::MAX,
                1 <= time <= horizon || (time == horizon && horizon == 0),
                table@.len() == total,
                forall|t: int, c: int| time <= t <= horizon && 0 <= c < cells
                    ==> entry(table@, cells as int, t, c) == survive(*self, *field, start as int, t, c),
                forall|t: int, c: int| 0 <= t < time && 0 <= c < cells ==> #[trigger] entry(table@, cells as int, t, c) == 0,
            decreases time,
        {
            time = time - 1;
            for cell in 0..cells
                invariant
                    self.wf(),
                    self.size > 0,
                    field.wf(cells as int),
                    cells == self.cells(),
                    horizon == field.horizon,
                    horizon < 65535,
                    total == (horizon + 1) * cells,
                    (horizon + 1) * cells <= usize::MAX,
                    1 <= time < horizon,
                    table@.len() == total,
                    forall|t: int, c: int| time < t <= horizon && 0 <= c < cells
                        ==> entry(table@, cells as int, t, c) == survive(*self, *field, start as int, t, c),
                    forall|c: int| 0 <= c < cell ==> entry(table@, cells as int, time as int, c) == survive(*self, *field, start as int, time as int, c),
                    forall|t: int, c: int| 0 <= t < time && 0 <= c < cells ==> #[trigger] entry(table@, cells as int, t, c) == 0,
                    forall|c: int| cell <= c < cells ==> entry(table@, cells as int, time as int, c) == 0,
            {
                let ghost prev = table@;
                proof {
                    lemma_row_in_table(time as int, cell as int, cells as int, horizon + 1);
                    lemma_row_in_table(time + 1, cell as int, cells as int, horizon + 1);
                }
                if field.allowed(cell, time, start) {
                    let row_next = (time + 1) * cells;
                    let mut best: u16 = 0;
                    proof {
                        lemma_survive_bound(*self, *field, start as int, time + 1, cell as int);
                    }
                    if field.allowed(cell, time + 1, start) {
                        best = table[row_next + cell] + 1;
                    }
                    let options = &self.neighbours[cell];
                    proof {
                        lemma_neighbours_on_board(self.size as int, cell as int);
                    }
                    for k in 0..options.len()
                        invariant
                            self.wf(),
                            field.wf(cells as int),
                            cells == self.cells(),
                            cell < cells,
                            horizon == field.horizon,
                            horizon < 65535,
                            1 <= time < horizon,
                            table@.len() == total,
                            total == (horizon + 1) * cells,
                            row_next == (time + 1) * cells,
                            *options == self.neighbours@[cell as int],
                            options@ == neighbour_list(self.size as int, cell as int),
                            forall|i: int| 0 <= i < options@.len() ==> (#[trigger] options@[i]) < cells,
                            forall|t: int, c: int| time < t <= horizon && 0 <= c < cells
                                ==> entry(table@, cells as int, t, c) == survive(*self, *field, start as int, t, c),
                            best == best_move(*self, *field, start as int, time as int, cell as int, k as int),
                    {
                        let next = options[k];
                        proof {
                            lemma_row_in_table(time + 1, next as int, cells as int, horizon + 1);
                            lemma_survive_bound(*self, *field, start as int, time + 1, next as int);
                        }
                        if field.allowed(next, time + 1, start) {
                            let here = table[row_next + next] + 1;
                            if here > best {
                                best = here;
                            }
                        }
                    }
                    table.set(time * cells + cell, best);
                }
                proof {
                    assert forall|t: int, c: int| 0 <= t < time && 0 <= c < cells implies #[trigger] entry(table@, cells as int, t, c) == 0 by {
                        lemma_row_in_table(t, c, cells as int, horizon + 1);
                        assert(t * cells + c < time * cells) by (nonlinear_arith)
                            requires t < time, c < cells;
                        assert(entry(prev, cells as int, t, c) == 0);
                    }
                    assert forall|t: int, c: int| time < t <= horizon && 0 <= c < cells
                        implies entry(table@, cells as int, t, c) == survive(*self, *field, start as int, t, c) by {
                        lemma_row_in_table(t, c, cells as int, horizon + 1);
                        assert(time * cells + cell < t * cells) by (nonlinear_arith)
                            requires time < t, cell < cells;
                        assert(entry(prev, cells as int, t, c) == survive(*self, *field, start as int, t, c));
                    }
                    assert forall|c: int| 0 <= c < cell + 1 implies entry(table@, cells as int, time as int, c)
                        == survive(*self, *field, start as int, time as int, c) by {
                        if c < cell {
                            assert(entry(prev, cells as int, time as int, c) == survive(*self, *field, start as int, time as int, c));
                        }
                    }
                    assert forall|c: int| cell + 1 <= c < cells implies entry(table@, cells as int, time as int, c) == 0 by {
                        assert(entry(prev, cells as int, time as int, c) == 0);
                    }
                }
            }
        }
        table
    }

    /// The turns of life guaranteed after ending this turn on `cell`.
    pub fn depth_at(&self, field: &Field, table: &Vec<u16>, cell: usize, start: usize) -> (d: usize)
        requires
            self.wf(),
            field.wf(self.cells()),
            cell < self.cells(),
            field.horizon >= 1,
            table.len() == (field.horizon + 1) * self.cells(),
        ensures
            d == depth_from_table(*field, table@, self.cells(), cell as int, start as int),
    {
        proof {
            lemma_row_in_table(1, cell as int, self.cells(), field.horizon + 1);
        }
        if field.allowed(cell, 1, start) {
            1 + table[self.size * self.size + cell] as usize
        } else {
            0
        }
    }

    /// The turns of life a player on `from` can guarantee, staying or stepping to a
    /// neighbour other than `blocked`.
    pub fn best_depth_from(&self, field: &Field, table: &Vec<u16>, from: usize, start: usize, blocked: usize) -> (d: usize)
        requires
            self.wf(),
            self.size > 0,
            field.wf(self.cells()),
            from < self.cells(),
            field.horizon >= 1,
            table@.len() == (field.horizon + 1) * self.cells(),
        ensures
            d == best_depth(*self, *field, table@, from as int, start as int, blocked as int,
                self.neighbours@[from as int]@.len() as int),
    {
        let mut best = self.depth_at(field, table, from, start);
        let options = &self.neighbours[from];
        proof {
            lemma_neighbours_on_board(self.size as int, from as int);
        }
        for k in 0..options.len()
            invariant
                self.wf(),
                field.wf(self.cells()),
                from < self.cells(),
                field.horizon >= 1,
                table@.len() == (field.horizon + 1) * self.cells(),
                *options == self.neighbours@[from as int],
                options@ == neighbour_list(self.size as int, from as int),
                forall|i: int| 0 <= i < options@.len() ==> (#[trigger] options@[i]) < self.cells(),
                best == best_depth(*self, *field, table@, from as int, start as int, blocked as int, k as int),
        {
            let next = options[k];
            if next != blocked {
                let here = self.depth_at(field, table, next, start);
                if here > best {
                    best = here;
                }
            }
        }
        best
    }

    /// The size of the patch of open floor around `from`, counting the tiles a bomb is
    /// about to open up; none when `from` itself is solid.
    pub fn room(&self, field: &Field, from: usize) -> (count: usize)
        requires
            self.wf(),
            self.size > 0,
            field.wf(self.cells()),
            from < self.cells(),
        ensures
            count == marked(Seq::new(self.cells() as nat, |c: int| open_reach(*self, *field, from as int, c))),
    {
        let cells = self.size * self.size;
        let ghost reach = Seq::new(cells as nat, |c: int| open_reach(*self, *field, from as int, c));
        if field.open_from[from] == NEVER {
            proof {
                assert forall|c: int| 0 <= c < cells implies !reach[c] by {
                    if open_reach(*self, *field, from as int, c) {
                        let path = choose|path: Seq<usize>| path.len() >= 1 && path[0] == from && path.last() == c
                            && #[trigger] open_path(*self, *field, path);
                        assert(path[0] < self.cells() && field.open_from@[path[0] as int] != NEVER);
                    }
                }
                lemma_unmarked_all(reach);
            }
            return 0;
        }
        let mut seen: Vec<bool> = Vec::new();
        for i in 0..cells
            invariant
                seen@.len() == i,
                forall|j: int| 0 <= j < i ==> !seen@[j],
        {
            seen.push(false);
        }
        proof {
            lemma_unmarked_all(seen@);
            lemma_mark(seen@, from as int);
        }
        seen.set(from, true);
        let mut stack: Vec<usize> = Vec::new();
        stack.push(from);
        let mut count: usize = 0;
        let ghost mut done: Seq<bool> = Seq::new(cells as nat, |i: int| false);
        proof {
            let p = seq![from];
            assert(open_path(*self, *field, p));
            assert(stack@[0] == from);
            assert forall|c: int| 0 <= c < cells && #[trigger] seen@[c] implies done[c] || stack@.contains(c as usize) by {
                assert(c == from);
            }
        }
        while stack.len() > 0
            invariant
                self.wf(),
                self.size > 0,
                cells == self.cells(),
                field.wf(cells as int),
                from < cells,
                seen@.len() == cells,
                done.len() == cells,
                seen@[from as int],
                count + stack@.len() == marked(seen@),
                forall|k: int| 0 <= k < stack@.len() ==> (#[trigger] stack@[k]) < cells && seen@[stack@[k] as int]
                    && !done[stack@[k] as int],
                forall|k1: int, k2: int| 0 <= k1 < k2 < stack@.len() ==> #[trigger] stack@[k1] != #[trigger] stack@[k2],
                forall|c: int| 0 <= c < cells && #[trigger] seen@[c] ==> open_reach(*self, *field, from as int, c),
                forall|c: int| 0 <= c < cells && #[trigger] seen@[c] ==> done[c] || stack@.contains(c as usize),
                forall|c: int| 0 <= c < cells && #[trigger] done[c] ==> seen@[c],
                forall|c: int, j: int| 0 <= c < cells && done[c] && 0 <= j < self.neighbours@[c]@.len()
                    && field.open_from@[(#[trigger] self.neighbours@[c]@[j]) as int] != NEVER
                    ==> seen@[self.neighbours@[c]@[j] as int],
            decreases 2 * unmarked(seen@) + stack@.len(),
        {
            let ghost before = 2 * unmarked(seen@) + stack@.len();
            let ghost old_stack = stack@;
            let cell = stack.pop().unwrap();
            proof {
                lemma_unmarked_bound(seen@);
                assert(old_stack.last() == cell);
                assert forall|c: int| 0 <= c < cells && #[trigger] seen@[c] implies done[c] || c == cell
                    || stack@.contains(c as usize) by {
                    if !done[c] && c != cell {
                        let k = choose|k: int| 0 <= k < old_stack.len() && old_stack[k] == c as usize;
                        assert(k != old_stack.len() - 1);
                        assert(stack@[k] == old_stack[k]);
                    }
                }
                assert forall|k: int| 0 <= k < stack@.len() implies #[trigger] stack@[k] != cell by {
                    assert(stack@[k] == old_stack[k]);
                }
            }
            count = count + 1;
            let options = &self.neighbours[cell];
            proof {
                lemma_neighbours_on_board(self.size as int, cell as int);
            }
            for j in 0..options.len()
                invariant
                    self.wf(),
                    self.size > 0,
                    cells == self.cells(),
                    field.wf(cells as int),
                    from < cells,
                    cell < cells,
                    seen@.len() == cells,
                    done.len() == cells,
                    seen@[from as int],
                    seen@[cell as int],
                    !done[cell as int],
                    *options == self.neighbours@[cell as int],
                    options@ == neighbour_list(self.size as int, cell as int),
                    forall|i: int| 0 <= i < options@.len() ==> (#[trigger] options@[i]) < cells,
                    count + stack@.len() == marked(seen@),
                    2 * unmarked(seen@) + stack@.len() < before,
                    forall|k: int| 0 <= k < stack@.len() ==> (#[trigger] stack@[k]) < cells && seen@[stack@[k] as int]
                        && !done[stack@[k] as int] && stack@[k] != cell,
                    forall|k1: int, k2: int| 0 <= k1 < k2 < stack@.len() ==> #[trigger] stack@[k1] != #[trigger] stack@[k2],
                    forall|c: int| 0 <= c < cells && #[trigger] seen@[c] ==> open_reach(*self, *field, from as int, c),
                    forall|c: int| 0 <= c < cells && #[trigger] seen@[c] ==> done[c] || c == cell || stack@.contains(c as usize),
                    forall|c: int| 0 <= c < cells && #[trigger] done[c] ==> seen@[c],
                    forall|c: int, i: int| 0 <= c < cells && done[c] && 0 <= i < self.neighbours@[c]@.len()
                        && field.open_from@[(#[trigger] self.neighbours@[c]@[i]) as int] != NEVER
                        ==> seen@[self.neighbours@[c]@[i] as int],
                    forall|i: int| 0 <= i < j && field.open_from@[(#[trigger] options@[i]) as int] != NEVER ==> seen@[options@[i] as int],
            {
                let next = options[j];
                if !seen[next] && field.open_from[next] != NEVER {
                    proof {
                        lemma_mark(seen@, next as int);
                        let pc = choose|path: Seq<usize>| path.len() >= 1 && path[0] == from && path.last() == cell
                            && #[trigger] open_path(*self, *field, path);
                        let pn = pc.push(next);
                        assert(options@.contains(next));
                        assert(pn.drop_last() =~= pc);
                        assert(open_path(*self, *field, pn)) by {
                            assert forall|i: int| 0 <= i < pn.len() - 1 implies (#[trigger] self.neighbours@[pn[i] as int])@.contains(pn[i + 1]) by {
                                if i < pn.len() - 2 {
                                    assert(pn[i] == pc[i] && pn[i + 1] == pc[i + 1]);
                                }
                            }
                        }
                        assert(open_reach(*self, *field, from as int, next as int));
                    }
                    let ghost old_stack = stack@;
                    let ghost old_seen = seen@;
                    seen.set(next, true);
                    stack.push(next);
                    proof {
                        assert forall|c: int, i: int| 0 <= c < cells && done[c] && 0 <= i < self.neighbours@[c]@.len()
                            && field.open_from@[(#[trigger] self.neighbours@[c]@[i]) as int] != NEVER
                            implies seen@[self.neighbours@[c]@[i] as int] by {
                            lemma_neighbours_on_board(self.size as int, c);
                            assert(self.neighbours@[c]@[i] == neighbour_list(self.size as int, c)[i]);
                            assert(old_seen[self.neighbours@[c]@[i] as int]);
                        }
                        assert forall|i: int| 0 <= i < j + 1 && field.open_from@[(#[trigger] options@[i]) as int] != NEVER
                            implies seen@[options@[i] as int] by {
                            if i < j {
                                assert(old_seen[options@[i] as int]);
                            }
                        }
                        assert forall|c: int| 0 <= c < cells && #[trigger] seen@[c] implies done[c] || c == cell
                            || stack@.contains(c as usize) by {
                            if c == next {
                                assert(stack@[stack@.len() - 1] == next);
                            } else if !done[c] && c != cell {
                                let k = choose|k: int| 0 <= k < old_stack.len() && old_stack[k] == c as usize;
                                assert(stack@[k] == old_stack[k]);
                            }
                        }
                    }
                }
            }
            proof {
                let done_old = done;
                done = done.update(cell as int, true);
                assert forall|c: int, i: int| 0 <= c < cells && done[c] && 0 <= i < self.neighbours@[c]@.len()
                    && field.open_from@[(#[trigger] self.neighbours@[c]@[i]) as int] != NEVER
                    implies seen@[self.neighbours@[c]@[i] as int] by {
                    if c != cell {
                        assert(done_old[c]);
                    }
                }
                assert forall|c: int| 0 <= c < cells && #[trigger] seen@[c] implies done[c] || stack@.contains(c as usize) by {}
            }
        }
        proof {
            assert forall|c: int, j: int| 0 <= c < self.cells() && done[c] && 0 <= j < self.neighbours@[c]@.len()
                && field.open_from@[(#[trigger] self.neighbours@[c]@[j]) as int] != NEVER
                implies done[self.neighbours@[c]@[j] as int] by {
                lemma_neighbours_on_board(self.size as int, c);
                assert(self.neighbours@[c]@[j] == neighbour_list(self.size as int, c)[j]);
                assert(seen@[self.neighbours@[c]@[j] as int]);
            }
            assert forall|c: int| 0 <= c < cells implies #[trigger] seen@[c] == reach[c] by {
                if open_reach(*self, *field, from as int, c) {
                    let path = choose|path: Seq<usize>| path.len() >= 1 && path[0] == from && path.last() == c
                        && #[trigger] open_path(*self, *field, path);
                    lemma_closed_holds_path(*self, *field, done, path);
                }
            }
            assert(seen@ =~= reach);
        }
        count
    }

    /// The price of the cheapest walk from `from` to every tile, where a destroyable
    /// block or a player costs seven, a bomb two and other floor one; `NEVER` where no
    /// walk priced within `NEVER` exists.
    pub fn distance_field(&self, map: &GameMap, from: usize) -> (distance: Vec<usize>)
        requires
            self.wf(),
            self.size > 0,
            from < self.cells(),
            self.cells() <= map.grid.tiles@.len(),
        ensures
            distance@.len() == self.cells(),
            distance@[from as int] == 0,
            forall|c: int| 0 <= c < self.cells() && distance@[c] != NEVER ==> exists|path: Seq<usize>| {
                &&& path.len() >= 1
                &&& path[0] == from
                &&& path.last() == c
                &&& #[trigger] weighted_walk(*self, map.grid.tiles@, path)
                &&& walk_cost(map.grid.tiles@, path) == distance@[c]
            },
            forall|path: Seq<usize>| path.len() >= 1 && path[0] == from && #[trigger] weighted_walk(*self, map.grid.tiles@, path)
                && walk_cost(map.grid.tiles@, path) <= NEVER ==> distance@[path.last() as int] <= walk_cost(map.grid.tiles@, path),
    {
        let cells = self.size * self.size;
        let ghost tiles = map.grid.tiles@;
        let mut distance: Vec<usize> = Vec::new();
        for i in 0..cells
            invariant
                distance@.len() == i,
                forall|j: int| 0 <= j < i ==> distance@[j] == NEVER,
        {
            distance.push(NEVER);
        }
        distance.set(from, 0);
        let mut queue: Vec<(usize, usize)> = Vec::new();
        queue.push((0, from));
        proof {
            assert(weighted_walk(*self, tiles, seq![from]));
            assert(walk_cost(tiles, seq![from]) == 0);
            assert(queue@[0] == (0usize, from));
        }
        while queue.len() > 0
            invariant
                self.wf(),
                self.size > 0,
                cells == self.cells(),
                from < cells,
                cells <= map.grid.tiles@.len(),
                tiles == map.grid.tiles@,
                distance@.len() == cells,
                distance@[from as int] == 0,
                forall|k: int| 0 <= k < queue@.len() ==> (#[trigger] queue@[k]).1 < cells
                    && distance@[queue@[k].1 as int] <= queue@[k].0 && queue@[k].0 < NEVER,
                forall|c: int| 0 <= c < cells && distance@[c] != NEVER ==> exists|path: Seq<usize>| {
                    &&& path.len() >= 1
                    &&& path[0] == from
                    &&& path.last() == c
                    &&& #[trigger] weighted_walk(*self, tiles, path)
                    &&& walk_cost(tiles, path) == distance@[c]
                },
                forall|c: int| 0 <= c < cells ==> #[trigger] relaxed(*self, tiles, distance@, c)
                    || queue@.contains((distance@[c], c as usize)),
            decreases total(distance@), queue@.len(),
        {
            let ghost t0 = total(distance@);
            let ghost q0 = queue@.len();
            let mut best: usize = 0;
            for k in 1..queue.len()
                invariant
                    best < k <= queue@.len(),
            {
                if queue[k].0 < queue[best].0 || (queue[k].0 == queue[best].0 && queue[k].1 < queue[best].1) {
                    best = k;
                }
            }
            let ghost old_queue = queue@;
            let (cost, cell) = queue.remove(best);
            proof {
                assert((cost, cell) == old_queue[best as int]);
                assert forall|k: int| 0 <= k < queue@.len() implies #[trigger] queue@[k] == old_queue[if k < best { k } else { k + 1 }] by {}
                assert forall|c: int| 0 <= c < cells && !relaxed(*self, tiles, distance@, c) && (distance@[c], c as usize) != (cost, cell)
                    implies queue@.contains((distance@[c], c as usize)) by {
                    let k = choose|k: int| 0 <= k < old_queue.len() && old_queue[k] == (distance@[c], c as usize);
                    if k < best {
                        assert(queue@[k] == old_queue[k]);
                    } else {
                        assert(k != best);
                        assert(queue@[k - 1] == old_queue[k]);
                    }
                }
            }
            if cost > distance[cell] {
                continue;
            }
            let options = &self.neighbours[cell];
            proof {
                lemma_neighbours_on_board(self.size as int, cell as int);
            }
            let ghost path_c = choose|path: Seq<usize>| {
                &&& path.len() >= 1
                &&& path[0] == from
                &&& path.last() == cell
                &&& #[trigger] weighted_walk(*self, tiles, path)
                &&& walk_cost(tiles, path) == distance@[cell as int]
            };
            for j in 0..options.len()
                invariant
                    self.wf(),
                    self.size > 0,
                    cells == self.cells(),
                    from < cells,
                    cell < cells,
                    cells <= map.grid.tiles@.len(),
                    tiles == map.grid.tiles@,
                    distance@.len() == cells,
                    distance@[from as int] == 0,
                    distance@[cell as int] == cost,
                    cost != NEVER,
                    *options == self.neighbours@[cell as int],
                    options@ == neighbour_list(self.size as int, cell as int),
                    forall|i: int| 0 <= i < options@.len() ==> (#[trigger] options@[i]) < cells && options@[i] != cell,
                    path_c.len() >= 1,
                    path_c[0] == from,
                    path_c.last() == cell,
                    weighted_walk(*self, tiles, path_c),
                    walk_cost(tiles, path_c) == cost,
                    forall|k: int| 0 <= k < queue@.len() ==> (#[trigger] queue@[k]).1 < cells
                        && distance@[queue@[k].1 as int] <= queue@[k].0 && queue@[k].0 < NEVER,
                    total(distance@) < t0 || (total(distance@) == t0 && queue@.len() < q0),
                    forall|c: int| 0 <= c < cells && distance@[c] != NEVER ==> exists|path: Seq<usize>| {
                        &&& path.len() >= 1
                        &&& path[0] == from
                        &&& path.last() == c
                        &&& #[trigger] weighted_walk(*self, tiles, path)
                        &&& walk_cost(tiles, path) == distance@[c]
                    },
                    forall|c: int| 0 <= c < cells && c != cell ==> #[trigger] relaxed(*self, tiles, distance@, c)
                        || queue@.contains((distance@[c], c as usize)),
                    forall|i: int| 0 <= i < j && tiles[(#[trigger] options@[i]) as int] != 'W'
                        ==> distance@[options@[i] as int] <= cost + enter_cost(tiles[options@[i] as int])
                            || cost + enter_cost(tiles[options@[i] as int]) > NEVER,
            {
                let next = options[j];
                let tile = map.grid.tiles[next];
                if tile != 'W' {
                    let step: usize = if tile == '.' || tile == 'P' { 7 } else if tile == 'B' { 2 } else { 1 };
                    if cost <= NEVER - step && cost + step < distance[next] {
                        proof {
                            lemma_total_lower(distance@, next as int, (cost + step) as usize);
                            let pn = path_c.push(next);
                            assert(pn.drop_last() =~= path_c);
                            assert(options@.contains(next));
                            assert(weighted_walk(*self, tiles, pn)) by {
                                assert forall|i: int| 0 <= i < pn.len() - 1 implies (#[trigger] self.neighbours@[pn[i] as int])@.contains(pn[i + 1]) by {
                                    if i < pn.len() - 2 {
                                        assert(pn[i] == path_c[i] && pn[i + 1] == path_c[i + 1]);
                                    }
                                }
                                assert forall|i: int| 1 <= i < pn.len() implies tiles[(#[trigger] pn[i]) as int] != 'W' by {
                                    if i < pn.len() - 1 {
                                        assert(pn[i] == path_c[i]);
                                    }
                                }
                            }
                            assert(walk_cost(tiles, pn) == cost + step);
                        }
                        let ghost old_dist = distance@;
                        let ghost old_queue = queue@;
                        distance.set(next, cost + step);
                        queue.push((cost + step, next));
                        proof {
                            assert(queue@[queue@.len() - 1] == ((cost + step) as usize, next));
                            assert forall|k: int| 0 <= k < old_queue.len() implies #[trigger] queue@[k] == old_queue[k] by {}
                            assert forall|c: int| 0 <= c < cells && c != cell implies #[trigger] relaxed(*self, tiles, distance@, c)
                                || queue@.contains((distance@[c], c as usize)) by {
                                if c == next {
                                } else if relaxed(*self, tiles, old_dist, c) {
                                    assert forall|i: int| 0 <= i < self.neighbours@[c]@.len()
                                        && tiles[(#[trigger] self.neighbours@[c]@[i]) as int] != 'W'
                                        implies distance@[self.neighbours@[c]@[i] as int] <= distance@[c] + enter_cost(tiles[self.neighbours@[c]@[i] as int])
                                            || distance@[c] + enter_cost(tiles[self.neighbours@[c]@[i] as int]) > NEVER by {
                                        lemma_neighbours_on_board(self.size as int, c);
                                        assert(self.neighbours@[c]@[i] == neighbour_list(self.size as int, c)[i]);
                                    }
                                } else {
                                    let k = choose|k: int| 0 <= k < old_queue.len() && old_queue[k] == (old_dist[c], c as usize);
                                    assert(queue@[k] == old_queue[k]);
                                }
                            }
                        }
                    }
                }
            }
            proof {
                assert(relaxed(*self, tiles, distance@, cell as int));
            }
        }
        proof {
            assert forall|path: Seq<usize>| path.len() >= 1 && path[0] == from && #[trigger] weighted_walk(*self, map.grid.tiles@, path)
                && walk_cost(map.grid.tiles@, path) <= NEVER
                implies distance@[path.last() as int] <= walk_cost(map.grid.tiles@, path) by {
                lemma_relaxed_bounds_walks(*self, tiles, distance@, from as int, path);
            }
        }
        distance
    }

    /// How many different tiles a player on `from` can hold at some time up to `reach`
    /// without giving up the life they could still guarantee there (they may not use
    /// `blocked`).
    pub fn free_area(&self, field: &Field, table: &Vec<u16>, from: usize, start: usize, blocked: usize, reach: usize)
        -> (area: usize)
        requires
            self.wf(),
            self.size > 0,
            field.wf(self.cells()),
            from < self.cells(),
            reach <= field.horizon,
            field.horizon < 65535,
            table.len() == (field.horizon + 1) * self.cells(),
        ensures
            area == marked(Seq::new(self.cells() as nat,
                |c: int| held_by(*self, *field, table@, from as int, start as int, blocked as int, reach as int, reach as int, c))),
    {
        let cells = self.size * self.size;
        let ghost tb = table@;
        let ghost hr = field.horizon as int;
        proof {
            assert((reach + 1) * cells <= (field.horizon + 1) * cells) by (nonlinear_arith)
                requires reach <= field.horizon;
        }
        let mut seen: Vec<bool> = Vec::new();
        for i in 0..cells
            invariant
                seen@.len() == i,
                forall|j: int| 0 <= j < i ==> !seen@[j],
        {
            seen.push(false);
        }
        let rows = (reach + 1) * cells;
        let mut visited: Vec<bool> = Vec::new();
        for i in 0..rows
            invariant
                visited@.len() == i,
                forall|j: int| 0 <= j < i ==> !visited@[j],
        {
            visited.push(false);
        }
        let mut layer: Vec<usize> = Vec::new();
        layer.push(from);
        let mut area: usize = 0;
        proof {
            lemma_unmarked_all(seen@);
            assert(layer@[0] == from);
            assert forall|x: int| 0 <= x < cells implies (layer@.contains(x as usize)
                <==> #[trigger] in_layer(*self, *field, tb, from as int, start as int, blocked as int, reach as int, 0, x)) by {
                lemma_in_layer_zero(*self, *field, tb, from as int, start as int, blocked as int, reach as int, x);
                if layer@.contains(x as usize) {
                    let k = choose|k: int| 0 <= k < layer@.len() && layer@[k] == x as usize;
                }
            }
            assert forall|x: int| 0 <= x < cells implies (#[trigger] seen@[x]
                <==> held_by(*self, *field, tb, from as int, start as int, blocked as int, reach as int, 0, x)) by {}
            assert forall|j: int| 1 * cells <= j < rows implies !#[trigger] visited@[j] by {}
        }
        let mut time: usize = 1;
        while time <= reach
            invariant
                self.wf(),
                self.size > 0,
                cells == self.cells(),
                field.wf(cells as int),
                from < cells,
                reach <= field.horizon,
                field.horizon < 65535,
                tb == table@,
                table.len() == (field.horizon + 1) * cells,
                rows == (reach + 1) * cells,
                1 <= time <= reach + 1,
                seen@.len() == cells,
                visited@.len() == rows,
                forall|j: int| time * cells <= j < rows ==> !#[trigger] visited@[j],
                forall|k: int| 0 <= k < layer@.len() ==> (#[trigger] layer@[k]) < cells,
                forall|x: int| 0 <= x < cells ==> (layer@.contains(x as usize)
                    <==> #[trigger] in_layer(*self, *field, tb, from as int, start as int, blocked as int, reach as int, time - 1, x)),
                forall|x: int| 0 <= x < cells ==> (#[trigger] seen@[x]
                    <==> held_by(*self, *field, tb, from as int, start as int, blocked as int, reach as int, time - 1, x)),
                area == marked(seen@),
            decreases reach + 1 - time,
        {
            let mut next_layer: Vec<usize> = Vec::new();
            proof {
                assert(time * cells + cells <= rows) by (nonlinear_arith)
                    requires time <= reach, rows == (reach + 1) * cells;
                assert((time + 1) * cells == time * cells + cells) by (nonlinear_arith);
            }
            let row = time * cells;
            let ghost old_layer = layer@;
            for i in 0..layer.len()
                invariant
                    self.wf(),
                    self.size > 0,
                    cells == self.cells(),
                    field.wf(cells as int),
                    reach <= field.horizon,
                    field.horizon < 65535,
                    tb == table@,
                    table.len() == (field.horizon + 1) * cells,
                    rows == (reach + 1) * cells,
                    1 <= time <= reach,
                    row == time * cells,
                    row + cells <= rows,
                    seen@.len() == cells,
                    visited@.len() == rows,
                    forall|j: int| row + cells <= j < rows ==> !#[trigger] visited@[j],
                    forall|k: int| 0 <= k < layer@.len() ==> (#[trigger] layer@[k]) < cells,
                    forall|k: int| 0 <= k < next_layer@.len() ==> (#[trigger] next_layer@[k]) < cells,
                    forall|x: int| 0 <= x < cells ==> (next_layer@.contains(x as usize) <==> #[trigger] visited@[row + x]),
                    forall|x: int| 0 <= x < cells ==> (#[trigger] visited@[row + x] <==> exists|k: int| 0 <= k < i
                        && #[trigger] pressure_step(*self, *field, tb, start as int, blocked as int, reach as int, time as int, layer@[k] as int, x)),
                    forall|x: int| 0 <= x < cells ==> (#[trigger] seen@[x]
                        <==> held_by(*self, *field, tb, from as int, start as int, blocked as int, reach as int, time - 1, x)
                            || visited@[row + x]),
                    area == marked(seen@),
            {
                let cell = layer[i];
                let options = &self.neighbours[cell];
                proof {
                    lemma_neighbours_on_board(self.size as int, cell as int);
                }
                let count = options.len() + 1;
                for k in 0..count
                    invariant
                        self.wf(),
                        self.size > 0,
                        cells == self.cells(),
                        field.wf(cells as int),
                        reach <= field.horizon,
                        field.horizon < 65535,
                        tb == table@,
                        table.len() == (field.horizon + 1) * cells,
                        rows == (reach + 1) * cells,
                        1 <= time <= reach,
                        row == time * cells,
                        row + cells <= rows,
                        cell < cells,
                        i < layer@.len(),
                        cell == layer@[i as int],
                        *options == self.neighbours@[cell as int],
                        options@ == neighbour_list(self.size as int, cell as int),
                        count == options@.len() + 1,
                        forall|j: int| 0 <= j < options@.len() ==> (#[trigger] options@[j]) < cells,
                        seen@.len() == cells,
                        visited@.len() == rows,
                        forall|j: int| row + cells <= j < rows ==> !#[trigger] visited@[j],
                        forall|q: int| 0 <= q < next_layer@.len() ==> (#[trigger] next_layer@[q]) < cells,
                        forall|x: int| 0 <= x < cells ==> (next_layer@.contains(x as usize) <==> #[trigger] visited@[row + x]),
                        forall|x: int| 0 <= x < cells ==> (#[trigger] visited@[row + x] <==> (exists|q: int| 0 <= q < i
                            && #[trigger] pressure_step(*self, *field, tb, start as int, blocked as int, reach as int, time as int, layer@[q] as int, x))
                            || (pressure_step(*self, *field, tb, start as int, blocked as int, reach as int, time as int, cell as int, x)
                                && ((x == cell && k > options@.len()) || exists|j: int| 0 <= j < k && j < options@.len() && options@[j] == x))),
                        forall|x: int| 0 <= x < cells ==> (#[trigger] seen@[x]
                            <==> held_by(*self, *field, tb, from as int, start as int, blocked as int, reach as int, time - 1, x)
                                || visited@[row + x]),
                        area == marked(seen@),
                {
                    let step = if k < options.len() { options[k] } else { cell };
                    let ghost v0 = visited@;
                    let ghost n0 = next_layer@;
                    let ghost s0 = seen@;
                    proof {
                        lemma_row_in_table(time as int, step as int, cells as int, field.horizon + 1);
                        if k < options.len() {
                            assert(options@.contains(step));
                        }
                    }
                    if step != blocked && !visited[row + step] && field.allowed(step, time, start)
                        && time + (table[row + step] as usize) >= reach {
                        proof {
                            lemma_unmarked_bound(seen@);
                        }
                        visited.set(row + step, true);
                        next_layer.push(step);
                        if !seen[step] {
                            proof {
                                lemma_mark(seen@, step as int);
                            }
                            seen.set(step, true);
                            area = area + 1;
                        }
                    }
                    proof {
                        assert forall|x: int| 0 <= x < cells implies (next_layer@.contains(x as usize) <==> #[trigger] visited@[row + x]) by {
                            if x != step {
                                assert(visited@[row + x] == v0[row + x]);
                                if next_layer@.contains(x as usize) {
                                    let q = choose|q: int| 0 <= q < next_layer@.len() && next_layer@[q] == x as usize;
                                    if q < n0.len() {
                                        assert(n0[q] == next_layer@[q]);
                                    }
                                }
                                if n0.contains(x as usize) {
                                    let q = choose|q: int| 0 <= q < n0.len() && n0[q] == x as usize;
                                    assert(next_layer@[q] == n0[q]);
                                }
                            } else if visited@[row + x] && !v0[row + x] {
                                assert(next_layer@[next_layer@.len() - 1] == step);
                            }
                        }
                        assert forall|q: int| 0 <= q < next_layer@.len() implies (#[trigger] next_layer@[q]) < cells by {
                            if q < n0.len() {
                                assert(next_layer@[q] == n0[q]);
                            }
                        }
                        assert forall|j: int| row + cells <= j < rows implies !#[trigger] visited@[j] by {
                            assert(v0[j] == visited@[j]);
                        }
                        assert forall|x: int| 0 <= x < cells implies (#[trigger] visited@[row + x] <==> (exists|q: int| 0 <= q < i
                            && #[trigger] pressure_step(*self, *field, tb, start as int, blocked as int, reach as int, time as int, layer@[q] as int, x))
                            || (pressure_step(*self, *field, tb, start as int, blocked as int, reach as int, time as int, cell as int, x)
                                && ((x == cell && k + 1 > options@.len()) || exists|j: int| 0 <= j < k + 1 && j < options@.len() && options@[j] == x))) by {
                            if x != step {
                                assert(visited@[row + x] == v0[row + x]);
                                if exists|j: int| 0 <= j < k + 1 && j < options@.len() && options@[j] == x {
                                    let j = choose|j: int| 0 <= j < k + 1 && j < options@.len() && options@[j] == x;
                                    assert(j != k);
                                }
                            } else {
                                if k < options@.len() {
                                    assert(options@[k as int] == x);
                                }
                            }
                        }
                        assert forall|x: int| 0 <= x < cells implies (#[trigger] seen@[x]
                            <==> held_by(*self, *field, tb, from as int, start as int, blocked as int, reach as int, time - 1, x)
                                || visited@[row + x]) by {
                            if x != step {
                                assert(seen@[x] == s0[x]);
                                assert(visited@[row + x] == v0[row + x]);
                            }
                        }
                    }
                }
                proof {
                    assert forall|x: int| 0 <= x < cells implies (#[trigger] visited@[row + x] <==> exists|q: int| 0 <= q < i + 1
                        && #[trigger] pressure_step(*self, *field, tb, start as int, blocked as int, reach as int, time as int, layer@[q] as int, x)) by {
                        if pressure_step(*self, *field, tb, start as int, blocked as int, reach as int, time as int, cell as int, x) && x != cell {
                            assert(self.neighbours@[cell as int]@.contains(x as usize));
                            let j = choose|j: int| 0 <= j < options@.len() && options@[j] == x as usize;
                        }
                        if exists|q: int| 0 <= q < i + 1
                            && #[trigger] pressure_step(*self, *field, tb, start as int, blocked as int, reach as int, time as int, layer@[q] as int, x) {
                            let q = choose|q: int| 0 <= q < i + 1
                                && #[trigger] pressure_step(*self, *field, tb, start as int, blocked as int, reach as int, time as int, layer@[q] as int, x);
                            if q == i {
                                if x != cell {
                                    assert(self.neighbours@[cell as int]@.contains(x as usize));
                                    let j = choose|j: int| 0 <= j < options@.len() && options@[j] == x as usize;
                                }
                            }
                        }
                    }
                }
            }
            proof {
                assert forall|x: int| 0 <= x < cells implies (next_layer@.contains(x as usize)
                    <==> #[trigger] in_layer(*self, *field, tb, from as int, start as int, blocked as int, reach as int, time as int, x)) by {
                    lemma_in_layer_unfold(*self, *field, tb, from as int, start as int, blocked as int, reach as int, time as int, x);
                    if next_layer@.contains(x as usize) {
                        assert(visited@[row + x]);
                        let q = choose|q: int| 0 <= q < old_layer.len()
                            && #[trigger] pressure_step(*self, *field, tb, start as int, blocked as int, reach as int, time as int, old_layer[q] as int, x);
                        let c = old_layer[q] as int;
                        assert(old_layer.contains(c as usize));
                        assert(in_layer(*self, *field, tb, from as int, start as int, blocked as int, reach as int, time - 1, c));
                    }
                    if in_layer(*self, *field, tb, from as int, start as int, blocked as int, reach as int, time as int, x) {
                        let c = choose|c: int| 0 <= c < self.cells() && #[trigger] in_layer(*self, *field, tb, from as int, start as int, blocked as int, reach as int, time - 1, c)
                            && pressure_step(*self, *field, tb, start as int, blocked as int, reach as int, time as int, c, x);
                        assert(old_layer.contains(c as usize));
                        let q = choose|q: int| 0 <= q < old_layer.len() && old_layer[q] == c as usize;
                        assert(pressure_step(*self, *field, tb, start as int, blocked as int, reach as int, time as int, old_layer[q] as int, x));
                        assert(visited@[row + x]);
                    }
                }
                assert forall|x: int| 0 <= x < cells implies (#[trigger] seen@[x]
                    <==> held_by(*self, *field, tb, from as int, start as int, blocked as int, reach as int, time as int, x)) by {
                    if held_by(*self, *field, tb, from as int, start as int, blocked as int, reach as int, time as int, x) {
                        let u = choose|u: int| 1 <= u <= time && #[trigger] in_layer(*self, *field, tb, from as int, start as int, blocked as int, reach as int, u, x);
                        if u < time {
                            assert(held_by(*self, *field, tb, from as int, start as int, blocked as int, reach as int, time - 1, x));
                        }
                    }
                    if held_by(*self, *field, tb, from as int, start as int, blocked as int, reach as int, time - 1, x) {
                        let u = choose|u: int| 1 <= u <= time - 1 && #[trigger] in_layer(*self, *field, tb, from as int, start as int, blocked as int, reach as int, u, x);
                        assert(held_by(*self, *field, tb, from as int, start as int, blocked as int, reach as int, time as int, x));
                    }
                    if visited@[row + x] {
                        assert(next_layer@.contains(x as usize));
                        assert(in_layer(*self, *field, tb, from as int, start as int, blocked as int, reach as int, time as int, x));
                    }
                }
            }
            layer = next_layer;
            time = time + 1;
        }
        proof {
            let target = Seq::new(self.cells() as nat,
                |c: int| held_by(*self, *field, table@, from as int, start as int, blocked as int, reach as int, reach as int, c));
            assert(seen@ =~= target);
        }
        area
    }

    /// The tiles as they stand: when each may first be entered (walls, blocks and
    /// players never; the bot's own tile and the floor at once), which hold a
    /// destroyable block, and which are solid walls.
    fn initial_tiles(&self, map: &GameMap, me: usize) -> (r: (Vec<usize>, Vec<bool>, Vec<bool>))
        requires
            self.cells() <= map.grid.tiles@.len(),
            me < self.cells(),
            self.wf(),
        ensures
            r.0@.len() == self.cells(),
            r.1@.len() == self.cells(),
            r.2@.len() == self.cells(),
            forall|c: int| 0 <= c < self.cells() ==> #[trigger] r.0@[c] == if c == me { 0 } else if map.grid.tiles@[c] == 'W'
                || map.grid.tiles@[c] == '.' || map.grid.tiles@[c] == 'P' { NEVER } else { 0 },
            forall|c: int| 0 <= c < self.cells() ==> #[trigger] r.1@[c] == (map.grid.tiles@[c] == '.'),
            forall|c: int| 0 <= c < self.cells() ==> #[trigger] r.2@[c] == (map.grid.tiles@[c] == 'W'),
    {
        let cells = self.size * self.size;
        let mut open_from: Vec<usize> = Vec::new();
        let mut destroyable: Vec<bool> = Vec::new();
        let mut solid: Vec<bool> = Vec::new();
        for cell in 0..cells
            invariant
                cells == self.cells(),
                cells <= map.grid.tiles@.len(),
                me < cells,
                open_from@.len() == cell,
                destroyable@.len() == cell,
                solid@.len() == cell,
                forall|c: int| 0 <= c < cell ==> #[trigger] open_from@[c] == if c == me { 0 } else if map.grid.tiles@[c] == 'W'
                    || map.grid.tiles@[c] == '.' || map.grid.tiles@[c] == 'P' { NEVER } else { 0 },
                forall|c: int| 0 <= c < cell ==> #[trigger] destroyable@[c] == (map.grid.tiles@[c] == '.'),
                forall|c: int| 0 <= c < cell ==> #[trigger] solid@[c] == (map.grid.tiles@[c] == 'W'),
        {
            let tile = map.grid.tiles[cell];
            let open = if cell == me {
                0
            } else if tile == 'W' || tile == '.' || tile == 'P' {
                NEVER
            } else {
                0
            };
            open_from.push(open);
            destroyable.push(tile == '.');
            solid.push(tile == 'W');
        }
        (open_from, destroyable, solid)
    }

    /// Every bomb with its tile and the time it goes off: the bombs on the map with their
    /// timers (at least one), then each of `extra_bombs` not already on the map with a
    /// full `fuse`. `fresh` is the place of `own` among them, when `own` is added.
    #[verifier::spinoff_prover]
    fn collect_bombs(&self, map: &GameMap, extra_bombs: &Vec<usize>, own: Option<usize>, fuse: usize)
        -> (r: (Vec<usize>, Vec<usize>, Option<usize>))
        requires
            self.wf(),
            fuse >= 1,
            forall|i: int| 0 <= i < map.bombs@.len() ==> tile_of(*self, (#[trigger] map.bombs@[i]).position) < self.cells(),
            forall|i: int| 0 <= i < extra_bombs@.len() ==> (#[trigger] extra_bombs@[i]) < self.cells(),
            map.bombs@.len() + extra_bombs@.len() <= usize::MAX,
        ensures
            r.0@.len() == r.1@.len(),
            forall|i: int| 0 <= i < r.0@.len() ==> (#[trigger] r.0@[i]) < self.cells(),
            forall|i: int| 0 <= i < r.1@.len() ==> (#[trigger] r.1@[i]) >= 1,
            forall|i: int| 0 <= i < map.bombs@.len() ==> r.0@.contains(tile_of(*self, (#[trigger] map.bombs@[i]).position) as usize),
            forall|i: int| 0 <= i < extra_bombs@.len() ==> r.0@.contains(#[trigger] extra_bombs@[i]),
            r.2 matches Some(f) ==> f < r.0@.len(),
            map.bombs@.len() <= r.0@.len(),
            forall|i: int| 0 <= i < map.bombs@.len() ==> r.0@[i] == tile_of(*self, (#[trigger] map.bombs@[i]).position)
                && r.1@[i] == bomb_fuse(map.bombs@[i]),
            forall|k: int| 0 <= k < extra_bombs@.len() && !bomb_on(*self, map.bombs@, #[trigger] extra_bombs@[k] as int)
                ==> exists|j: int| 0 <= j < r.0@.len() && r.0@[j] == extra_bombs@[k] && #[trigger] r.1@[j] == fuse,
            forall|j: int| map.bombs@.len() <= j < r.0@.len() ==> extra_bombs@.contains(#[trigger] r.0@[j]) && r.1@[j] == fuse,
            r.2 matches Some(f) ==> own == Some(r.0@[f as int]),
            own matches Some(o) && extra_bombs@.contains(o) && !bomb_on(*self, map.bombs@, o as int) ==> r.2 is Some,
    {
        let mut positions: Vec<usize> = Vec::new();
        let mut fuses: Vec<usize> = Vec::new();
        for i in 0..map.bombs.len()
            invariant
                self.wf(),
                positions@.len() == i,
                fuses@.len() == i,
                forall|j: int| 0 <= j < map.bombs@.len() ==> tile_of(*self, (#[trigger] map.bombs@[j]).position) < self.cells(),
                forall|j: int| 0 <= j < i ==> positions@[j] == tile_of(*self, (#[trigger] map.bombs@[j]).position),
                forall|j: int| 0 <= j < i ==> (#[trigger] positions@[j]) < self.cells(),
                forall|j: int| 0 <= j < i ==> (#[trigger] fuses@[j]) >= 1,
                forall|j: int| 0 <= j < i ==> fuses@[j] == bomb_fuse(#[trigger] map.bombs@[j]),
        {
            let bomb = &map.bombs[i];
            let p = self.index(bomb.position.col.get(), bomb.position.row.get());
            positions.push(p);
            fuses.push(if bomb.timer < 1 { 1 } else { bomb.timer });
        }
        proof {
            assert forall|j: int| 0 <= j < map.bombs@.len() implies positions@.contains(tile_of(*self, (#[trigger] map.bombs@[j]).position) as usize) by {
                assert(positions@[j] == tile_of(*self, map.bombs@[j].position));
            }
        }
        let mut fresh: Option<usize> = None;
        for k in 0..extra_bombs.len()
            invariant
                self.wf(),
                fuse >= 1,
                positions@.len() == fuses@.len(),
                positions@.len() <= map.bombs@.len() + k,
                map.bombs@.len() + extra_bombs@.len() <= usize::MAX,
                forall|i: int| 0 <= i < extra_bombs@.len() ==> (#[trigger] extra_bombs@[i]) < self.cells(),
                forall|j: int| 0 <= j < positions@.len() ==> (#[trigger] positions@[j]) < self.cells(),
                forall|j: int| 0 <= j < fuses@.len() ==> (#[trigger] fuses@[j]) >= 1,
                forall|j: int| 0 <= j < map.bombs@.len() ==> positions@.contains(tile_of(*self, (#[trigger] map.bombs@[j]).position) as usize),
                forall|j: int| 0 <= j < k ==> positions@.contains(#[trigger] extra_bombs@[j]),
                fresh matches Some(f) ==> f < positions@.len(),
                map.bombs@.len() <= positions@.len(),
                forall|i: int| 0 <= i < map.bombs@.len() ==> positions@[i] == tile_of(*self, (#[trigger] map.bombs@[i]).position)
                    && fuses@[i] == bomb_fuse(map.bombs@[i]),
                forall|j: int| map.bombs@.len() <= j < fuses@.len() ==> #[trigger] fuses@[j] == fuse,
                forall|j: int| map.bombs@.len() <= j < positions@.len() ==> extra_bombs@.contains(#[trigger] positions@[j]),
                forall|kk: int| 0 <= kk < k && !bomb_on(*self, map.bombs@, #[trigger] extra_bombs@[kk] as int)
                    ==> exists|j: int| 0 <= j < positions@.len() && positions@[j] == extra_bombs@[kk] && #[trigger] fuses@[j] == fuse,
                fresh matches Some(f) ==> own == Some(positions@[f as int]),
                forall|j: int| map.bombs@.len() <= j < positions@.len() && own == Some(#[trigger] positions@[j]) ==> fresh is Some,
        {
            let cell = extra_bombs[k];
            let ghost pos_before = positions@;
            let ghost fuses_before = fuses@;
            let mut present = false;
            let mut at: usize = 0;
            for q in 0..positions.len()
                invariant
                    present ==> positions@.contains(cell),
                    present ==> at < positions@.len() && positions@[at as int] == cell,
            {
                if positions[q] == cell {
                    proof {
                        assert(positions@[q as int] == cell);
                    }
                    present = true;
                    at = q;
                }
            }
            proof {
                if present && !bomb_on(*self, map.bombs@, cell as int) {
                    if (at as int) < map.bombs@.len() {
                        assert(positions@[at as int] == tile_of(*self, map.bombs@[at as int].position));
                    }
                    assert(fuses@[at as int] == fuse);
                }
            }
            if !present {
                if own == Some(cell) {
                    fresh = Some(positions.len());
                }
                let ghost before = positions@;
                positions.push(cell);
                fuses.push(fuse);
                proof {
                    assert(positions@[positions@.len() - 1] == cell);
                    assert(fuses@[fuses@.len() - 1] == fuse);
                    assert(extra_bombs@[k as int] == cell);
                    assert forall|y: usize| before.contains(y) implies #[trigger] positions@.contains(y) by {
                        let j = choose|j: int| 0 <= j < before.len() && before[j] == y;
                        assert(positions@[j] == y);
                    }
                }
            }
            proof {
                assert forall|kk: int| 0 <= kk < k + 1 && !bomb_on(*self, map.bombs@, #[trigger] extra_bombs@[kk] as int)
                    implies exists|j: int| 0 <= j < positions@.len() && positions@[j] == extra_bombs@[kk] && #[trigger] fuses@[j] == fuse by {
                    if kk < k {
                        let j = choose|j: int| 0 <= j < pos_before.len() && pos_before[j] == extra_bombs@[kk] && #[trigger] fuses_before[j] == fuse;
                        assert(positions@[j] == pos_before[j] && fuses@[j] == fuses_before[j]);
                    } else if present {
                        assert(positions@[at as int] == cell && fuses@[at as int] == fuse);
                    } else {
                        assert(positions@[positions@.len() - 1] == cell && fuses@[fuses@.len() - 1] == fuse);
                    }
                }
            }
        }
        proof {
            assert forall|kk: int| 0 <= kk < extra_bombs@.len() && !bomb_on(*self, map.bombs@, #[trigger] extra_bombs@[kk] as int)
                implies exists|j: int| 0 <= j < positions@.len() && positions@[j] == extra_bombs@[kk] && #[trigger] fuses@[j] == fuse by {
                let j = choose|j: int| 0 <= j < positions@.len() && positions@[j] == extra_bombs@[kk] && #[trigger] fuses@[j] == fuse;
                assert(fuses@[j] == fuse);
            }
            assert(own is Some && extra_bombs@.contains(own.unwrap()) && !bomb_on(*self, map.bombs@, own.unwrap() as int)
                ==> fresh is Some) by {
                if own is Some && extra_bombs@.contains(own.unwrap()) && !bomb_on(*self, map.bombs@, own.unwrap() as int) {
                    let o = own.unwrap();
                    let kk = choose|kk: int| 0 <= kk < extra_bombs@.len() && extra_bombs@[kk] == o;
                    assert(positions@.contains(extra_bombs@[kk]));
                    let j = choose|j: int| 0 <= j < positions@.len() && positions@[j] == o;
                    if j < map.bombs@.len() {
                        assert(tile_of(*self, map.bombs@[j].position) == o);
                    }
                }
            }
        }
        (positions, fuses, fresh)
    }

    /// Works out the blasts of all bombs, with chain reactions: a bomb caught in a blast
    /// goes off with it, so its fuse is lowered to the time of that blast, and a blast
    /// stops at a wall or at a block that is still standing. Blocks cleared by earlier
    /// blasts are looked up in the previous pass; the passes repeat, at most
    /// `CHAIN_PASSES` times, until nothing changes. Gives the blast masks, the two
    /// earliest clearing times of each block, and the blocks the bomb at `fresh` clears.
    /// Each ray a bomb's blast surely reaches (up to a wall or the first block) is
    /// deadly by the bomb's fuse, its blocks are cleared by then, and the bombs on it
    /// end with fuses no longer.
    fn chain_reactions(&self, positions: &Vec<usize>, fuses: &mut Vec<usize>, fresh: Option<usize>,
        solid: &Vec<bool>, destroyable: &Vec<bool>, radius: usize) -> (r: (Vec<u64>, Vec<(usize, usize)>, Vec<usize>))
        requires
            self.wf(),
            self.size > 0,
            positions@.len() == old(fuses)@.len(),
            forall|i: int| 0 <= i < positions@.len() ==> (#[trigger] positions@[i]) < self.cells(),
            forall|i: int| 0 <= i < old(fuses)@.len() ==> (#[trigger] old(fuses)@[i]) >= 1,
            solid@.len() == self.cells(),
            destroyable@.len() == self.cells(),
            fresh matches Some(f) ==> f < positions@.len(),
        ensures
            final(fuses)@.len() == positions@.len(),
            forall|i: int| 0 <= i < positions@.len() ==> (#[trigger] final(fuses)@[i]) >= 1,
            r.0@.len() == self.cells(),
            r.1@.len() == self.cells(),
            forall|i: int| 0 <= i < r.2@.len() ==> (#[trigger] r.2@[i]) < self.cells() && destroyable@[r.2@[i] as int],
            forall|i: int| 0 <= i < positions@.len() ==> #[trigger] final(fuses)@[i] <= old(fuses)@[i],
            forall|j: int| 0 <= j < positions@.len()
                ==> deadly_by(r.0@[#[trigger] positions@[j] as int], old(fuses)@[j] as int),
            forall|j: int, d: int, s: nat| 0 <= j < positions@.len() && 0 <= d < 4 && 1 <= s <= radius
                && #[trigger] ray_hits(self.size as int, solid@, destroyable@, positions@[j] as int, d, s)
                ==> deadly_by(r.0@[ray_tile(self.size as int, positions@[j] as int, d, s).unwrap() as int], old(fuses)@[j] as int),
            forall|j: int, d: int, s: nat| 0 <= j < positions@.len() && 0 <= d < 4 && 1 <= s <= radius
                && #[trigger] ray_hits(self.size as int, solid@, destroyable@, positions@[j] as int, d, s)
                && destroyable@[ray_tile(self.size as int, positions@[j] as int, d, s).unwrap() as int]
                ==> r.1@[ray_tile(self.size as int, positions@[j] as int, d, s).unwrap() as int].0 <= old(fuses)@[j],
            forall|j: int, d: int, s: nat, k: int| #![trigger ray_hits(self.size as int, solid@, destroyable@, positions@[j] as int, d, s), final(fuses)@[k]]
                0 <= j < positions@.len() && 0 <= d < 4 && 1 <= s <= radius && 0 <= k < positions@.len()
                && ray_hits(self.size as int, solid@, destroyable@, positions@[j] as int, d, s)
                && positions@[k] == ray_tile(self.size as int, positions@[j] as int, d, s).unwrap()
                ==> final(fuses)@[k] <= old(fuses)@[j],
            forall|d: int, s: nat| fresh is Some && 0 <= d < 4 && 1 <= s <= radius
                && #[trigger] ray_hits(self.size as int, solid@, destroyable@, positions@[fresh.unwrap() as int] as int, d, s)
                && destroyable@[ray_tile(self.size as int, positions@[fresh.unwrap() as int] as int, d, s).unwrap() as int]
                ==> r.2@.contains(ray_tile(self.size as int, positions@[fresh.unwrap() as int] as int, d, s).unwrap()),
forall|c: usize, a: usize| c < self.cells() && a < 64 && #[trigger] bit_on(r.0@[c as int], a)
                ==> lit_by(self.size as int, solid@, positions@, final(fuses)@, old(fuses)@, radius, c, a),
            forall|c: int| 0 <= c < self.cells() ==> (#[trigger] r.1@[c]).0 >= 1,
            forall|x: int| 0 <= x < r.2@.len() ==> #[trigger] fresh_clear(self.size as int, solid@, positions@, fresh, radius, r.2@[x]),
    {
        let ghost init = fuses@;
        let cells = self.size * self.size;
        let mut blast: Vec<u64> = filled(cells, 0u64);
        proof {
            assert forall|c: usize, a: usize| c < cells && a < 64 && #[trigger] bit_on(blast@[c as int], a)
                implies lit_by(self.size as int, solid@, positions@, fuses@, init, radius, c, a) by {
                lemma_no_bits(a);
            }
        }
        let mut cleared: Vec<(usize, usize)> = filled(cells, (NEVER, NEVER));
        let mut cleared_again: Vec<usize> = filled(cells, NEVER);
        let mut fresh_kills: Vec<usize> = Vec::new();
        let mut pass: usize = 0;
        let mut settled = false;
        while pass < CHAIN_PASSES && !settled
            invariant
                self.wf(),
                self.size > 0,
                cells == self.cells(),
                positions@.len() == fuses@.len(),
                forall|i: int| 0 <= i < positions@.len() ==> (#[trigger] positions@[i]) < cells,
                forall|i: int| 0 <= i < fuses@.len() ==> (#[trigger] fuses@[i]) >= 1,
                solid@.len() == cells,
                destroyable@.len() == cells,
                blast@.len() == cells,
                cleared@.len() == cells,
                cleared_again@.len() == cells,
                forall|i: int| 0 <= i < fresh_kills@.len() ==> (#[trigger] fresh_kills@[i]) < cells && destroyable@[fresh_kills@[i] as int],
                init.len() == positions@.len(),
                forall|i: int| 0 <= i < fuses@.len() ==> #[trigger] fuses@[i] <= init[i],
                pass == 0 ==> !settled,
                pass > 0 ==> forall|j: int| 0 <= j < positions@.len()
                    ==> deadly_by(blast@[#[trigger] positions@[j] as int], init[j] as int),
                pass > 0 ==> forall|j: int, d: int, s: nat| 0 <= j < positions@.len() && true && 0 <= d < 4 && 1 <= s <= radius
                    && #[trigger] ray_hits(self.size as int, solid@, destroyable@, positions@[j] as int, d, s)
                    ==> deadly_by(blast@[ray_tile(self.size as int, positions@[j] as int, d, s).unwrap() as int], init[j] as int),
                pass > 0 ==> forall|j: int, d: int, s: nat| 0 <= j < positions@.len() && true && 0 <= d < 4 && 1 <= s <= radius
                    && #[trigger] ray_hits(self.size as int, solid@, destroyable@, positions@[j] as int, d, s)
                    && destroyable@[ray_tile(self.size as int, positions@[j] as int, d, s).unwrap() as int]
                    ==> cleared@[ray_tile(self.size as int, positions@[j] as int, d, s).unwrap() as int].0 <= init[j],
                pass > 0 ==> forall|j: int, d: int, s: nat, k: int| #![trigger ray_hits(self.size as int, solid@, destroyable@, positions@[j] as int, d, s), fuses@[k]]
                    0 <= j < positions@.len() && true && 0 <= d < 4 && 1 <= s <= radius && 0 <= k < positions@.len()
                    && ray_hits(self.size as int, solid@, destroyable@, positions@[j] as int, d, s)
                    && positions@[k] == ray_tile(self.size as int, positions@[j] as int, d, s).unwrap()
                    ==> fuses@[k] <= init[j],
                pass > 0 ==> forall|d: int, s: nat| fresh is Some && true && 0 <= d < 4 && 1 <= s <= radius
                    && #[trigger] ray_hits(self.size as int, solid@, destroyable@, positions@[fresh.unwrap() as int] as int, d, s)
                    && destroyable@[ray_tile(self.size as int, positions@[fresh.unwrap() as int] as int, d, s).unwrap() as int]
                    ==> fresh_kills@.contains(ray_tile(self.size as int, positions@[fresh.unwrap() as int] as int, d, s).unwrap()),
                forall|x: int| 0 <= x < fresh_kills@.len() ==> #[trigger] fresh_clear(self.size as int, solid@, positions@, fresh, radius, fresh_kills@[x]),
                forall|c: int| 0 <= c < cells ==> (#[trigger] cleared@[c]).0 >= 1,
                forall|c: usize, a: usize| c < cells && a < 64 && #[trigger] bit_on(blast@[c as int], a)
                    ==> lit_by(self.size as int, solid@, positions@, fuses@, init, radius, c, a),
                fresh is Some ==> fresh.unwrap() < positions@.len(),
            decreases CHAIN_PASSES - pass,
        {
            let was_cleared = copy_vec(&cleared);
            let was_cleared_again = copy_vec(&cleared_again);
            let previous_fuses = copy_vec(fuses);
            blast = filled(cells, 0u64);
            proof {
                assert forall|c: usize, a: usize| c < cells && a < 64 && #[trigger] bit_on(blast@[c as int], a)
                    implies lit_by(self.size as int, solid@, positions@, fuses@, init, radius, c, a) by {
                    lemma_no_bits(a);
                }
            }
            cleared = filled(cells, (NEVER, NEVER));
            cleared_again = filled(cells, NEVER);
            fresh_kills = Vec::new();
            for bomb in 0..positions.len()
                invariant
                    self.wf(),
                    self.size > 0,
                    cells == self.cells(),
                    positions@.len() == fuses@.len(),
                    forall|i: int| 0 <= i < positions@.len() ==> (#[trigger] positions@[i]) < cells,
                forall|i: int| 0 <= i < fuses@.len() ==> (#[trigger] fuses@[i]) >= 1,
                    solid@.len() == cells,
                    destroyable@.len() == cells,
                    was_cleared@.len() == cells,
                    was_cleared_again@.len() == cells,
                    blast@.len() == cells,
                    cleared@.len() == cells,
                    cleared_again@.len() == cells,
                    forall|i: int| 0 <= i < fresh_kills@.len() ==> (#[trigger] fresh_kills@[i]) < cells && destroyable@[fresh_kills@[i] as int],
                init.len() == positions@.len(),
                forall|i: int| 0 <= i < fuses@.len() ==> #[trigger] fuses@[i] <= init[i],
                    forall|j: int| 0 <= j < bomb ==> deadly_by(blast@[#[trigger] positions@[j] as int], init[j] as int),
                    forall|d: int, s: nat| fresh is Some && fresh.unwrap() < bomb && 0 <= d < 4 && 1 <= s <= radius
                    && #[trigger] ray_hits(self.size as int, solid@, destroyable@, positions@[fresh.unwrap() as int] as int, d, s)
                    && destroyable@[ray_tile(self.size as int, positions@[fresh.unwrap() as int] as int, d, s).unwrap() as int]
                    ==> fresh_kills@.contains(ray_tile(self.size as int, positions@[fresh.unwrap() as int] as int, d, s).unwrap()),
                    forall|x: int| 0 <= x < fresh_kills@.len() ==> #[trigger] fresh_clear(self.size as int, solid@, positions@, fresh, radius, fresh_kills@[x]),
                forall|c: int| 0 <= c < cells ==> (#[trigger] cleared@[c]).0 >= 1,
                forall|c: usize, a: usize| c < cells && a < 64 && #[trigger] bit_on(blast@[c as int], a)
                    ==> lit_by(self.size as int, solid@, positions@, fuses@, init, radius, c, a),
                    fresh is Some ==> fresh.unwrap() < positions@.len(),
                    forall|j: int, d: int, s: nat, k: int| #![trigger ray_hits(self.size as int, solid@, destroyable@, positions@[j] as int, d, s), fuses@[k]]
                    0 <= j < positions@.len() && j < bomb && 0 <= d < 4 && 1 <= s <= radius && 0 <= k < positions@.len()
                    && ray_hits(self.size as int, solid@, destroyable@, positions@[j] as int, d, s)
                    && positions@[k] == ray_tile(self.size as int, positions@[j] as int, d, s).unwrap()
                    ==> fuses@[k] <= init[j],
                    forall|j: int, d: int, s: nat| 0 <= j < positions@.len() && j < bomb && 0 <= d < 4 && 1 <= s <= radius
                    && #[trigger] ray_hits(self.size as int, solid@, destroyable@, positions@[j] as int, d, s)
                    && destroyable@[ray_tile(self.size as int, positions@[j] as int, d, s).unwrap() as int]
                    ==> cleared@[ray_tile(self.size as int, positions@[j] as int, d, s).unwrap() as int].0 <= init[j],
                    forall|j: int, d: int, s: nat| 0 <= j < positions@.len() && j < bomb && 0 <= d < 4 && 1 <= s <= radius
                    && #[trigger] ray_hits(self.size as int, solid@, destroyable@, positions@[j] as int, d, s)
                    ==> deadly_by(blast@[ray_tile(self.size as int, positions@[j] as int, d, s).unwrap() as int], init[j] as int),
            {
                let origin = positions[bomb];
                let time = fuses[bomb];
                let ghost unmarked = blast@;
                mark_blast(&mut blast, origin, time);
                proof {
                    assert forall|c: usize, a: usize| c < cells && a < 64 && #[trigger] bit_on(blast@[c as int], a)
                        implies lit_by(self.size as int, solid@, positions@, fuses@, init, radius, c, a) by {
                        if time < 64 {
                            if c as int == origin as int {
                                lemma_or_bit_from(unmarked[c as int], time, a);
                                if a == time {
                                    assert(on_blast_path(self.size as int, solid@, positions@[bomb as int], radius, c)) by {
                                        
                                    }
                                } else {
                                    assert(bit_on(unmarked[c as int], a));
                                }
                            } else {
                                assert(bit_on(unmarked[c as int], a));
                            }
                        } else {
                            assert(bit_on(unmarked[c as int], a));
                        }
                    }
                    lemma_mark_keeps_all(unmarked, blast@, origin as int, time);
                    lemma_mark_keeps_deadly(unmarked, blast@, origin as int, time, positions@, init, bomb as int);
                    if init[bomb as int] < 64 {
                        lemma_or_sets_bit(unmarked[origin as int], time);
                        assert(((blast@[origin as int] >> (time as usize)) & 1) != 0);
                    }
                }
                for direction in 0..4
                    invariant
                        self.wf(),
                        self.size > 0,
                        cells == self.cells(),
                        origin < cells,
                        time >= 1,
                        positions@.len() == fuses@.len(),
                        forall|i: int| 0 <= i < positions@.len() ==> (#[trigger] positions@[i]) < cells,
                forall|i: int| 0 <= i < fuses@.len() ==> (#[trigger] fuses@[i]) >= 1,
                        solid@.len() == cells,
                        destroyable@.len() == cells,
                        was_cleared@.len() == cells,
                        was_cleared_again@.len() == cells,
                        blast@.len() == cells,
                        cleared@.len() == cells,
                        cleared_again@.len() == cells,
                        forall|i: int| 0 <= i < fresh_kills@.len() ==> (#[trigger] fresh_kills@[i]) < cells && destroyable@[fresh_kills@[i] as int],
                init.len() == positions@.len(),
                forall|i: int| 0 <= i < fuses@.len() ==> #[trigger] fuses@[i] <= init[i],
                        bomb < positions@.len(),
                        forall|j: int| 0 <= j < bomb + 1 ==> deadly_by(blast@[#[trigger] positions@[j] as int], init[j] as int),
                        origin == positions@[bomb as int],
                        time <= init[bomb as int],
                        fuses@[bomb as int] <= time,
                        forall|d: int, s: nat| fresh is Some && (fresh.unwrap() < bomb || (fresh.unwrap() == bomb && d < direction)) && 0 <= d < 4 && 1 <= s <= radius
                    && #[trigger] ray_hits(self.size as int, solid@, destroyable@, positions@[fresh.unwrap() as int] as int, d, s)
                    && destroyable@[ray_tile(self.size as int, positions@[fresh.unwrap() as int] as int, d, s).unwrap() as int]
                    ==> fresh_kills@.contains(ray_tile(self.size as int, positions@[fresh.unwrap() as int] as int, d, s).unwrap()),
                        forall|x: int| 0 <= x < fresh_kills@.len() ==> #[trigger] fresh_clear(self.size as int, solid@, positions@, fresh, radius, fresh_kills@[x]),
                forall|c: int| 0 <= c < cells ==> (#[trigger] cleared@[c]).0 >= 1,
                forall|c: usize, a: usize| c < cells && a < 64 && #[trigger] bit_on(blast@[c as int], a)
                    ==> lit_by(self.size as int, solid@, positions@, fuses@, init, radius, c, a),
                        fresh is Some ==> fresh.unwrap() < positions@.len(),
                        forall|j: int, d: int, s: nat, k: int| #![trigger ray_hits(self.size as int, solid@, destroyable@, positions@[j] as int, d, s), fuses@[k]]
                    0 <= j < positions@.len() && (j < bomb || (j == bomb && d < direction)) && 0 <= d < 4 && 1 <= s <= radius && 0 <= k < positions@.len()
                    && ray_hits(self.size as int, solid@, destroyable@, positions@[j] as int, d, s)
                    && positions@[k] == ray_tile(self.size as int, positions@[j] as int, d, s).unwrap()
                    ==> fuses@[k] <= init[j],
                        forall|j: int, d: int, s: nat| 0 <= j < positions@.len() && (j < bomb || (j == bomb && d < direction)) && 0 <= d < 4 && 1 <= s <= radius
                    && #[trigger] ray_hits(self.size as int, solid@, destroyable@, positions@[j] as int, d, s)
                    && destroyable@[ray_tile(self.size as int, positions@[j] as int, d, s).unwrap() as int]
                    ==> cleared@[ray_tile(self.size as int, positions@[j] as int, d, s).unwrap() as int].0 <= init[j],
                        forall|j: int, d: int, s: nat| 0 <= j < positions@.len() && (j < bomb || (j == bomb && d < direction)) && 0 <= d < 4 && 1 <= s <= radius
                    && #[trigger] ray_hits(self.size as int, solid@, destroyable@, positions@[j] as int, d, s)
                    ==> deadly_by(blast@[ray_tile(self.size as int, positions@[j] as int, d, s).unwrap() as int], init[j] as int),
                {
                    let mut cell = origin;
                    let mut steps: usize = 0;
                    let mut going = true;
                    while going && steps < radius
                        invariant
                            self.wf(),
                            self.size > 0,
                            cells == self.cells(),
                            cell < cells,
                            time >= 1,
                            steps <= radius,
                            positions@.len() == fuses@.len(),
                            forall|i: int| 0 <= i < positions@.len() ==> (#[trigger] positions@[i]) < cells,
                forall|i: int| 0 <= i < fuses@.len() ==> (#[trigger] fuses@[i]) >= 1,
                            solid@.len() == cells,
                            destroyable@.len() == cells,
                            was_cleared@.len() == cells,
                            was_cleared_again@.len() == cells,
                            blast@.len() == cells,
                            cleared@.len() == cells,
                            cleared_again@.len() == cells,
                            forall|i: int| 0 <= i < fresh_kills@.len() ==> (#[trigger] fresh_kills@[i]) < cells && destroyable@[fresh_kills@[i] as int],
                init.len() == positions@.len(),
                forall|i: int| 0 <= i < fuses@.len() ==> #[trigger] fuses@[i] <= init[i],
                            bomb < positions@.len(),
                            forall|j: int| 0 <= j < bomb + 1 ==> deadly_by(blast@[#[trigger] positions@[j] as int], init[j] as int),
                            origin == positions@[bomb as int],
                            time <= init[bomb as int],
                            fuses@[bomb as int] <= time,
                            direction < 4,
                            forall|j: int, d: int, s: nat| 0 <= j < positions@.len() && (j < bomb || (j == bomb && d < direction)) && 0 <= d < 4 && 1 <= s <= radius
                    && #[trigger] ray_hits(self.size as int, solid@, destroyable@, positions@[j] as int, d, s)
                    ==> deadly_by(blast@[ray_tile(self.size as int, positions@[j] as int, d, s).unwrap() as int], init[j] as int),
                            forall|t: nat| 1 <= t <= steps
                                && #[trigger] ray_hits(self.size as int, solid@, destroyable@, origin as int, direction as int, t)
                                ==> deadly_by(blast@[ray_tile(self.size as int, origin as int, direction as int, t).unwrap() as int],
                                    init[bomb as int] as int),
                            !going ==> forall|t: nat| steps < t
                                ==> !#[trigger] ray_hits(self.size as int, solid@, destroyable@, origin as int, direction as int, t),
                            going ==> ray_tile(self.size as int, origin as int, direction as int, steps as nat) == Some(cell),
                            going ==> ray_passes(self.size as int, solid@, origin as int, direction as int, steps as nat),
                            forall|d: int, s: nat| fresh is Some && (fresh.unwrap() < bomb || (fresh.unwrap() == bomb && d < direction)) && 0 <= d < 4 && 1 <= s <= radius
                    && #[trigger] ray_hits(self.size as int, solid@, destroyable@, positions@[fresh.unwrap() as int] as int, d, s)
                    && destroyable@[ray_tile(self.size as int, positions@[fresh.unwrap() as int] as int, d, s).unwrap() as int]
                    ==> fresh_kills@.contains(ray_tile(self.size as int, positions@[fresh.unwrap() as int] as int, d, s).unwrap()),
                            forall|x: int| 0 <= x < fresh_kills@.len() ==> #[trigger] fresh_clear(self.size as int, solid@, positions@, fresh, radius, fresh_kills@[x]),
                forall|c: int| 0 <= c < cells ==> (#[trigger] cleared@[c]).0 >= 1,
                forall|c: usize, a: usize| c < cells && a < 64 && #[trigger] bit_on(blast@[c as int], a)
                    ==> lit_by(self.size as int, solid@, positions@, fuses@, init, radius, c, a),
                            fresh is Some ==> fresh.unwrap() < positions@.len(),
                            fresh == Some(bomb) ==> forall|t: nat| 1 <= t <= steps
                                && #[trigger] ray_hits(self.size as int, solid@, destroyable@, origin as int, direction as int, t)
                                && destroyable@[ray_tile(self.size as int, origin as int, direction as int, t).unwrap() as int]
                                ==> fresh_kills@.contains(ray_tile(self.size as int, origin as int, direction as int, t).unwrap()),
                            forall|j: int, d: int, s: nat, k: int| #![trigger ray_hits(self.size as int, solid@, destroyable@, positions@[j] as int, d, s), fuses@[k]]
                    0 <= j < positions@.len() && (j < bomb || (j == bomb && d < direction)) && 0 <= d < 4 && 1 <= s <= radius && 0 <= k < positions@.len()
                    && ray_hits(self.size as int, solid@, destroyable@, positions@[j] as int, d, s)
                    && positions@[k] == ray_tile(self.size as int, positions@[j] as int, d, s).unwrap()
                    ==> fuses@[k] <= init[j],
                            forall|t: nat, k: int| #![trigger ray_hits(self.size as int, solid@, destroyable@, origin as int, direction as int, t), fuses@[k]]
                                1 <= t <= steps && 0 <= k < positions@.len()
                                && ray_hits(self.size as int, solid@, destroyable@, origin as int, direction as int, t)
                                && positions@[k] == ray_tile(self.size as int, origin as int, direction as int, t).unwrap()
                                ==> fuses@[k] <= init[bomb as int],
                            forall|j: int, d: int, s: nat| 0 <= j < positions@.len() && (j < bomb || (j == bomb && d < direction)) && 0 <= d < 4 && 1 <= s <= radius
                    && #[trigger] ray_hits(self.size as int, solid@, destroyable@, positions@[j] as int, d, s)
                    && destroyable@[ray_tile(self.size as int, positions@[j] as int, d, s).unwrap() as int]
                    ==> cleared@[ray_tile(self.size as int, positions@[j] as int, d, s).unwrap() as int].0 <= init[j],
                            forall|t: nat| 1 <= t <= steps
                                && #[trigger] ray_hits(self.size as int, solid@, destroyable@, origin as int, direction as int, t)
                                && destroyable@[ray_tile(self.size as int, origin as int, direction as int, t).unwrap() as int]
                                ==> cleared@[ray_tile(self.size as int, origin as int, direction as int, t).unwrap() as int].0
                                    <= init[bomb as int],
                        decreases radius - steps,
                    {
                        let ghost prev = cell;
                        steps = steps + 1;
                        let ghost sz = self.size as int;
                        let ghost org = origin as int;
                        let ghost dir = direction as int;
                        match self.step(cell, direction) {
                            None => {
                                going = false;
                                proof {
                                    assert(ray_tile(sz, org, dir, steps as nat) is None);
                                    assert forall|t: nat| steps < t implies !#[trigger] ray_hits(sz, solid@, destroyable@, org, dir, t) by {
                                        if ray_hits(sz, solid@, destroyable@, org, dir, t) {
                                            lemma_ray_hits_mono(sz, solid@, destroyable@, org, dir, t, steps as nat);
                                        }
                                    }
                                }
                            },
                            Some(next) => {
                                proof {
                                    lemma_step_on_board(self.size as int, cell as int, direction as int);
                                }
                                cell = next;
                                proof {
                                    assert(ray_tile(sz, org, dir, steps as nat) == Some(cell));
                                }
                                if solid[cell] {
                                    going = false;
                                    proof {
                                        assert forall|t: nat| steps < t implies !#[trigger] ray_hits(sz, solid@, destroyable@, org, dir, t) by {
                                            if ray_hits(sz, solid@, destroyable@, org, dir, t) {
                                                lemma_ray_hits_mono(sz, solid@, destroyable@, org, dir, t, steps as nat);
                                            }
                                        }
                                    }
                                } else {
                                    let ghost unmarked = blast@;
                                    mark_blast(&mut blast, cell, time);
                                    proof {
                                        assert forall|c: usize, a: usize| c < cells && a < 64 && #[trigger] bit_on(blast@[c as int], a)
                                            implies lit_by(self.size as int, solid@, positions@, fuses@, init, radius, c, a) by {
                                            if time < 64 {
                                                if c as int == cell as int {
                                                    lemma_or_bit_from(unmarked[c as int], time, a);
                                                    if a == time {
                                                        assert(on_blast_path(self.size as int, solid@, positions@[bomb as int], radius, c)) by {
                                                            assert(ray_passes(sz, solid@, org, dir, steps as nat));
                                                            assert(on_open_ray(sz, solid@, org, radius as nat, cell));
                                                        }
                                                    } else {
                                                        assert(bit_on(unmarked[c as int], a));
                                                    }
                                                } else {
                                                    assert(bit_on(unmarked[c as int], a));
                                                }
                                            } else {
                                                assert(bit_on(unmarked[c as int], a));
                                            }
                                        }
                                        lemma_mark_keeps_all(unmarked, blast@, cell as int, time);
                                        lemma_mark_keeps_deadly(unmarked, blast@, cell as int, time, positions@, init, bomb + 1);
                                        lemma_mark_makes_deadly(unmarked, blast@, cell as int, time, init[bomb as int] as int);
                                        assert forall|t: nat| 1 <= t <= steps
                                            && #[trigger] ray_hits(sz, solid@, destroyable@, org, dir, t)
                                            implies deadly_by(blast@[ray_tile(sz, org, dir, t).unwrap() as int], init[bomb as int] as int) by {
                                            if t < steps {
                                                assert(deadly_by(unmarked[ray_tile(sz, org, dir, t).unwrap() as int], init[bomb as int] as int));
                                            }
                                        }
                                    }
                                    let ghost entry = fuses@;
                                    for other in 0..positions.len()
                                        invariant
                                            positions@.len() == fuses@.len(),
                                            entry.len() == fuses@.len(),
                                            forall|k: int| 0 <= k < fuses@.len() ==> #[trigger] fuses@[k] <= entry[k],
                                            blast@.len() == cells,
                                            forall|c: usize, a: usize| c < cells && a < 64 && #[trigger] bit_on(blast@[c as int], a)
                                                ==> lit_by(self.size as int, solid@, positions@, entry, init, radius, c, a),
                                            forall|k: int| 0 <= k < other && positions@[k] == cell ==> #[trigger] fuses@[k] <= time,
                                            time >= 1,
                                            forall|i: int| 0 <= i < positions@.len() ==> (#[trigger] positions@[i]) < cells,
                forall|i: int| 0 <= i < fuses@.len() ==> (#[trigger] fuses@[i]) >= 1,
                                            init.len() == positions@.len(),
                                            forall|i: int| 0 <= i < fuses@.len() ==> #[trigger] fuses@[i] <= init[i],
                                    {
                                        if positions[other] == cell && fuses[other] > time {
                                            fuses.set(other, time);
                                        }
                                    }
                                    proof {
                                        assert forall|c: usize, a: usize| c < cells && a < 64 && #[trigger] bit_on(blast@[c as int], a)
                                            implies lit_by(self.size as int, solid@, positions@, fuses@, init, radius, c, a) by {
                                            assert(lit_by(self.size as int, solid@, positions@, entry, init, radius, c, a));
                                            let j = choose|j: int| 0 <= j < positions@.len()
                                                && #[trigger] on_blast_path(self.size as int, solid@, positions@[j], radius, c)
                                                && entry[j] <= a <= init[j];
                                            assert(fuses@[j] <= entry[j]);
                                        }
                                        assert forall|j: int, d: int, s: nat, k: int| #![trigger ray_hits(self.size as int, solid@, destroyable@, positions@[j] as int, d, s), fuses@[k]]
                                            0 <= j < positions@.len() && (j < bomb || (j == bomb && d < direction)) && 0 <= d < 4
                                            && 1 <= s <= radius && 0 <= k < positions@.len()
                                            && ray_hits(self.size as int, solid@, destroyable@, positions@[j] as int, d, s)
                                            && positions@[k] == ray_tile(self.size as int, positions@[j] as int, d, s).unwrap()
                                            implies fuses@[k] <= init[j] by {
                                            assert(entry[k] <= init[j]);
                                        }
                                        assert forall|t: nat, k: int| #![trigger ray_hits(sz, solid@, destroyable@, org, dir, t), fuses@[k]]
                                            1 <= t <= steps && 0 <= k < positions@.len()
                                            && ray_hits(sz, solid@, destroyable@, org, dir, t)
                                            && positions@[k] == ray_tile(sz, org, dir, t).unwrap()
                                            implies fuses@[k] <= init[bomb as int] by {
                                            if t < steps {
                                                assert(entry[k] <= init[bomb as int]);
                                            } else {
                                                assert(positions@[k] == cell);
                                            }
                                        }
                                    }
                                    if destroyable[cell] {
                                        if fresh == Some(bomb) {
                                            let ghost unpushed = fresh_kills@;
                                            fresh_kills.push(cell);
                                            proof {
                                                assert forall|y: usize| #[trigger] unpushed.contains(y) implies fresh_kills@.contains(y) by {
                                                    let w = choose|w: int| 0 <= w < unpushed.len() && unpushed[w] == y;
                                                    assert(fresh_kills@[w] == y);
                                                }
                                                assert(fresh_kills@[fresh_kills@.len() - 1] == cell);
                                                assert(ray_passes(sz, solid@, org, dir, steps as nat));
                                                assert(on_open_ray(sz, solid@, org, radius as nat, cell));
                                                assert forall|x: int| 0 <= x < fresh_kills@.len() implies
                                                    #[trigger] fresh_clear(self.size as int, solid@, positions@, fresh, radius, fresh_kills@[x]) by {
                                                    if x < unpushed.len() {
                                                        assert(fresh_kills@[x] == unpushed[x]);
                                                    }
                                                }
                                            }
                                        }
                                        let ghost uncleared = cleared@;
                                        record_clear(&mut cleared, &mut cleared_again, cell, time, bomb);
                                        proof {
                                            lemma_clear_keeps(uncleared, cleared@, cell as int, time, bomb);
                                            assert forall|c: int| 0 <= c < cells implies (#[trigger] cleared@[c]).0 >= 1 by {
                                                if c != cell as int {
                                                    assert(cleared@[c] == uncleared[c]);
                                                }
                                            }
                                            assert forall|t: nat| 1 <= t <= steps
                                                && #[trigger] ray_hits(sz, solid@, destroyable@, org, dir, t)
                                                && destroyable@[ray_tile(sz, org, dir, t).unwrap() as int]
                                                implies cleared@[ray_tile(sz, org, dir, t).unwrap() as int].0 <= init[bomb as int] by {
                                                let c = ray_tile(sz, org, dir, t).unwrap() as int;
                                                assert(cleared@[c].0 <= uncleared[c].0);
                                            }
                                        }
                                        let gone = (was_cleared[cell].0 <= time && was_cleared[cell].1 != bomb)
                                            || was_cleared_again[cell] <= time;
                                        if !gone {
                                            going = false;
                                            proof {
                                                assert forall|t: nat| steps < t implies !#[trigger] ray_hits(sz, solid@, destroyable@, org, dir, t) by {
                                                    if ray_hits(sz, solid@, destroyable@, org, dir, t) {
                                                        lemma_ray_hits_mono(sz, solid@, destroyable@, org, dir, t, (steps + 1) as nat);
                                                    }
                                                }
                                            }
                                        }
                                    }
                                }
                            },
                        }
                    }
                }
            }
            if pass > 0 && same_pairs(&cleared, &was_cleared) && same_values(&cleared_again, &was_cleared_again)
                && same_values(fuses, &previous_fuses) {
                settled = true;
            }
            pass = pass + 1;
        }
        (blast, cleared, fresh_kills)
    }

    /// How many steps over floor (no walls, no blocks) each tile is from the nearest of
    /// `ghosts`, searched breadth first; `NEVER` where none can walk.
    fn ghost_reach(&self, ghosts: &Vec<usize>, solid: &Vec<bool>, destroyable: &Vec<bool>) -> (reach: Vec<usize>)
        requires
            self.wf(),
            self.size > 0,
            self.cells() < usize::MAX,
            forall|i: int| 0 <= i < ghosts@.len() ==> (#[trigger] ghosts@[i]) < self.cells(),
            solid@.len() == self.cells(),
            destroyable@.len() == self.cells(),
        ensures
            reach@.len() == self.cells(),
            forall|i: int| 0 <= i < ghosts@.len() ==> reach@[(#[trigger] ghosts@[i]) as int] == 0,
            forall|c: int| 0 <= c < self.cells() ==> #[trigger] reach@[c] == NEVER || reach@[c] < self.cells(),
    {
        let cells = self.size * self.size;
        let mut reach: Vec<usize> = filled(cells, NEVER);
        let mut found: Vec<bool> = filled(cells, false);
        let mut frontier: Vec<usize> = Vec::new();
        proof {
            lemma_unmarked_all(found@);
            assert(cells > 0) by (nonlinear_arith)
                requires cells == self.size * self.size, self.size > 0;
        }
        for i in 0..ghosts.len()
            invariant
                cells == self.cells(),
                reach@.len() == cells,
                found@.len() == cells,
                forall|j: int| 0 <= j < ghosts@.len() ==> (#[trigger] ghosts@[j]) < cells,
                forall|j: int| 0 <= j < i ==> reach@[(#[trigger] ghosts@[j]) as int] == 0,
                forall|c: int| 0 <= c < cells ==> (#[trigger] found@[c] <==> reach@[c] != NEVER),
                forall|c: int| 0 <= c < cells ==> #[trigger] reach@[c] == NEVER || reach@[c] == 0,
                forall|k: int| 0 <= k < frontier@.len() ==> (#[trigger] frontier@[k]) < cells,
                frontier@.len() > 0 ==> 1 <= cells - unmarked(found@),
                unmarked(found@) <= cells,
                cells > 0,
        {
            let g = ghosts[i];
            if reach[g] == NEVER {
                proof {
                    lemma_unmarked_bound(found@);
                    lemma_mark(found@, g as int);
                }
                reach.set(g, 0);
                found.set(g, true);
                frontier.push(g);
            }
        }
        let mut distance: usize = 0;
        while frontier.len() > 0
            invariant
                self.wf(),
                self.size > 0,
                cells == self.cells(),
                cells < usize::MAX,
                solid@.len() == cells,
                destroyable@.len() == cells,
                reach@.len() == cells,
                found@.len() == cells,
                forall|j: int| 0 <= j < ghosts@.len() ==> (#[trigger] ghosts@[j]) < cells,
                forall|j: int| 0 <= j < ghosts@.len() ==> reach@[(#[trigger] ghosts@[j]) as int] == 0,
                forall|c: int| 0 <= c < cells ==> (#[trigger] found@[c] <==> reach@[c] != NEVER),
                forall|c: int| 0 <= c < cells ==> #[trigger] reach@[c] == NEVER || reach@[c] <= distance,
                forall|c: int| 0 <= c < cells ==> #[trigger] reach@[c] == NEVER || reach@[c] < cells,
                forall|k: int| 0 <= k < frontier@.len() ==> (#[trigger] frontier@[k]) < cells,
                frontier@.len() > 0 ==> distance + 1 <= cells - unmarked(found@),
                distance <= cells - unmarked(found@),
            decreases unmarked(found@) + if frontier@.len() > 0 { 1int } else { 0int },
        {
            proof {
                lemma_unmarked_bound(found@);
            }
            distance = distance + 1;
            let mut next_frontier: Vec<usize> = Vec::new();
            let ghost m0 = unmarked(found@);
            for k in 0..frontier.len()
                invariant
                    self.wf(),
                    self.size > 0,
                    cells == self.cells(),
                    cells < usize::MAX,
                    solid@.len() == cells,
                    destroyable@.len() == cells,
                    reach@.len() == cells,
                    found@.len() == cells,
                    1 <= distance,
                    distance <= cells - m0,
                    forall|j: int| 0 <= j < ghosts@.len() ==> (#[trigger] ghosts@[j]) < cells,
                    forall|j: int| 0 <= j < ghosts@.len() ==> reach@[(#[trigger] ghosts@[j]) as int] == 0,
                    forall|c: int| 0 <= c < cells ==> (#[trigger] found@[c] <==> reach@[c] != NEVER),
                    forall|c: int| 0 <= c < cells ==> #[trigger] reach@[c] == NEVER || reach@[c] <= distance,
                    forall|q: int| 0 <= q < frontier@.len() ==> (#[trigger] frontier@[q]) < cells,
                    forall|q: int| 0 <= q < next_frontier@.len() ==> (#[trigger] next_frontier@[q]) < cells,
                    unmarked(found@) + next_frontier@.len() == m0,
                    forall|c: int| 0 <= c < cells ==> #[trigger] reach@[c] == NEVER || reach@[c] < cells,
            {
                let cell = frontier[k];
                let options = &self.neighbours[cell];
                proof {
                    lemma_neighbours_on_board(self.size as int, cell as int);
                }
                for j in 0..options.len()
                    invariant
                        cells == self.cells(),
                        solid@.len() == cells,
                        destroyable@.len() == cells,
                        reach@.len() == cells,
                        found@.len() == cells,
                        1 <= distance,
                        forall|j2: int| 0 <= j2 < ghosts@.len() ==> (#[trigger] ghosts@[j2]) < cells,
                        forall|j2: int| 0 <= j2 < ghosts@.len() ==> reach@[(#[trigger] ghosts@[j2]) as int] == 0,
                        forall|c: int| 0 <= c < cells ==> (#[trigger] found@[c] <==> reach@[c] != NEVER),
                        forall|c: int| 0 <= c < cells ==> #[trigger] reach@[c] == NEVER || reach@[c] <= distance,
                        forall|i: int| 0 <= i < options@.len() ==> (#[trigger] options@[i]) < cells,
                        forall|q: int| 0 <= q < next_frontier@.len() ==> (#[trigger] next_frontier@[q]) < cells,
                        unmarked(found@) + next_frontier@.len() == m0,
                        distance <= cells - m0,
                        cells < usize::MAX,
                        forall|c: int| 0 <= c < cells ==> #[trigger] reach@[c] == NEVER || reach@[c] < cells,
                {
                    let step = options[j];
                    if !(reach[step] != NEVER || solid[step] || destroyable[step]) {
                        proof {
                            assert(!found@[step as int]);
                            lemma_unmarked_bound(found@);
                            lemma_mark(found@, step as int);
                        }
                        reach.set(step, distance);
                        found.set(step, true);
                        next_frontier.push(step);
                    }
                }
            }
            proof {
                lemma_unmarked_bound(found@);
            }
            frontier = next_frontier;
        }
        reach
    }

    /// Models the coming `horizon` turns from `turn`, with the bot on tile `me`.
    /// `extra_bombs` are bombs assumed to be dropped this very turn (`own` marks the
    /// bot's own, whose cleared blocks are reported); the tiles the `ghosts` (opponents)
    /// can walk to count as walled from the turn after they could arrive. Every tile the
    /// blast of a bomb reaches, along each ray up to the radius, stopping at a wall and
    /// ending on a block, is deadly by that bomb's fuse; a bomb it reaches goes off no
    /// later, and a block it reaches is open no later than the turn after that fuse.
    /// Conversely a tile is deadly at a time only on the blast path of some bomb (its
    /// tile, or a ray with no wall on it within the radius), and no later than that
    /// bomb's fuse. The blocks reported cleared by the bot's own bomb are exactly its to
    /// clear: each lies on one of its wall-free rays, and every block its rays surely
    /// reach is among them.
    pub fn build_field(&self, map: &GameMap, me: usize, turn: usize, horizon: usize, extra_bombs: &Vec<usize>,
        own: Option<usize>, ghosts: &Vec<usize>) -> (field: Field)
        requires
            self.wf(),
            self.size > 0,
            self.cells() < usize::MAX,
            self.cells() <= map.grid.tiles@.len(),
            me < self.cells(),
            forall|i: int| 0 <= i < map.bombs@.len() ==> tile_of(*self, (#[trigger] map.bombs@[i]).position) < self.cells(),
            forall|i: int| 0 <= i < extra_bombs@.len() ==> (#[trigger] extra_bombs@[i]) < self.cells(),
            forall|i: int| 0 <= i < ghosts@.len() ==> (#[trigger] ghosts@[i]) < self.cells(),
            map.bombs@.len() + extra_bombs@.len() <= usize::MAX,
            forall|c: int| 0 <= c < self.cells() ==> #[trigger] self.shrink_order@[c] == NEVER
                || self.endgame + self.shrink_order@[c] + 1 <= usize::MAX,
        ensures
            field.wf(self.cells()),
            field.horizon == horizon,
            map.grid.tiles@[me as int] != '.' ==> field.open_from@[me as int] == 0,
            forall|c: int| 0 <= c < self.cells() && c != me ==> {
                let ch = map.grid.tiles@[c];
                &&& (ch == 'W' || ch == 'P') ==> #[trigger] field.open_from@[c] == NEVER
                &&& ch == '.' ==> field.open_from@[c] == NEVER || field.open_from@[c] >= 2
                &&& (ch != 'W' && ch != 'P' && ch != '.') ==> field.open_from@[c] == 0
            },
            forall|i: int| 0 <= i < map.bombs@.len() ==> field.bomb_until@[tile_of(*self, (#[trigger] map.bombs@[i]).position)] >= 1,
            forall|i: int| 0 <= i < extra_bombs@.len() ==> field.bomb_until@[(#[trigger] extra_bombs@[i]) as int] >= 1,
            forall|c: int| 0 <= c < self.cells() ==> #[trigger] field.shrink_from@[c] <= shrink_time(*self, turn as int, c),
            ghosts@.len() == 0 ==> forall|c: int| 0 <= c < self.cells() ==> #[trigger] field.shrink_from@[c] == shrink_time(*self, turn as int, c),
            forall|c: int| 0 <= c < self.cells() && #[trigger] field.bomb_until@[c] != 0 ==> {
                ||| exists|i: int| 0 <= i < map.bombs@.len() && tile_of(*self, (#[trigger] map.bombs@[i]).position) == c
                    && field.bomb_until@[c] <= bomb_fuse(map.bombs@[i])
                ||| extra_bombs@.contains(c as usize)
                    && field.bomb_until@[c] <= if map.map_settings.bomb_timer < 1 { 1 } else { map.map_settings.bomb_timer as int }
            },
            forall|i: int| 0 <= i < ghosts@.len() ==> field.shrink_from@[(#[trigger] ghosts@[i]) as int] <= 1,
            strictly_sorted(field.fresh_kills@),
            forall|i: int| 0 <= i < field.fresh_kills@.len() ==> (#[trigger] field.fresh_kills@[i]) < self.cells()
                && map.grid.tiles@[field.fresh_kills@[i] as int] == '.',
            forall|i: int| 0 <= i < map.bombs@.len()
                ==> deadly_by(field.blast@[tile_of(*self, (#[trigger] map.bombs@[i]).position)], bomb_fuse(map.bombs@[i])),
            forall|k: int| 0 <= k < extra_bombs@.len() && !bomb_on(*self, map.bombs@, #[trigger] extra_bombs@[k] as int)
                ==> deadly_by(field.blast@[extra_bombs@[k] as int],
                    if map.map_settings.bomb_timer < 1 { 1 } else { map.map_settings.bomb_timer as int }),
            forall|i: int, d: int, s: nat| 0 <= i < map.bombs@.len() && 0 <= d < 4 && 1 <= s <= map.map_settings.bomb_radius
                && #[trigger] ray_hits(self.size as int, tile_mask(map.grid.tiles@, self.cells(), 'W'),
                    tile_mask(map.grid.tiles@, self.cells(), '.'), tile_of(*self, map.bombs@[i].position), d, s)
                ==> deadly_by(field.blast@[ray_tile(self.size as int, tile_of(*self, map.bombs@[i].position), d, s).unwrap() as int],
                    bomb_fuse(map.bombs@[i])),
            forall|i: int, d: int, s: nat| 0 <= i < map.bombs@.len() && 0 <= d < 4 && 1 <= s <= map.map_settings.bomb_radius
                && #[trigger] ray_hits(self.size as int, tile_mask(map.grid.tiles@, self.cells(), 'W'),
                    tile_mask(map.grid.tiles@, self.cells(), '.'), tile_of(*self, map.bombs@[i].position), d, s)
                && map.grid.tiles@[ray_tile(self.size as int, tile_of(*self, map.bombs@[i].position), d, s).unwrap() as int] == '.'
                ==> field.open_from@[ray_tile(self.size as int, tile_of(*self, map.bombs@[i].position), d, s).unwrap() as int]
                    <= bomb_fuse(map.bombs@[i]) + 1,
            forall|i: int, d: int, s: nat| 0 <= i < map.bombs@.len() && 0 <= d < 4 && 1 <= s <= map.map_settings.bomb_radius
                && #[trigger] ray_hits(self.size as int, tile_mask(map.grid.tiles@, self.cells(), 'W'),
                    tile_mask(map.grid.tiles@, self.cells(), '.'), tile_of(*self, map.bombs@[i].position), d, s)
                ==> field.bomb_until@[ray_tile(self.size as int, tile_of(*self, map.bombs@[i].position), d, s).unwrap() as int]
                    <= bomb_fuse(map.bombs@[i]),
            forall|c: usize, a: usize| c < self.cells() && a < 64 && #[trigger] bit_on(field.blast@[c as int], a)
                ==> 1 <= a && field_lit(*self, *map, extra_bombs@, c, a),
            forall|x: int| 0 <= x < field.fresh_kills@.len() ==> #[trigger] clearable_by(self.size as int, map.grid.tiles@,
                self.cells(), own, map.map_settings.bomb_radius, field.fresh_kills@[x]),
            own is Some && extra_bombs@.contains(own.unwrap()) && !bomb_on(*self, map.bombs@, own.unwrap() as int)
                ==> forall|d: int, s: nat| 0 <= d < 4 && 1 <= s <= map.map_settings.bomb_radius
                    && #[trigger] ray_hits(self.size as int, tile_mask(map.grid.tiles@, self.cells(), 'W'),
                        tile_mask(map.grid.tiles@, self.cells(), '.'), own.unwrap() as int, d, s)
                    && map.grid.tiles@[ray_tile(self.size as int, own.unwrap() as int, d, s).unwrap() as int] == '.'
                    ==> field.fresh_kills@.contains(ray_tile(self.size as int, own.unwrap() as int, d, s).unwrap()),
    {
        let cells = self.size * self.size;
        let radius = map.map_settings.bomb_radius;
        let fuse = if map.map_settings.bomb_timer < 1 { 1 } else { map.map_settings.bomb_timer };
        let (mut open_from, destroyable, solid) = self.initial_tiles(map, me);
        let (positions, mut fuses, fresh) = self.collect_bombs(map, extra_bombs, own, fuse);
        let ghost positions0 = positions@;
        let ghost fuses0 = fuses@;
        let (blast, cleared, raw_kills) = self.chain_reactions(&positions, &mut fuses, fresh, &solid, &destroyable, radius);
        proof {
            assert forall|i: int| 0 <= i < map.bombs@.len() implies
                deadly_by(blast@[tile_of(*self, (#[trigger] map.bombs@[i]).position)], bomb_fuse(map.bombs@[i])) by {
                assert(positions0[i] == tile_of(*self, map.bombs@[i].position));
                assert(deadly_by(blast@[positions0[i] as int], fuses0[i] as int));
            }
            assert(solid@ =~= tile_mask(map.grid.tiles@, self.cells(), 'W'));
            assert(destroyable@ =~= tile_mask(map.grid.tiles@, self.cells(), '.'));
            assert forall|i: int, d: int, s: nat| 0 <= i < map.bombs@.len() && 0 <= d < 4 && 1 <= s <= radius
                && #[trigger] ray_hits(self.size as int, tile_mask(map.grid.tiles@, self.cells(), 'W'),
                    tile_mask(map.grid.tiles@, self.cells(), '.'), tile_of(*self, map.bombs@[i].position), d, s)
                implies deadly_by(blast@[ray_tile(self.size as int, tile_of(*self, map.bombs@[i].position), d, s).unwrap() as int],
                    bomb_fuse(map.bombs@[i])) by {
                assert(positions0[i] == tile_of(*self, map.bombs@[i].position));
                assert(ray_hits(self.size as int, solid@, destroyable@, positions0[i] as int, d, s));
            }
            assert forall|k: int| 0 <= k < extra_bombs@.len() && !bomb_on(*self, map.bombs@, #[trigger] extra_bombs@[k] as int)
                implies deadly_by(blast@[extra_bombs@[k] as int], fuse as int) by {
                let j = choose|j: int| 0 <= j < positions0.len() && positions0[j] == extra_bombs@[k] && #[trigger] fuses0[j] == fuse;
                assert(deadly_by(blast@[positions0[j] as int], fuses0[j] as int));
            }
        }
        let mut bomb_until: Vec<usize> = filled(cells, 0usize);
        for bomb in 0..positions.len()
            invariant
                cells == self.cells(),
                bomb_until@.len() == cells,
                positions@.len() == fuses@.len(),
                forall|i: int| 0 <= i < positions@.len() ==> (#[trigger] positions@[i]) < cells,
                forall|i: int| 0 <= i < fuses@.len() ==> (#[trigger] fuses@[i]) >= 1,
                forall|i: int| 0 <= i < bomb ==> bomb_until@[(#[trigger] positions@[i]) as int] >= 1,
                forall|c: int| 0 <= c < cells && #[trigger] bomb_until@[c] != 0
                    ==> exists|j: int| 0 <= j < bomb && positions@[j] == c && bomb_until@[c] == #[trigger] fuses@[j],
        {
            let tile = positions[bomb];
            let ghost was = bomb_until@;
            if fuses[bomb] > bomb_until[tile] {
                bomb_until.set(tile, fuses[bomb]);
            }
            proof {
                assert forall|c: int| 0 <= c < cells && #[trigger] bomb_until@[c] != 0
                    implies exists|j: int| 0 <= j < bomb + 1 && positions@[j] == c && bomb_until@[c] == #[trigger] fuses@[j] by {
                    if bomb_until@[c] != was[c] {
                        assert(positions@[bomb as int] == c && bomb_until@[c] == fuses@[bomb as int]);
                    } else {
                        let j = choose|j: int| 0 <= j < bomb && positions@[j] == c && was[c] == #[trigger] fuses@[j];
                        assert(positions@[j] == c && bomb_until@[c] == fuses@[j]);
                    }
                }
            }
        }
        proof {
            assert forall|c: int| 0 <= c < cells && #[trigger] bomb_until@[c] != 0 implies {
                ||| exists|i: int| 0 <= i < map.bombs@.len() && tile_of(*self, (#[trigger] map.bombs@[i]).position) == c
                    && bomb_until@[c] <= bomb_fuse(map.bombs@[i])
                ||| extra_bombs@.contains(c as usize) && bomb_until@[c] <= fuse
            } by {
                let j = choose|j: int| 0 <= j < positions@.len() && positions@[j] == c && bomb_until@[c] == #[trigger] fuses@[j];
                assert(fuses@[j] <= fuses0[j]);
                if j < map.bombs@.len() {
                    assert(tile_of(*self, map.bombs@[j].position) == c);
                } else {
                    assert(extra_bombs@.contains(positions0[j]));
                }
            }
        }
        proof {
            assert(solid@ =~= tile_mask(map.grid.tiles@, self.cells(), 'W'));
            assert(destroyable@ =~= tile_mask(map.grid.tiles@, self.cells(), '.'));
            assert forall|i: int, d: int, s: nat| 0 <= i < map.bombs@.len() && 0 <= d < 4 && 1 <= s <= radius
                && #[trigger] ray_hits(self.size as int, tile_mask(map.grid.tiles@, self.cells(), 'W'),
                    tile_mask(map.grid.tiles@, self.cells(), '.'), tile_of(*self, map.bombs@[i].position), d, s)
                implies bomb_until@[ray_tile(self.size as int, tile_of(*self, map.bombs@[i].position), d, s).unwrap() as int]
                    <= bomb_fuse(map.bombs@[i]) by {
                let c = ray_tile(self.size as int, tile_of(*self, map.bombs@[i].position), d, s).unwrap() as int;
                assert(positions0[i] == tile_of(*self, map.bombs@[i].position));
                assert(ray_hits(self.size as int, solid@, destroyable@, positions@[i] as int, d, s));
                if bomb_until@[c] != 0 {
                    let j = choose|j: int| 0 <= j < positions@.len() && positions@[j] == c && bomb_until@[c] == #[trigger] fuses@[j];
                    assert(fuses@[j] <= fuses0[i]);
                }
            }
        }
        for cell in 0..cells
            invariant
                cells == self.cells(),
                me < cells,
                open_from@.len() == cells,
                cleared@.len() == cells,
                destroyable@.len() == cells,
                forall|c: int| 0 <= c < cells ==> #[trigger] destroyable@[c] == (map.grid.tiles@[c] == '.'),
                map.grid.tiles@[me as int] != '.' ==> open_from@[me as int] == 0,
                forall|c: int| 0 <= c < cells && c != me ==> {
                    let ch = map.grid.tiles@[c];
                    &&& (ch == 'W' || ch == 'P') ==> #[trigger] open_from@[c] == NEVER
                    &&& ch == '.' ==> open_from@[c] == NEVER || open_from@[c] >= 2
                    &&& (ch != 'W' && ch != 'P' && ch != '.') ==> open_from@[c] == 0
                },
                forall|c: int| 0 <= c < cell && destroyable@[c] && cleared@[c].0 != NEVER
                    ==> #[trigger] open_from@[c] == cleared@[c].0 + 1,
                forall|c: int| 0 <= c < cells ==> (#[trigger] cleared@[c]).0 >= 1,
        {
            if destroyable[cell] && cleared[cell].0 != NEVER {
                open_from.set(cell, cleared[cell].0 + 1);
            }
        }
        proof {
            assert(solid@ =~= tile_mask(map.grid.tiles@, self.cells(), 'W'));
            assert(destroyable@ =~= tile_mask(map.grid.tiles@, self.cells(), '.'));
            assert forall|i: int, d: int, s: nat| 0 <= i < map.bombs@.len() && 0 <= d < 4 && 1 <= s <= radius
                && #[trigger] ray_hits(self.size as int, tile_mask(map.grid.tiles@, self.cells(), 'W'),
                    tile_mask(map.grid.tiles@, self.cells(), '.'), tile_of(*self, map.bombs@[i].position), d, s)
                && map.grid.tiles@[ray_tile(self.size as int, tile_of(*self, map.bombs@[i].position), d, s).unwrap() as int] == '.'
                implies open_from@[ray_tile(self.size as int, tile_of(*self, map.bombs@[i].position), d, s).unwrap() as int]
                    <= bomb_fuse(map.bombs@[i]) + 1 by {
                let c = ray_tile(self.size as int, tile_of(*self, map.bombs@[i].position), d, s).unwrap() as int;
                assert(positions0[i] == tile_of(*self, map.bombs@[i].position));
                assert(ray_hits(self.size as int, solid@, destroyable@, positions0[i] as int, d, s));
                assert(destroyable@[c]);
                assert(cleared@[c].0 <= fuses0[i]);
            }
        }
        let mut shrink_from: Vec<usize> = filled(cells, NEVER);
        for cell in 0..cells
            invariant
                cells == self.cells(),
                self.wf(),
                shrink_from@.len() == cells,
                forall|c: int| 0 <= c < self.cells() ==> #[trigger] self.shrink_order@[c] == NEVER
                    || self.endgame + self.shrink_order@[c] + 1 <= usize::MAX,
                forall|c: int| 0 <= c < cell ==> #[trigger] shrink_from@[c] == shrink_time(*self, turn as int, c),
                forall|c: int| cell <= c < cells ==> #[trigger] shrink_from@[c] == NEVER,
        {
            let order = self.shrink_order[cell];
            if order != NEVER {
                let when = self.endgame + order + 1;
                let value = if when <= turn { 0 } else { when - turn };
                shrink_from.set(cell, value);
            }
        }
        proof {
            assert forall|c: int| 0 <= c < cells implies #[trigger] shrink_from@[c] == shrink_time(*self, turn as int, c) by {}
        }
        if ghosts.len() > 0 {
            let reach = self.ghost_reach(ghosts, &solid, &destroyable);
            for cell in 0..cells
                invariant
                    cells == self.cells(),
                    cells < usize::MAX,
                    shrink_from@.len() == cells,
                    reach@.len() == cells,
                    forall|c: int| 0 <= c < cells ==> #[trigger] reach@[c] == NEVER || reach@[c] < cells,
                    forall|c: int| 0 <= c < cells ==> #[trigger] shrink_from@[c] <= shrink_time(*self, turn as int, c),
                    forall|c: int| 0 <= c < cell && reach@[c] != NEVER ==> #[trigger] shrink_from@[c] <= reach@[c] + 1,
            {
                if reach[cell] != NEVER {
                    let limit = reach[cell] + 1;
                    if limit < shrink_from[cell] {
                        shrink_from.set(cell, limit);
                    }
                }
            }
            proof {
                assert forall|i: int| 0 <= i < ghosts@.len() implies shrink_from@[(#[trigger] ghosts@[i]) as int] <= 1 by {
                    assert(reach@[ghosts@[i] as int] == 0);
                }
            }
        }
        let mut fresh_kills: Vec<usize> = Vec::new();
        for i in 0..raw_kills.len()
            invariant
                cells == self.cells(),
                destroyable@.len() == cells,
                forall|c: int| 0 <= c < cells ==> #[trigger] destroyable@[c] == (map.grid.tiles@[c] == '.'),
                forall|j: int| 0 <= j < raw_kills@.len() ==> (#[trigger] raw_kills@[j]) < cells && destroyable@[raw_kills@[j] as int],
                strictly_sorted(fresh_kills@),
                forall|j: int| 0 <= j < fresh_kills@.len() ==> (#[trigger] fresh_kills@[j]) < cells
                    && map.grid.tiles@[fresh_kills@[j] as int] == '.',
                forall|y: usize| #[trigger] fresh_kills@.contains(y) ==> raw_kills@.contains(y),
                forall|j: int| 0 <= j < i ==> fresh_kills@.contains(#[trigger] raw_kills@[j]),
        {
            let ghost before = fresh_kills@;
            insert_sorted(&mut fresh_kills, raw_kills[i]);
            proof {
                assert forall|j: int| 0 <= j < fresh_kills@.len() implies (#[trigger] fresh_kills@[j]) < cells
                    && map.grid.tiles@[fresh_kills@[j] as int] == '.' by {
                    assert(fresh_kills@.contains(fresh_kills@[j]));
                    if fresh_kills@[j] != raw_kills@[i as int] {
                        assert(before.contains(fresh_kills@[j]));
                    }
                }
            }
        }
        proof {
            assert forall|i: int| 0 <= i < map.bombs@.len() implies bomb_until@[tile_of(*self, (#[trigger] map.bombs@[i]).position)] >= 1 by {
                assert(positions@.contains(tile_of(*self, map.bombs@[i].position) as usize));
                let k = choose|k: int| 0 <= k < positions@.len() && positions@[k] == tile_of(*self, map.bombs@[i].position) as usize;
                assert(bomb_until@[positions@[k] as int] >= 1);
            }
            assert forall|i: int| 0 <= i < extra_bombs@.len() implies bomb_until@[(#[trigger] extra_bombs@[i]) as int] >= 1 by {
                assert(positions@.contains(extra_bombs@[i]));
                let k = choose|k: int| 0 <= k < positions@.len() && positions@[k] == extra_bombs@[i];
                assert(bomb_until@[positions@[k] as int] >= 1);
            }
        }
        proof {
            assert(solid@ =~= tile_mask(map.grid.tiles@, self.cells(), 'W'));
            assert(destroyable@ =~= tile_mask(map.grid.tiles@, self.cells(), '.'));
            assert forall|c: usize, a: usize| c < self.cells() && a < 64 && #[trigger] bit_on(blast@[c as int], a)
                implies 1 <= a && field_lit(*self, *map, extra_bombs@, c, a) by {
                assert(lit_by(self.size as int, solid@, positions@, fuses@, fuses0, radius, c, a));
                let j = choose|j: int| 0 <= j < positions@.len()
                    && #[trigger] on_blast_path(self.size as int, solid@, positions@[j], radius, c)
                    && fuses@[j] <= a <= fuses0[j];
                if j < map.bombs@.len() {
                    assert(positions0[j] == tile_of(*self, map.bombs@[j].position));
                    assert(on_blast_path(self.size as int, tile_mask(map.grid.tiles@, self.cells(), 'W'),
                        tile_of(*self, map.bombs@[j].position) as usize, radius, c));
                } else {
                    assert(extra_bombs@.contains(positions@[j]));
                    let k = choose|k: int| 0 <= k < extra_bombs@.len() && extra_bombs@[k] == positions@[j];
                    assert(on_blast_path(self.size as int, tile_mask(map.grid.tiles@, self.cells(), 'W'),
                        extra_bombs@[k], radius, c));
                }
            }
            assert forall|x: int| 0 <= x < fresh_kills@.len() implies #[trigger] clearable_by(self.size as int, map.grid.tiles@,
                self.cells(), own, map.map_settings.bomb_radius, fresh_kills@[x]) by {
                assert(fresh_kills@.contains(fresh_kills@[x]));
                let j = choose|j: int| 0 <= j < raw_kills@.len() && raw_kills@[j] == fresh_kills@[x];
                assert(fresh_clear(self.size as int, solid@, positions@, fresh, radius, raw_kills@[j]));
            }
            if own is Some && extra_bombs@.contains(own.unwrap()) && !bomb_on(*self, map.bombs@, own.unwrap() as int) {
                let o = own.unwrap();
                assert forall|d: int, s: nat| 0 <= d < 4 && 1 <= s <= radius
                    && #[trigger] ray_hits(self.size as int, tile_mask(map.grid.tiles@, self.cells(), 'W'),
                        tile_mask(map.grid.tiles@, self.cells(), '.'), o as int, d, s)
                    && map.grid.tiles@[ray_tile(self.size as int, o as int, d, s).unwrap() as int] == '.'
                    implies fresh_kills@.contains(ray_tile(self.size as int, o as int, d, s).unwrap()) by {
                    let f = fresh.unwrap();
                    assert(positions@[f as int] == o);
                    assert(ray_hits(self.size as int, solid@, destroyable@, positions@[f as int] as int, d, s));
                    let c = ray_tile(self.size as int, o as int, d, s).unwrap();
                    assert(raw_kills@.contains(c));
                    let j = choose|j: int| 0 <= j < raw_kills@.len() && raw_kills@[j] == c;
                    assert(fresh_kills@.contains(raw_kills@[j]));
                }
            }
        }
        Field { open_from, bomb_until, blast, shrink_from, fresh_kills, horizon }
    }

    /// Takes up a new game: its seat, the endgame turn and the tables for the board size;
    /// the turn counter and the memory of where the bot stood start afresh.
    pub fn start(&mut self, settings: &MapConfig, bot_id: usize)
        requires
            old(self).wf(),
            2 <= settings.size,
            settings.size * settings.size <= usize::MAX,
        ensures
            final(self).wf(),
            final(self).size == settings.size,
            final(self).id == bot_id,
            final(self).endgame == settings.endgame,
            final(self).turn == 0,
            final(self).last_cell == NEVER,
            final(self).stuck == 0,
    {
        self.id = bot_id;
        self.endgame = settings.endgame;
        self.turn = 0;
        self.last_cell = NEVER;
        self.stuck = 0;
        self.prepare(settings.size);
    }

    /// Looks at the board before deciding: the tables follow the board size, the endgame
    /// follows the map, and the bot counts the turns it has stood on the same tile.
    /// Gives the bot's tile.
    pub fn begin_turn(&mut self, map: &GameMap, player_location: Coord) -> (cell: usize)
        requires
            old(self).wf(),
            map.wf(),
            player_location.row.0 < map.map_settings.size,
            player_location.col.0 < map.map_settings.size,
            old(self).stuck < usize::MAX,
        ensures
            final(self).wf(),
            final(self).size == map.map_settings.size,
            final(self).endgame == map.map_settings.endgame,
            cell == tile_of(*final(self), player_location),
            cell < final(self).cells(),
            final(self).last_cell == cell,
            final(self).stuck == if cell == old(self).last_cell { old(self).stuck + 1 } else { 0 },
            final(self).turn == old(self).turn,
            final(self).id == old(self).id,
    {
        proof {
            assert(map.map_settings.size * map.map_settings.size <= 400) by (nonlinear_arith)
                requires map.map_settings.size <= 20;
        }
        self.prepare(map.map_settings.size);
        self.endgame = map.map_settings.endgame;
        proof {
            assert(player_location.row.0 * self.size + player_location.col.0 < self.size * self.size) by (nonlinear_arith)
                requires player_location.row.0 < self.size, player_location.col.0 < self.size;
        }
        let cell = self.index(player_location.col.get(), player_location.row.get());
        if cell == self.last_cell {
            self.stuck = self.stuck + 1;
        } else {
            self.stuck = 0;
        }
        self.last_cell = cell;
        cell
    }

    /// The commands worth scoring from `me`: each move onto a walkable neighbouring
    /// tile, waiting, and bombing when `armed`.
    pub fn candidates(&self, map: &GameMap, me: Coord, armed: bool) -> (r: Vec<Candidate>)
        requires
            map.wf(),
            self.size == map.map_settings.size,
            me.row.0 < self.size,
            me.col.0 < self.size,
            self.size * self.size <= usize::MAX,
            self.size < usize::MAX,
        ensures
            r@ == candidate_list(*self, *map, me, armed),
            forall|j: int| 0 <= j < r@.len() ==> (#[trigger] r@[j]).target < self.cells(),
    {
        let moves = [Command::Up, Command::Down, Command::Left, Command::Right];
        let ghost open = |c: Command| match step_command(me, c) {
            Some(t) => map.grid.cell_at(t) == CellType::Empty,
            None => false,
        };
        let ghost target = |c: Command| match step_command(me, c) {
            Some(t) => tile_of(*self, t) as usize,
            None => 0usize,
        };
        let ghost make = |c: Command| Candidate { command: c, target: target(c), places_bomb: false };
        let mut r: Vec<Candidate> = Vec::new();
        for k in 0..4
            invariant
                map.wf(),
                self.size == map.map_settings.size,
                me.row.0 < self.size,
                me.col.0 < self.size,
                self.size * self.size <= usize::MAX,
                self.size < usize::MAX,
                moves@ == seq![Command::Up, Command::Down, Command::Left, Command::Right],
                open == (|c: Command| match step_command(me, c) {
                    Some(t) => map.grid.cell_at(t) == CellType::Empty,
                    None => false,
                }),
                target == (|c: Command| match step_command(me, c) {
                    Some(t) => tile_of(*self, t) as usize,
                    None => 0usize,
                }),
                make == (|c: Command| Candidate { command: c, target: target(c), places_bomb: false }),
                r@ == moves@.take(k as int).filter(open).map_values(make),
                forall|j: int| 0 <= j < r@.len() ==> (#[trigger] r@[j]).target < self.cells(),
        {
            let command = moves[k];
            let destination = me.move_command(command);
            let mut keep = false;
            let mut cell: usize = 0;
            if let Some(coord) = destination {
                if map.grid.can_move_to(coord) {
                    proof {
                        assert(coord.row.0 < self.size && coord.col.0 < self.size);
                        assert(coord.row.0 * self.size + coord.col.0 < self.size * self.size) by (nonlinear_arith)
                            requires coord.row.0 < self.size, coord.col.0 < self.size;
                    }
                    keep = true;
                    cell = self.index(coord.col.get(), coord.row.get());
                }
            }
            proof {
                reveal(Seq::filter);
                assert(moves@.take(k + 1).drop_last() =~= moves@.take(k as int));
                assert(keep == open(command));
            }
            if keep {
                r.push(Candidate { command, target: cell, places_bomb: false });
            }
            proof {
                assert(r@ =~= moves@.take(k + 1).filter(open).map_values(make));
            }
        }
        proof {
            assert(me.row.0 * self.size + me.col.0 < self.size * self.size) by (nonlinear_arith)
                requires me.row.0 < self.size, me.col.0 < self.size;
            assert(moves@.take(4) =~= moves@);
        }
        let mine = self.index(me.col.get(), me.row.get());
        r.push(Candidate { command: Command::Wait, target: mine, places_bomb: false });
        if armed {
            r.push(Candidate { command: Command::PlaceBomb, target: mine, places_bomb: true });
        }
        proof {
            assert(r@ =~= candidate_list(*self, *map, me, armed));
        }
        r
    }

    /// The tactical horizon and the planning horizon for this turn.
    pub fn horizons(&self, map: &GameMap, turn: usize) -> (r: (usize, usize))
        requires
            self.size >= 2,
            self.cells() + 2 <= usize::MAX,
            turn < usize::MAX,
        ensures
            r.0 == tactical_span(map.bombs@, if map.map_settings.bomb_timer < 1 { 1 } else { map.map_settings.bomb_timer as int }),
            r.1 == planning_span(r.0 as int, self.size as int, turn as int, self.endgame as int),
    {
        let fuse = if map.map_settings.bomb_timer < 1 { 1 } else { map.map_settings.bomb_timer };
        let start = fuse.saturating_add(2);
        let mut tactical: usize = if start > 8 { start } else { 8 };
        for i in 0..map.bombs.len()
            invariant
                fuse == if map.map_settings.bomb_timer < 1 { 1 } else { map.map_settings.bomb_timer as int },
                tactical == tactical_span(map.bombs@.take(i as int), fuse as int),
        {
            proof {
                assert(map.bombs@.take(i + 1).drop_last() =~= map.bombs@.take(i as int));
                assert(map.bombs@.take(i + 1).last() == map.bombs@[i as int]);
            }
            let next = map.bombs[i].timer.saturating_add(2);
            if next > tactical {
                tactical = next;
            }
        }
        proof {
            assert(map.bombs@.take(map.bombs@.len() as int) =~= map.bombs@);
        }
        proof {
            assert((self.size - 2) * (self.size - 2) <= self.size * self.size) by (nonlinear_arith)
                requires self.size >= 2;
        }
        let inner = (self.size - 2) * (self.size - 2);
        let near = turn.saturating_add(110) >= self.endgame;
        let walled = (turn + 1).saturating_sub(self.endgame);
        let left = inner - (if walled < inner { walled } else { inner }) + 2;
        let stretched = if left < 110 { left } else { 110 };
        let horizon = if near && stretched > tactical { stretched } else { tactical };
        (tactical, horizon)
    }

    /// The tiles of the living opponents on the board, in seat order, leaving out the
    /// bot's own tile.
    pub fn enemy_cells(&self, map: &GameMap, my_cell: usize) -> (r: Vec<usize>)
        requires
            self.cells() <= usize::MAX,
        ensures
            r@ == enemy_tiles(*self, map.players@, my_cell as int, map.players@.len() as int),
            forall|k: int| 0 <= k < r@.len() ==> (#[trigger] r@[k]) < self.cells() && r@[k] != my_cell,
    {
        let mut r: Vec<usize> = Vec::new();
        for i in 0..map.players.len()
            invariant
                self.cells() <= usize::MAX,
                r@ == enemy_tiles(*self, map.players@, my_cell as int, i as int),
                forall|k: int| 0 <= k < r@.len() ==> (#[trigger] r@[k]) < self.cells() && r@[k] != my_cell,
        {
            let p = &map.players[i];
            if p.id != self.id && p.is_alive() && p.position.row.get() < self.size && p.position.col.get() < self.size {
                proof {
                    assert(p.position.row.0 * self.size + p.position.col.0 < self.size * self.size) by (nonlinear_arith)
                        requires p.position.row.0 < self.size, p.position.col.0 < self.size;
                }
                let cell = self.index(p.position.col.get(), p.position.row.get());
                if cell != my_cell {
                    r.push(cell);
                }
            }
        }
        r
    }

    /// The (at most two) nearest opponents within the blast radius plus three steps of
    /// `my_cell`, nearest first, seat order breaking ties.
    pub fn pick_threats(&self, enemies: &Vec<usize>, my_cell: usize, radius: usize) -> (r: Vec<usize>)
        requires
            self.wf(),
            self.size > 0,
            my_cell < self.cells(),
            forall|k: int| 0 <= k < enemies@.len() ==> (#[trigger] enemies@[k]) < self.cells(),
        ensures
            r@.len() <= 2,
            r@.len() == 0 <==> forall|j: int| !#[trigger] is_threat(*self, enemies@, my_cell as int, radius as int, j),
            r@.len() >= 1 ==> exists|i0: int| #[trigger] is_threat(*self, enemies@, my_cell as int, radius as int, i0)
                && r@[0] == enemies@[i0]
                && (forall|j: int| #[trigger] is_threat(*self, enemies@, my_cell as int, radius as int, j) && j != i0
                    ==> ranks_before(*self, enemies@, my_cell as int, i0, j))
                && (r@.len() == 1 ==> forall|j: int| #[trigger] is_threat(*self, enemies@, my_cell as int, radius as int, j) ==> j == i0)
                && (r@.len() == 2 ==> exists|i1: int| #[trigger] is_threat(*self, enemies@, my_cell as int, radius as int, i1)
                    && i1 != i0 && r@[1] == enemies@[i1]
                    && forall|j: int| #[trigger] is_threat(*self, enemies@, my_cell as int, radius as int, j) && j != i0 && j != i1
                        ==> ranks_before(*self, enemies@, my_cell as int, i1, j)),
    {
        let limit = radius.saturating_add(3);
        let ghost e = enemies@;
        let ghost m = my_cell as int;
        let ghost rd = radius as int;
        let mut first: Option<usize> = None;
        let mut first_span: usize = 0;
        for i in 0..enemies.len()
            invariant
                self.wf(),
                self.size > 0,
                my_cell < self.cells(),
                forall|k: int| 0 <= k < enemies@.len() ==> (#[trigger] enemies@[k]) < self.cells(),
                limit == (if radius + 3 > usize::MAX { usize::MAX as int } else { radius + 3 }),
                e == enemies@,
                m == my_cell as int,
                rd == radius as int,
                first matches Some(f) ==> f < i && is_threat(*self, e, m, rd, f as int)
                    && first_span == span_between(*self, e[f as int] as int, m)
                    && forall|j: int| 0 <= j < i && #[trigger] is_threat(*self, e, m, rd, j) && j != f
                        ==> ranks_before(*self, e, m, f as int, j),
                first is None ==> forall|j: int| 0 <= j < i ==> !#[trigger] is_threat(*self, e, m, rd, j),
        {
            let d = self.walk_span(enemies[i], my_cell);
            proof {
                assert(d == span_between(*self, e[i as int] as int, m));
                assert(is_threat(*self, e, m, rd, i as int) == (d <= limit));
            }
            if d <= limit {
                let better = match first {
                    None => true,
                    Some(_) => d < first_span,
                };
                if better {
                    first = Some(i);
                    first_span = d;
                }
            }
        }
        let mut second: Option<usize> = None;
        let mut second_span: usize = 0;
        for i in 0..enemies.len()
            invariant
                self.wf(),
                self.size > 0,
                my_cell < self.cells(),
                forall|k: int| 0 <= k < enemies@.len() ==> (#[trigger] enemies@[k]) < self.cells(),
                limit == (if radius + 3 > usize::MAX { usize::MAX as int } else { radius + 3 }),
                e == enemies@,
                m == my_cell as int,
                rd == radius as int,
                first matches Some(f) ==> f < enemies@.len() && is_threat(*self, e, m, rd, f as int)
                    && forall|j: int| #[trigger] is_threat(*self, e, m, rd, j) && j != f ==> ranks_before(*self, e, m, f as int, j),
                first is None ==> forall|j: int| !#[trigger] is_threat(*self, e, m, rd, j),
                first is None ==> second is None,
                second matches Some(g) ==> g < i && first is Some && g != first.unwrap() && is_threat(*self, e, m, rd, g as int)
                    && second_span == span_between(*self, e[g as int] as int, m)
                    && forall|j: int| 0 <= j < i && #[trigger] is_threat(*self, e, m, rd, j) && j != first.unwrap() && j != g
                        ==> ranks_before(*self, e, m, g as int, j),
                second is None ==> forall|j: int| 0 <= j < i && #[trigger] is_threat(*self, e, m, rd, j) ==> Some(j as usize) == first,
        {
            proof {
                assert(is_threat(*self, e, m, rd, i as int) == (span_between(*self, e[i as int] as int, m) <= limit));
            }
            if first.is_some() && first != Some(i) {
                let d = self.walk_span(enemies[i], my_cell);
                proof {
                    assert(d == span_between(*self, e[i as int] as int, m));
                }
                if d <= limit {
                    let better = match second {
                        None => true,
                        Some(_) => d < second_span,
                    };
                    if better {
                        second = Some(i);
                        second_span = d;
                    }
                }
            }
        }
        let mut r: Vec<usize> = Vec::new();
        if let Some(f) = first {
            r.push(enemies[f]);
            if let Some(g) = second {
                r.push(enemies[g]);
            }
        }
        proof {
            if let Some(f) = first {
                assert(is_threat(*self, e, m, rd, f as int) && r@[0] == e[f as int]);
                if let Some(g) = second {
                    assert(is_threat(*self, e, m, rd, g as int) && r@[1] == e[g as int]);
                }
            }
        }
        r
    }

    /// The tile number of (`col`, `row`).
    pub fn index(&self, col: usize, row: usize) -> (i: usize)
        requires
            row * self.size + col <= usize::MAX,
        ensures
            i == row * self.size + col,
    {
        proof {
            assert(0 <= row * self.size) by (nonlinear_arith);
        }
        row * self.size + col
    }

    /// The survival keys of the candidate moves from `me` (tile `my_cell`), in the order
    /// of the candidate list: the command, whether it wins now against `enemies`, and the
    /// guaranteed survival capped at `tactical`. A bomb is judged on the `armed` field
    /// and its table (the board with the bot's own bomb added), every other move on the
    /// `quiet` one.
    pub fn survival_keys(&self, map: &GameMap, me: Coord, my_cell: usize, enemies: &Vec<usize>, tactical: usize,
        quiet: &Field, quiet_table: &Vec<u16>, armed: bool, armed_field: &Field, armed_table: &Vec<u16>)
        -> (keys: Vec<(Command, bool, usize)>)
        requires
            map.wf(),
            self.wf(),
            self.size == map.map_settings.size,
            me.row.0 < self.size,
            me.col.0 < self.size,
            self.size < usize::MAX,
            my_cell == tile_of(*self, me),
            forall|k: int| 0 <= k < enemies@.len() ==> (#[trigger] enemies@[k]) < self.cells(),
            quiet.wf(self.cells()),
            quiet.horizon >= 1,
            quiet_table@.len() == (quiet.horizon + 1) * self.cells(),
            armed_field.wf(self.cells()),
            armed_field.horizon >= 1,
            armed_table@.len() == (armed_field.horizon + 1) * self.cells(),
        ensures
            keys@.len() == candidate_list(*self, *map, me, armed).len(),
            forall|i: int| 0 <= i < keys@.len() ==> {
                let cand = candidate_list(*self, *map, me, armed)[i];
                let field = if cand.places_bomb { *armed_field } else { *quiet };
                let table = if cand.places_bomb { armed_table@ } else { quiet_table@ };
                &&& (#[trigger] keys@[i]).0 == cand.command
                &&& keys@[i].1 == wins_with(*self, field, table, enemies@, cand.target as int, my_cell as int)
                &&& keys@[i].2 == capped_depth(field, table, self.cells(), cand.target as int, my_cell as int, tactical)
            },
    {
        let cands = self.candidates(map, me, armed);
        let mut keys: Vec<(Command, bool, usize)> = Vec::new();
        for i in 0..cands.len()
            invariant
                cands@ == candidate_list(*self, *map, me, armed),
                self.wf(),
                self.size > 0,
                my_cell == tile_of(*self, me),
                forall|k: int| 0 <= k < enemies@.len() ==> (#[trigger] enemies@[k]) < self.cells(),
                quiet.wf(self.cells()),
                quiet.horizon >= 1,
                quiet_table@.len() == (quiet.horizon + 1) * self.cells(),
                armed_field.wf(self.cells()),
                armed_field.horizon >= 1,
                armed_table@.len() == (armed_field.horizon + 1) * self.cells(),
                forall|j: int| 0 <= j < cands@.len() ==> (#[trigger] cands@[j]).target < self.cells(),
                keys@.len() == i,
                forall|j: int| 0 <= j < i ==> {
                    let cand = cands@[j];
                    let field = if cand.places_bomb { *armed_field } else { *quiet };
                    let table = if cand.places_bomb { armed_table@ } else { quiet_table@ };
                    &&& (#[trigger] keys@[j]).0 == cand.command
                    &&& keys@[j].1 == wins_with(*self, field, table, enemies@, cand.target as int, my_cell as int)
                    &&& keys@[j].2 == capped_depth(field, table, self.cells(), cand.target as int, my_cell as int, tactical)
                },
        {
            let cand = cands[i];
            let (field, table) = if cand.places_bomb { (armed_field, armed_table) } else { (quiet, quiet_table) };
            let depth = self.depth_at(field, table, cand.target, my_cell);
            let mut all_stuck = enemies.len() > 0 && depth > 0;
            let mut k: usize = 0;
            while k < enemies.len()
                invariant
                    self.wf(),
                    self.size > 0,
                    field.wf(self.cells()),
                    field.horizon >= 1,
                    table@.len() == (field.horizon + 1) * self.cells(),
                    forall|q: int| 0 <= q < enemies@.len() ==> (#[trigger] enemies@[q]) < self.cells(),
                    k <= enemies@.len(),
                    all_stuck == (enemies@.len() > 0 && depth > 0 && forall|q: int| 0 <= q < k ==> best_depth(*self, *field,
                        table@, #[trigger] enemies@[q] as int, my_cell as int, my_cell as int,
                        self.neighbours@[enemies@[q] as int]@.len() as int) == 0),
                decreases enemies@.len() - k,
            {
                let life = self.best_depth_from(field, table, enemies[k], my_cell, my_cell);
                if life != 0 {
                    all_stuck = false;
                }
                proof {
                    assert forall|q: int| 0 <= q < k + 1 && #[trigger] enemies@[q] == enemies@[q] implies true by {}
                }
                k = k + 1;
            }
            let capped = if depth < tactical { depth } else { tactical };
            keys.push((cand.command, all_stuck, capped));
        }
        keys
    }

    /// The Manhattan distance between two tiles.
    pub fn walk_span(&self, from: usize, to: usize) -> (d: usize)
        requires
            self.size > 0,
            self.wf(),
            from < self.cells(),
            to < self.cells(),
        ensures
            d == gap(from as int / self.size as int, to as int / self.size as int)
                + gap(from as int % self.size as int, to as int % self.size as int),
    {
        let from_row = from / self.size;
        let from_col = from % self.size;
        let to_row = to / self.size;
        let to_col = to % self.size;
        proof {
            assert(from_row < self.size && to_row < self.size) by (nonlinear_arith)
                requires
                    from_row == from / self.size,
                    to_row == to / self.size,
                    self.size > 0,
                    from < self.size * self.size,
                    to < self.size * self.size;
            assert(2 * self.size <= usize::MAX) by (nonlinear_arith)
                requires
                    self.size > 0,
                    self.size * self.size <= usize::MAX;
        }
        let dr = if from_row < to_row { to_row - from_row } else { from_row - to_row };
        let dc = if from_col < to_col { to_col - from_col } else { from_col - to_col };
        dr + dc
    }

    /// The tile next to `cell` in direction `direction` (0 up, 1 down, 2 left, 3 right).
    pub fn step(&self, cell: usize, direction: usize) -> (r: Option<usize>)
        requires
            self.size > 0,
            cell < self.cells(),
            self.wf(),
        ensures
            r == step_to(self.size as int, cell as int, direction as int),
    {
        let row = cell / self.size;
        let col = cell % self.size;
        if direction == 0 && row > 0 {
            proof {
                assert(cell >= self.size) by (nonlinear_arith)
                    requires row == cell / self.size, row > 0, self.size > 0;
            }
            Some(cell - self.size)
        } else if direction == 1 && row + 1 < self.size {
            proof {
                assert(cell + self.size < self.size * self.size) by (nonlinear_arith)
                    requires row == cell / self.size, row + 1 < self.size, self.size > 0, cell < self.size * self.size;
            }
            Some(cell + self.size)
        } else if direction == 2 && col > 0 {
            proof {
                assert(col <= cell) by (nonlinear_arith)
                    requires col == cell % self.size, self.size > 0;
            }
            Some(cell - 1)
        } else if direction == 3 && col + 1 < self.size {
            Some(cell + 1)
        } else {
            None
        }
    }
}

/// The neighbour list of the tile in row `row` and column `col`.
fn neighbours_of_tile(size: usize, row: usize, col: usize) -> (v: Vec<usize>)
    requires
        row < size,
        col < size,
        size * size <= usize::MAX,
    ensures
        v@ == neighbour_list(size as int, row * size + col),
{
    proof {
        vstd::arithmetic::div_mod::lemma_fundamental_div_mod_converse((row * size + col) as int, size as int, row as int, col as int);
        assert(row * size + col < size * size) by (nonlinear_arith)
            requires row < size, col < size;
        if row + 1 < size {
            assert(row * size + col + size < size * size) by (nonlinear_arith)
                requires row + 1 < size, col < size;
        }
        if row >= 1 {
            assert(row * size >= size) by (nonlinear_arith)
                requires row >= 1, size > 0;
        }
    }
    let cell = row * size + col;
    let mut v: Vec<usize> = Vec::new();
    if row > 0 {
        v.push(cell - size);
    }
    if row + 1 < size {
        v.push(cell + size);
    }
    if col > 0 {
        v.push(cell - 1);
    }
    if col + 1 < size {
        v.push(cell + 1);
    }
    proof {
        assert(v@ =~= neighbour_list(size as int, cell as int));
    }
    v
}

/// The neighbours of a tile are tiles of the board.
pub proof fn lemma_neighbours_on_board(size: int, cell: int)
    requires
        size > 0,
        size * size <= usize::MAX,
        0 <= cell < size * size,
    ensures
        forall|i: int| 0 <= i < neighbour_list(size, cell).len() ==> (#[trigger] neighbour_list(size, cell)[i]) < size * size
            && neighbour_list(size, cell)[i] != cell,
        neighbour_list(size, cell).len() <= 4,
{
    let row = cell / size;
    let col = cell % size;
    assert(cell == row * size + col && 0 <= col < size && 0 <= row) by {
        vstd::arithmetic::div_mod::lemma_fundamental_div_mod(cell, size);
    }
    assert(row < size) by (nonlinear_arith)
        requires cell == row * size + col, 0 <= col, cell < size * size, size > 0, row >= 0;
    if row + 1 < size {
        assert(cell + size < size * size) by (nonlinear_arith)
            requires cell == row * size + col, row + 1 < size, 0 <= col < size;
    }
    if row > 0 {
        assert(cell >= size) by (nonlinear_arith)
            requires cell == row * size + col, row > 0, 0 <= col, size > 0;
    }
    if col + 1 < size {
        assert((row + 1) * size <= size * size) by (nonlinear_arith)
            requires row + 1 <= size, size > 0;
        assert(cell + 1 < size * size) by (nonlinear_arith)
            requires cell == row * size + col, col + 1 < size, (row + 1) * size <= size * size;
    }
    let l = neighbour_list(size, cell);
    let a = maybe(step_to(size, cell, 0));
    let b = maybe(step_to(size, cell, 1));
    let c = maybe(step_to(size, cell, 2));
    let d = maybe(step_to(size, cell, 3));
    assert forall|i: int| 0 <= i < l.len() implies #[trigger] l[i] < size * size && l[i] != cell by {
        if i < a.len() {
            assert(l[i] == a[i]);
        } else if i < a.len() + b.len() {
            assert(l[i] == b[i - a.len()]);
        } else if i < a.len() + b.len() + c.len() {
            assert(l[i] == c[i - a.len() - b.len()]);
        } else {
            assert(l[i] == d[i - a.len() - b.len() - c.len()]);
        }
    }
}

/// How many more turns can be survived after arriving on `cell` at time `time`, when
/// every later turn is played perfectly: nothing on a tile that may not be stood on,
/// and nothing at or past the horizon.
pub open spec fn survive(bot: ApexBot, field: Field, start: int, time: int, cell: int) -> nat
    decreases field.horizon - time, bot.neighbours@[cell]@.len() + 1,
{
    if time < 1 || time >= field.horizon {
        0
    } else if !allowed_at(field, cell, time, start) {
        0
    } else {
        best_move(bot, field, start, time, cell, bot.neighbours@[cell]@.len() as int)
    }
}

/// The best of staying on `cell` and of moving to one of its first `k` neighbours, for
/// a turn that starts at time `time`: one turn more than what can be survived from the
/// tile reached, counting only tiles that may be entered.
pub open spec fn best_move(bot: ApexBot, field: Field, start: int, time: int, cell: int, k: int) -> nat
    decreases field.horizon - time, if k < 0 { 0 } else { k },
{
    if time < 1 || time >= field.horizon {
        0
    } else if k <= 0 {
        if allowed_at(field, cell, time + 1, start) { survive(bot, field, start, time + 1, cell) + 1 } else { 0 }
    } else {
        let next = bot.neighbours@[cell]@[k - 1] as int;
        let rest = best_move(bot, field, start, time, cell, k - 1);
        if allowed_at(field, next, time + 1, start) {
            let here = survive(bot, field, start, time + 1, next) + 1;
            if here > rest { here } else { rest }
        } else {
            rest
        }
    }
}

/// Nobody survives past the horizon.
pub proof fn lemma_survive_bound(bot: ApexBot, field: Field, start: int, time: int, cell: int)
    ensures
        survive(bot, field, start, time, cell) <= if field.horizon - time > 0 { field.horizon - time } else { 0 },
    decreases field.horizon - time, bot.neighbours@[cell]@.len() + 1,
{
    if time >= 1 && time < field.horizon && allowed_at(field, cell, time, start) {
        lemma_best_move_bound(bot, field, start, time, cell, bot.neighbours@[cell]@.len() as int);
    }
}

proof fn lemma_best_move_bound(bot: ApexBot, field: Field, start: int, time: int, cell: int, k: int)
    requires
        1 <= time < field.horizon,
    ensures
        best_move(bot, field, start, time, cell, k) <= field.horizon - time,
    decreases field.horizon - time, if k < 0 { 0 } else { k },
{
    if k <= 0 {
        lemma_survive_bound(bot, field, start, time + 1, cell);
    } else {
        let next = bot.neighbours@[cell]@[k - 1] as int;
        lemma_best_move_bound(bot, field, start, time, cell, k - 1);
        lemma_survive_bound(bot, field, start, time + 1, next);
    }
}

/// Row `t` of a table with `cells` entries per row starts at `t * cells`.
proof fn lemma_row_in_table(t: int, c: int, cells: int, rows: int)
    requires
        0 <= t < rows,
        0 <= c < cells,
    ensures
        0 <= t * cells + c < rows * cells,
        t * cells + c + cells == (t + 1) * cells + c,
{
    assert(0 <= t * cells + c < rows * cells) by (nonlinear_arith)
        requires 0 <= t < rows, 0 <= c < cells;
    assert(t * cells + cells == (t + 1) * cells) by (nonlinear_arith);
}

/// The turns of life guaranteed after ending this turn on `cell`, read from a survival
/// table.
pub open spec fn depth_from_table(field: Field, table: Seq<u16>, cells: int, cell: int, start: int) -> int {
    if allowed_at(field, cell, 1, start) { 1 + entry(table, cells, 1, cell) } else { 0 }
}

/// Survival key `a` ranks no higher than `b`: winning outright first, then the number of
/// turns survival is guaranteed.
pub open spec fn key_le(a: (bool, usize), b: (bool, usize)) -> bool {
    (!a.0 && b.0) || (a.0 == b.0 && a.1 <= b.1)
}

/// The guaranteed survival of standing on `cell` after this turn, capped at `cap`.
pub open spec fn capped_depth(field: Field, table: Seq<u16>, cells: int, cell: int, start: int, cap: usize) -> usize {
    let d = depth_from_table(field, table, cells, cell, start);
    if d < cap { d as usize } else { cap }
}

/// A move that survives and leaves none of `enemies` a single guaranteed turn wins now.
pub open spec fn wins_with(bot: ApexBot, field: Field, table: Seq<u16>, enemies: Seq<usize>, cell: int, start: int) -> bool {
    &&& enemies.len() > 0
    &&& depth_from_table(field, table, bot.cells(), cell, start) > 0
    &&& forall|k: int| 0 <= k < enemies.len() ==> best_depth(bot, field, table, #[trigger] enemies[k] as int, start, start,
        bot.neighbours@[enemies[k] as int]@.len() as int) == 0
}

/// The best depth over `from` and the first `k` of its neighbours other than `blocked`.
pub open spec fn best_depth(bot: ApexBot, field: Field, table: Seq<u16>, from: int, start: int, blocked: int, k: int) -> int
    decreases k,
{
    if k <= 0 {
        depth_from_table(field, table, bot.cells(), from, start)
    } else {
        let next = bot.neighbours@[from]@[k - 1] as int;
        let rest = best_depth(bot, field, table, from, start, blocked, k - 1);
        if next != blocked && depth_from_table(field, table, bot.cells(), next, start) > rest {
            depth_from_table(field, table, bot.cells(), next, start)
        } else {
            rest
        }
    }
}

/// `path` runs over open tiles of the board, each step to a neighbour.
pub open spec fn open_path(bot: ApexBot, field: Field, path: Seq<usize>) -> bool {
    &&& forall|i: int| 0 <= i < path.len() ==> (#[trigger] path[i]) < bot.cells()
        && field.open_from@[path[i] as int] != NEVER
    &&& forall|i: int| 0 <= i < path.len() - 1 ==> (#[trigger] bot.neighbours@[path[i] as int])@.contains(path[i + 1])
}

/// `to` can be reached from `from` over open tiles.
pub open spec fn open_reach(bot: ApexBot, field: Field, from: int, to: int) -> bool {
    exists|path: Seq<usize>| path.len() >= 1 && path[0] == from && path.last() == to && #[trigger] open_path(bot, field, path)
}

/// The number of entries of `s` that are `true`.
pub open spec fn marked(s: Seq<bool>) -> int {
    s.len() - unmarked(s)
}

/// A set of tiles that holds the start of an open path and every open neighbour of
/// each of its tiles holds the whole path.
proof fn lemma_closed_holds_path(bot: ApexBot, field: Field, closed: Seq<bool>, path: Seq<usize>)
    requires
        bot.wf(),
        closed.len() == bot.cells(),
        path.len() >= 1,
        open_path(bot, field, path),
        closed[path[0] as int],
        forall|c: int, j: int| 0 <= c < bot.cells() && closed[c] && 0 <= j < bot.neighbours@[c]@.len()
            && field.open_from@[(#[trigger] bot.neighbours@[c]@[j]) as int] != NEVER
            ==> closed[bot.neighbours@[c]@[j] as int],
    ensures
        closed[path.last() as int],
    decreases path.len(),
{
    if path.len() > 1 {
        let prefix = path.drop_last();
        assert(open_path(bot, field, prefix)) by {
            assert forall|i: int| 0 <= i < prefix.len() - 1 implies (#[trigger] bot.neighbours@[prefix[i] as int])@.contains(prefix[i + 1]) by {
                assert(prefix[i] == path[i] && prefix[i + 1] == path[i + 1]);
            }
        }
        lemma_closed_holds_path(bot, field, closed, prefix);
        let c = prefix.last() as int;
        assert(c == path[path.len() - 2]);
        assert(bot.neighbours@[path[path.len() - 2] as int]@.contains(path[path.len() - 1]));
        let j = choose|j: int| 0 <= j < bot.neighbours@[c]@.len() && bot.neighbours@[c]@[j] == path.last();
        assert(field.open_from@[bot.neighbours@[c]@[j] as int] != NEVER);
    }
}

/// The price of stepping onto a tile: a destroyable block or a player has to be
/// bombed away first and costs seven, a bomb two, anything else one.
pub open spec fn enter_cost(ch: char) -> int {
    if ch == '.' || ch == 'P' { 7 } else if ch == 'B' { 2 } else { 1 }
}

/// `path` steps from neighbour to neighbour over tiles of the board, never onto a wall.
pub open spec fn weighted_walk(bot: ApexBot, tiles: Seq<char>, path: Seq<usize>) -> bool {
    &&& forall|i: int| 0 <= i < path.len() ==> (#[trigger] path[i]) < bot.cells()
    &&& forall|i: int| 1 <= i < path.len() ==> tiles[(#[trigger] path[i]) as int] != 'W'
    &&& forall|i: int| 0 <= i < path.len() - 1 ==> (#[trigger] bot.neighbours@[path[i] as int])@.contains(path[i + 1])
}

/// The price of a walk: the sum of the prices of the tiles it steps onto.
pub open spec fn walk_cost(tiles: Seq<char>, path: Seq<usize>) -> int
    decreases path.len(),
{
    if path.len() <= 1 { 0 } else { walk_cost(tiles, path.drop_last()) + enter_cost(tiles[path.last() as int]) }
}

/// The sum of all entries.
pub open spec fn total(s: Seq<usize>) -> nat
    decreases s.len(),
{
    if s.len() == 0 { 0 } else { total(s.drop_last()) + s.last() as nat }
}

proof fn lemma_total_lower(s: Seq<usize>, i: int, v: usize)
    requires
        0 <= i < s.len(),
        v < s[i],
    ensures
        total(s.update(i, v)) < total(s),
    decreases s.len(),
{
    if i < s.len() - 1 {
        lemma_total_lower(s.drop_last(), i, v);
        assert(s.update(i, v).drop_last() =~= s.drop_last().update(i, v));
    } else {
        assert(s.update(i, v).drop_last() =~= s.drop_last());
    }
}

/// Every step out of `c` onto a non-wall neighbour is already priced in: the
/// neighbour is no further away than `c` plus the price of the step.
pub open spec fn relaxed(bot: ApexBot, tiles: Seq<char>, dist: Seq<usize>, c: int) -> bool {
    forall|j: int| 0 <= j < bot.neighbours@[c]@.len() && tiles[(#[trigger] bot.neighbours@[c]@[j]) as int] != 'W'
        ==> dist[bot.neighbours@[c]@[j] as int] <= dist[c] + enter_cost(tiles[bot.neighbours@[c]@[j] as int])
            || dist[c] + enter_cost(tiles[bot.neighbours@[c]@[j] as int]) > NEVER
}

/// With every tile relaxed, no walk from `from` is cheaper than the recorded distance
/// of its end.
proof fn lemma_relaxed_bounds_walks(bot: ApexBot, tiles: Seq<char>, dist: Seq<usize>, from: int, path: Seq<usize>)
    requires
        bot.wf(),
        dist.len() == bot.cells(),
        0 <= from < bot.cells(),
        dist[from] == 0,
        forall|c: int| 0 <= c < bot.cells() ==> #[trigger] relaxed(bot, tiles, dist, c),
        path.len() >= 1,
        path[0] == from,
        weighted_walk(bot, tiles, path),
        walk_cost(tiles, path) <= NEVER,
    ensures
        dist[path.last() as int] <= walk_cost(tiles, path),
    decreases path.len(),
{
    if path.len() > 1 {
        let prefix = path.drop_last();
        assert(weighted_walk(bot, tiles, prefix)) by {
            assert forall|i: int| 0 <= i < prefix.len() - 1 implies (#[trigger] bot.neighbours@[prefix[i] as int])@.contains(prefix[i + 1]) by {
                assert(prefix[i] == path[i] && prefix[i + 1] == path[i + 1]);
            }
            assert forall|i: int| 1 <= i < prefix.len() implies tiles[(#[trigger] prefix[i]) as int] != 'W' by {
                assert(prefix[i] == path[i]);
            }
        }
        assert(walk_cost(tiles, prefix) <= walk_cost(tiles, path));
        lemma_relaxed_bounds_walks(bot, tiles, dist, from, prefix);
        let c = prefix.last() as int;
        let n = path.last();
        assert(c == path[path.len() - 2]);
        assert(bot.neighbours@[path[path.len() - 2] as int]@.contains(path[path.len() - 1]));
        let j = choose|j: int| 0 <= j < bot.neighbours@[c]@.len() && bot.neighbours@[c]@[j] == n;
        assert(tiles[path[path.len() - 1] as int] != 'W');
        assert(relaxed(bot, tiles, dist, c));
        assert(tiles[bot.neighbours@[c]@[j] as int] != 'W');
    }
}

/// From `c` at time `t - 1`, a player may be on `s` at time `t` in the pressure search:
/// `s` is `c` or a neighbour of it, is not `blocked`, may be stood on at `t`, and
/// still leaves `reach` turns of life.
pub open spec fn pressure_step(bot: ApexBot, field: Field, table: Seq<u16>, start: int, blocked: int, reach: int,
    t: int, c: int, s: int) -> bool {
    &&& (s == c || bot.neighbours@[c]@.contains(s as usize))
    &&& s != blocked
    &&& allowed_at(field, s, t, start)
    &&& t + entry(table, bot.cells(), t, s) >= reach
}

/// `path` is a run of the pressure search from `from` over `t` turns: it starts on
/// `from` and every turn takes one pressure step.
pub open spec fn pressure_path(bot: ApexBot, field: Field, table: Seq<u16>, from: int, start: int, blocked: int, reach: int,
    t: int, path: Seq<int>) -> bool {
    &&& path.len() == t + 1
    &&& path[0] == from
    &&& forall|u: int| 1 <= u <= t ==> #[trigger] path_turn(bot, field, table, start, blocked, reach, path, u)
}

/// Turn `u` of `path` starts on a tile of the board and takes one pressure step.
pub open spec fn path_turn(bot: ApexBot, field: Field, table: Seq<u16>, start: int, blocked: int, reach: int,
    path: Seq<int>, u: int) -> bool {
    &&& 0 <= path[u - 1] < bot.cells()
    &&& pressure_step(bot, field, table, start, blocked, reach, u, path[u - 1], path[u])
}

/// `s` can be held at time `t` in the pressure search from `from`.
pub open spec fn in_layer(bot: ApexBot, field: Field, table: Seq<u16>, from: int, start: int, blocked: int, reach: int,
    t: int, s: int) -> bool {
    exists|path: Seq<int>| #[trigger] pressure_path(bot, field, table, from, start, blocked, reach, t, path) && path[t] == s
}

proof fn lemma_in_layer_zero(bot: ApexBot, field: Field, table: Seq<u16>, from: int, start: int, blocked: int, reach: int,
    s: int)
    ensures
        in_layer(bot, field, table, from, start, blocked, reach, 0, s) <==> s == from,
{
    if s == from {
        assert(pressure_path(bot, field, table, from, start, blocked, reach, 0, seq![from]));
    }
}

proof fn lemma_in_layer_unfold(bot: ApexBot, field: Field, table: Seq<u16>, from: int, start: int, blocked: int, reach: int,
    t: int, s: int)
    requires
        t >= 1,
    ensures
        in_layer(bot, field, table, from, start, blocked, reach, t, s) <==> exists|c: int| 0 <= c < bot.cells()
            && #[trigger] in_layer(bot, field, table, from, start, blocked, reach, t - 1, c)
            && pressure_step(bot, field, table, start, blocked, reach, t, c, s),
{
    if in_layer(bot, field, table, from, start, blocked, reach, t, s) {
        let path = choose|path: Seq<int>| #[trigger] pressure_path(bot, field, table, from, start, blocked, reach, t, path) && path[t] == s;
        let prefix = path.drop_last();
        assert(prefix.len() == t - 1 + 1);
        assert(prefix[0] == from);
        assert(pressure_path(bot, field, table, from, start, blocked, reach, t - 1, prefix)) by {
            assert(prefix[0] == path[0]);
            assert forall|u: int| 1 <= u <= t - 1 implies #[trigger] path_turn(bot, field, table, start, blocked, reach, prefix, u) by {
                assert(prefix[u - 1] == path[u - 1] && prefix[u] == path[u]);
                assert(path_turn(bot, field, table, start, blocked, reach, path, u));
            }
        }
        let c = path[t - 1];
        assert(path_turn(bot, field, table, start, blocked, reach, path, t));
        assert(in_layer(bot, field, table, from, start, blocked, reach, t - 1, c));
    }
    if exists|c: int| 0 <= c < bot.cells()
        && #[trigger] in_layer(bot, field, table, from, start, blocked, reach, t - 1, c)
        && pressure_step(bot, field, table, start, blocked, reach, t, c, s) {
        let c = choose|c: int| 0 <= c < bot.cells()
            && #[trigger] in_layer(bot, field, table, from, start, blocked, reach, t - 1, c)
            && pressure_step(bot, field, table, start, blocked, reach, t, c, s);
        let pc = choose|path: Seq<int>| #[trigger] pressure_path(bot, field, table, from, start, blocked, reach, t - 1, path) && path[t - 1] == c;
        let path = pc.push(s);
        assert(pressure_path(bot, field, table, from, start, blocked, reach, t, path)) by {
            assert(path[0] == pc[0]);
            assert(path[t - 1] == pc[t - 1]);
            assert(path[t] == s);
            assert forall|u: int| 1 <= u <= t implies #[trigger] path_turn(bot, field, table, start, blocked, reach, path, u) by {
                if u < t {
                    assert(path[u - 1] == pc[u - 1] && path[u] == pc[u]);
                    assert(path_turn(bot, field, table, start, blocked, reach, pc, u));
                }
            }
        }
    }
}

/// `s` can be held at some time from 1 up to `t` in the pressure search.
pub open spec fn held_by(bot: ApexBot, field: Field, table: Seq<u16>, from: int, start: int, blocked: int, reach: int,
    t: int, s: int) -> bool {
    exists|u: int| 1 <= u <= t && #[trigger] in_layer(bot, field, table, from, start, blocked, reach, u, s)
}

/// When the shrink walls `cell`, counted in arrival times from `turn`: the turn of the
/// endgame plus the tile's shrink step plus one, less the turns already played
/// (never below zero); `NEVER` for a tile the shrink never reaches.
pub open spec fn shrink_time(bot: ApexBot, turn: int, cell: int) -> usize {
    let order = bot.shrink_order@[cell];
    if order == NEVER {
        NEVER
    } else if bot.endgame + order + 1 <= turn {
        0
    } else {
        (bot.endgame + order + 1 - turn) as usize
    }
}

/// The tile index of a board position.
pub open spec fn tile_of(bot: ApexBot, c: crate::coord::Coord) -> int {
    c.row.0 * bot.size + c.col.0
}

/// `v` is strictly increasing.
pub open spec fn strictly_sorted(v: Seq<usize>) -> bool {
    forall|i: int, j: int| 0 <= i < j < v.len() ==> v[i] < v[j]
}

/// Inserts `x` into the strictly increasing `v`, unless it is there already.
fn insert_sorted(v: &mut Vec<usize>, x: usize)
    requires
        strictly_sorted(old(v)@),
    ensures
        strictly_sorted(final(v)@),
        forall|y: usize| #[trigger] final(v)@.contains(y) <==> old(v)@.contains(y) || y == x,
{
    let mut i: usize = 0;
    while i < v.len() && v[i] < x
        invariant
            0 <= i <= v@.len(),
            strictly_sorted(v@),
            v@ == old(v)@,
            forall|j: int| 0 <= j < i ==> v@[j] < x,
        decreases v@.len() - i,
    {
        i = i + 1;
    }
    if i < v.len() && v[i] == x {
        proof {
            assert(v@[i as int] == x);
        }
        return;
    }
    let ghost before = v@;
    v.insert(i, x);
    proof {
        assert forall|a: int, b: int| 0 <= a < b < v@.len() implies v@[a] < v@[b] by {
            if a < i && b < i {
            } else if a < i && b == i {
            } else if a < i && b > i {
                assert(v@[b] == before[b - 1]);
            } else if a == i {
                assert(v@[b] == before[b - 1]);
                assert(i < before.len() ==> x < before[i as int]);
            } else {
                assert(v@[a] == before[a - 1] && v@[b] == before[b - 1]);
            }
        }
        assert forall|y: usize| #[trigger] v@.contains(y) <==> before.contains(y) || y == x by {
            if v@.contains(y) {
                let k = choose|k: int| 0 <= k < v@.len() && v@[k] == y;
                if k < i {
                    assert(before[k] == y);
                } else if k > i {
                    assert(before[k - 1] == y);
                }
            }
            if before.contains(y) {
                let k = choose|k: int| 0 <= k < before.len() && before[k] == y;
                if k < i {
                    assert(v@[k] == y);
                } else {
                    assert(v@[k + 1] == y);
                }
            }
            if y == x {
                assert(v@[i as int] == x);
            }
        }
        assert(before == old(v)@);
    }
}

/// A copy of `v`.
fn copy_vec<T: Copy>(v: &Vec<T>) -> (r: Vec<T>)
    ensures
        r@ == v@,
{
    let mut r: Vec<T> = Vec::new();
    for i in 0..v.len()
        invariant
            r@ == v@.take(i as int),
    {
        r.push(v[i]);
        proof {
            assert(r@ =~= v@.take(i + 1));
        }
    }
    proof {
        assert(r@ =~= v@);
    }
    r
}

/// Do `a` and `b` hold the same pairs?
fn same_pairs(a: &Vec<(usize, usize)>, b: &Vec<(usize, usize)>) -> (r: bool)
    ensures
        r == (a@ == b@),
{
    if a.len() != b.len() {
        return false;
    }
    for i in 0..a.len()
        invariant
            a@.len() == b@.len(),
            forall|j: int| 0 <= j < i ==> a@[j] == b@[j],
    {
        if a[i].0 != b[i].0 || a[i].1 != b[i].1 {
            return false;
        }
    }
    proof {
        assert(a@ =~= b@);
    }
    true
}

/// Do `a` and `b` hold the same values?
fn same_values(a: &Vec<usize>, b: &Vec<usize>) -> (r: bool)
    ensures
        r == (a@ == b@),
{
    if a.len() != b.len() {
        return false;
    }
    for i in 0..a.len()
        invariant
            a@.len() == b@.len(),
            forall|j: int| 0 <= j < i ==> a@[j] == b@[j],
    {
        if a[i] != b[i] {
            return false;
        }
    }
    proof {
        assert(a@ =~= b@);
    }
    true
}

/// `n` copies of `x`.
fn filled<T: Copy>(n: usize, x: T) -> (r: Vec<T>)
    ensures
        r@.len() == n,
        forall|i: int| 0 <= i < n ==> r@[i] == x,
{
    let mut r: Vec<T> = Vec::new();
    for i in 0..n
        invariant
            r@.len() == i,
            forall|j: int| 0 <= j < i ==> r@[j] == x,
    {
        r.push(x);
    }
    r
}

/// A step from a tile of the board lands on the board.
proof fn lemma_step_on_board(size: int, cell: int, d: int)
    requires
        size > 0,
        size * size <= usize::MAX,
        0 <= cell < size * size,
    ensures
        step_to(size, cell, d) matches Some(n) ==> n < size * size,
{
    lemma_neighbours_on_board(size, cell);
    let l = neighbour_list(size, cell);
    let a = maybe(step_to(size, cell, 0));
    let b = maybe(step_to(size, cell, 1));
    let c = maybe(step_to(size, cell, 2));
    let e = maybe(step_to(size, cell, 3));
    if let Some(n) = step_to(size, cell, d) {
        if d == 0 {
            assert(l[0] == n);
        } else if d == 1 {
            assert(l[a.len() as int] == n);
        } else if d == 2 {
            assert(l[(a.len() + b.len()) as int] == n);
        } else {
            assert(l[(a.len() + b.len() + c.len()) as int] == n);
        }
    }
}

/// The entry for tile `c` in row `t` of a table with `cells` entries per row.
pub open spec fn entry(table: Seq<u16>, cells: int, t: int, c: int) -> u16 {
    table[t * cells + c]
}

/// The distance between two integers.
pub open spec fn gap(a: int, b: int) -> int {
    if a < b { b - a } else { a - b }
}

/// The indices of the keys that rank highest: winning outright first, then the
/// guaranteed survival. Ties among them are broken by the weighing outside.
pub fn best_by_survival(keys: &Vec<(bool, usize)>) -> (r: Vec<usize>)
    ensures
        forall|i: int| #[trigger] r@.contains(i as usize) && 0 <= i < keys@.len()
            <==> 0 <= i < keys@.len() && forall|j: int| 0 <= j < keys@.len() ==> key_le(#[trigger] keys@[j], keys@[i]),
        forall|k: int| 0 <= k < r@.len() ==> r@[k] < keys@.len(),
        forall|k1: int, k2: int| 0 <= k1 < k2 < r@.len() ==> r@[k1] < r@[k2],
{
    let mut best: (bool, usize) = (false, 0);
    for i in 0..keys.len()
        invariant
            forall|j: int| 0 <= j < i ==> key_le(#[trigger] keys@[j], best),
            i > 0 ==> exists|j: int| 0 <= j < i && keys@[j] == best,
    {
        let k = keys[i];
        if (k.0 && !best.0) || (k.0 == best.0 && k.1 > best.1) || i == 0 {
            best = k;
        }
    }
    let mut r: Vec<usize> = Vec::new();
    for i in 0..keys.len()
        invariant
            forall|j: int| 0 <= j < keys@.len() ==> key_le(#[trigger] keys@[j], best),
            keys@.len() > 0 ==> exists|j: int| 0 <= j < keys@.len() && keys@[j] == best,
            forall|k: int| 0 <= k < r@.len() ==> r@[k] < i,
            forall|k1: int, k2: int| 0 <= k1 < k2 < r@.len() ==> r@[k1] < r@[k2],
            forall|j: int| 0 <= j < i ==> (r@.contains(j as usize) <==> keys@[j] == best),
    {
        let ghost r0 = r@;
        if keys[i].0 == best.0 && keys[i].1 == best.1 {
            r.push(i);
        }
        proof {
            assert forall|j: int| 0 <= j < i + 1 implies (r@.contains(j as usize) <==> keys@[j] == best) by {
                if r@.contains(j as usize) {
                    let k = choose|k: int| 0 <= k < r@.len() && r@[k] == j as usize;
                    if k < r0.len() {
                        assert(r0[k] == j as usize);
                        assert(r0.contains(j as usize));
                    }
                }
                if j < i && r0.contains(j as usize) {
                    let k = choose|k: int| 0 <= k < r0.len() && r0[k] == j as usize;
                    assert(r@[k] == j as usize);
                }
                if j == i && keys@[j] == best {
                    assert(r@[r@.len() - 1] == j as usize);
                }
            }
        }
    }
    proof {
        assert forall|i: int| #![trigger keys@[i]] 0 <= i < keys@.len() implies
            (r@.contains(i as usize) <==> forall|j: int| 0 <= j < keys@.len() ==> key_le(#[trigger] keys@[j], keys@[i])) by {
            if forall|j: int| 0 <= j < keys@.len() ==> key_le(#[trigger] keys@[j], keys@[i]) {
                let w = choose|j: int| 0 <= j < keys@.len() && keys@[j] == best;
                assert(key_le(keys@[w], keys@[i]));
                assert(key_le(keys@[i], best));
            }
        }
    }
    r
}

/// Sets bit `time` of the blast mask of `cell`, for times that fit in the mask.
pub fn mark_blast(blast: &mut Vec<u64>, cell: usize, time: usize)
    requires
        cell < old(blast)@.len(),
    ensures
        time < 64 ==> final(blast)@ == old(blast)@.update(cell as int, old(blast)@[cell as int] | (1u64 << time)),
        time >= 64 ==> final(blast)@ == old(blast)@,
{
    if time < 64 {
        let mask = blast[cell] | (1u64 << time);
        blast.set(cell, mask);
    }
}

/// The turns a bomb still needs before it blows: its timer, at least one.
pub open spec fn bomb_fuse(b: Bomb) -> int {
    if b.timer < 1 { 1 } else { b.timer as int }
}

/// One of `bombs` lies on tile `cell`.
pub open spec fn bomb_on(apex: ApexBot, bombs: Seq<Bomb>, cell: int) -> bool {
    exists|i: int| 0 <= i < bombs.len() && tile_of(apex, (#[trigger] bombs[i]).position) == cell
}

/// The tile whose blast mask is `mask` is deadly at some arrival time from 1 to `f`
/// (always true of a fuse the mask cannot record).
pub open spec fn deadly_by(mask: u64, f: int) -> bool {
    f >= 64 || exists|a: int| 1 <= a <= f && #[trigger] ((mask >> (a as usize)) & 1) != 0
}

/// For each of the first `n` tiles, whether it holds `ch`.
pub open spec fn tile_mask(tiles: Seq<char>, n: int, ch: char) -> Seq<bool> {
    Seq::new(n as nat, |c: int| tiles[c] == ch)
}

/// The tile `s` steps from `origin` in direction `d`, if the board reaches that far.
pub open spec fn ray_tile(size: int, origin: int, d: int, s: nat) -> Option<usize>
    decreases s,
{
    if s == 0 {
        Some(origin as usize)
    } else {
        match ray_tile(size, origin, d, (s - 1) as nat) {
            Some(c) => step_to(size, c as int, d),
            None => None,
        }
    }
}

/// The blast of a bomb on `origin` reaches `s` steps in direction `d`: every tile up to
/// that one lies on the board and is no wall, and no block stands before it.
pub open spec fn ray_hits(size: int, solid: Seq<bool>, destroyable: Seq<bool>, origin: int, d: int, s: nat) -> bool
    decreases s,
{
    if s == 0 {
        true
    } else {
        &&& ray_hits(size, solid, destroyable, origin, d, (s - 1) as nat)
        &&& ray_tile(size, origin, d, s) is Some
        &&& ray_tile(size, origin, d, s).unwrap() < size * size
        &&& !solid[ray_tile(size, origin, d, s).unwrap() as int]
        &&& s > 1 ==> !destroyable[ray_tile(size, origin, d, (s - 1) as nat).unwrap() as int]
    }
}

/// A blast from `origin` passes `s` steps in direction `d` when nothing but blocks
/// cleared in time stands in its way: every tile up to that one lies on the board and is
/// no wall.
pub open spec fn ray_passes(size: int, solid: Seq<bool>, origin: int, d: int, s: nat) -> bool
    decreases s,
{
    if s == 0 {
        true
    } else {
        &&& ray_passes(size, solid, origin, d, (s - 1) as nat)
        &&& ray_tile(size, origin, d, s) is Some
        &&& ray_tile(size, origin, d, s).unwrap() < size * size
        &&& !solid[ray_tile(size, origin, d, s).unwrap() as int]
    }
}

/// Tile `x` lies within `radius` steps of `origin` along a ray that passes walls-free.
pub open spec fn on_open_ray(size: int, solid: Seq<bool>, origin: int, radius: nat, x: usize) -> bool {
    exists|d: int, s: nat| 0 <= d < 4 && 1 <= s <= radius && #[trigger] ray_passes(size, solid, origin, d, s)
        && ray_tile(size, origin, d, s) == Some(x)
}

/// Tile `x` is a block the bomb at index `fresh` of `positions` can clear: it lies on an
/// open ray of that bomb.
pub open spec fn fresh_clear(size: int, solid: Seq<bool>, positions: Seq<usize>, fresh: Option<usize>, radius: usize,
    x: usize) -> bool {
    &&& fresh is Some
    &&& on_open_ray(size, solid, positions[fresh.unwrap() as int] as int, radius as nat, x)
}

/// Tile `x` could be cleared by the bomb the bot drops on `own`: it lies within `radius`
/// steps of `own` along a ray with no wall on it.
pub open spec fn clearable_by(size: int, tiles: Seq<char>, cells: int, own: Option<usize>, radius: usize, x: usize) -> bool {
    &&& own is Some
    &&& on_open_ray(size, tile_mask(tiles, cells, 'W'), own.unwrap() as int, radius as nat, x)
}

/// `x + 2`, saturating at the top of `usize`.
pub open spec fn plus_two(x: int) -> int {
    if x + 2 > usize::MAX { usize::MAX as int } else { x + 2 }
}

/// The tactical horizon: at least eight turns, and two turns past the fuse of a new bomb
/// and past the timer of every bomb on the board.
pub open spec fn tactical_span(bombs: Seq<Bomb>, fuse: int) -> int
    decreases bombs.len(),
{
    if bombs.len() == 0 {
        if plus_two(fuse) > 8 { plus_two(fuse) } else { 8 }
    } else {
        let rest = tactical_span(bombs.drop_last(), fuse);
        let last = plus_two(bombs.last().timer as int);
        if last > rest { last } else { rest }
    }
}

/// The horizon to plan over: the tactical one, stretched near the endgame to the inner
/// tiles still unwalled plus two, at most 110 turns.
pub open spec fn planning_span(tactical: int, size: int, turn: int, endgame: int) -> int {
    let inner = (size - 2) * (size - 2);
    let near = (if turn + 110 > usize::MAX { usize::MAX as int } else { turn + 110 }) >= endgame;
    let walled = if turn + 1 > endgame { turn + 1 - endgame } else { 0 };
    let left = inner - (if walled < inner { walled } else { inner }) + 2;
    let stretched = if left < 110 { left } else { 110 };
    if near && stretched > tactical { stretched } else { tactical }
}

/// The tiles of the living opponents of `bot` on the board among the first `n`
/// players, in seat order, leaving out the bot's own tile.
pub open spec fn enemy_tiles(bot: ApexBot, players: Seq<crate::player::Player>, my_cell: int, n: int) -> Seq<usize>
    decreases n,
{
    if n <= 0 {
        Seq::empty()
    } else {
        let p = players[n - 1];
        let rest = enemy_tiles(bot, players, my_cell, n - 1);
        if p.id != bot.id && p.alive && p.position.row.0 < bot.size && p.position.col.0 < bot.size
            && tile_of(bot, p.position) != my_cell {
            rest.push(tile_of(bot, p.position) as usize)
        } else {
            rest
        }
    }
}

/// How many steps apart tiles `a` and `b` are, across rows and columns.
pub open spec fn span_between(bot: ApexBot, a: int, b: int) -> int {
    gap(a / bot.size as int, b / bot.size as int) + gap(a % bot.size as int, b % bot.size as int)
}

/// Opponent `i` of `enemies` is close enough to threaten tile `my_cell`: within the
/// blast radius plus three steps.
pub open spec fn is_threat(bot: ApexBot, enemies: Seq<usize>, my_cell: int, radius: int, i: int) -> bool {
    &&& 0 <= i < enemies.len()
    &&& span_between(bot, enemies[i] as int, my_cell) <= (if radius + 3 > usize::MAX { usize::MAX as int } else { radius + 3 })
}

/// Opponent `i` ranks before opponent `j`: nearer, or as near and seated earlier.
pub open spec fn ranks_before(bot: ApexBot, enemies: Seq<usize>, my_cell: int, i: int, j: int) -> bool {
    ||| span_between(bot, enemies[i] as int, my_cell) < span_between(bot, enemies[j] as int, my_cell)
    ||| span_between(bot, enemies[i] as int, my_cell) == span_between(bot, enemies[j] as int, my_cell) && i < j
}

/// Bit `a` of `mask` is set.
pub open spec fn bit_on(mask: u64, a: usize) -> bool {
    (mask >> a) & 1 != 0
}

/// Tile `c` is the tile of the bomb on `origin` or lies on one of its rays with no wall on
/// the way, within `radius` steps.
pub open spec fn on_blast_path(size: int, solid: Seq<bool>, origin: usize, radius: usize, c: usize) -> bool {
    c == origin || on_open_ray(size, solid, origin as int, radius as nat, c)
}

/// A blast at time `a` on tile `c` can come from one of the bombs on `positions`: `c` is
/// on its blast path and `a` lies between its fuse now and its fuse at first.
pub open spec fn lit_by(size: int, solid: Seq<bool>, positions: Seq<usize>, fuses: Seq<usize>, init: Seq<usize>,
    radius: usize, c: usize, a: usize) -> bool {
    exists|j: int| 0 <= j < positions.len() && #[trigger] on_blast_path(size, solid, positions[j], radius, c)
        && fuses[j] <= a <= init[j]
}

/// A blast at time `a` on tile `c` can come from a bomb of the map, or one of `extra`
/// dropped now: `c` is on its blast path and `a` is at most its fuse.
pub open spec fn field_lit(bot: ApexBot, map: GameMap, extra: Seq<usize>, c: usize, a: usize) -> bool {
    let solid = tile_mask(map.grid.tiles@, bot.cells(), 'W');
    let radius = map.map_settings.bomb_radius;
    let fuse = if map.map_settings.bomb_timer < 1 { 1 } else { map.map_settings.bomb_timer as int };
    ||| exists|i: int| 0 <= i < map.bombs@.len()
        && on_blast_path(bot.size as int, solid, tile_of(bot, #[trigger] map.bombs@[i].position) as usize, radius, c)
        && a <= bomb_fuse(map.bombs@[i])
    ||| exists|k: int| 0 <= k < extra.len() && on_blast_path(bot.size as int, solid, #[trigger] extra[k], radius, c) && a <= fuse
}

/// Setting bit `t` sets no other bit.
proof fn lemma_or_bit_from(x: u64, t: usize, a: usize)
    by (bit_vector)
    requires
        t < 64,
        a < 64,
        ((x | (1u64 << t)) >> a) & 1 != 0,
    ensures
        (x >> a) & 1 != 0 || a == t,
{
}

/// An empty mask has no bit set.
proof fn lemma_no_bits(a: usize)
    by (bit_vector)
    requires
        a < 64,
    ensures
        (0u64 >> a) & 1 == 0,
{
}

/// A blast that reaches a step reaches every step before it.
proof fn lemma_ray_hits_mono(size: int, solid: Seq<bool>, destroyable: Seq<bool>, origin: int, d: int, s: nat, t: nat)
    requires
        t <= s,
        ray_hits(size, solid, destroyable, origin, d, s),
    ensures
        ray_hits(size, solid, destroyable, origin, d, t),
    decreases s,
{
    if t < s {
        lemma_ray_hits_mono(size, solid, destroyable, origin, d, (s - 1) as nat, t);
    }
}

/// Marking a blast keeps every tile deadly that was.
proof fn lemma_mark_keeps_all(before: Seq<u64>, after: Seq<u64>, cell: int, time: usize)
    requires
        0 <= cell < before.len(),
        after == if time < 64 { before.update(cell, before[cell] | (1u64 << time)) } else { before },
    ensures
        forall|c: int, f: int| 0 <= c < before.len() && deadly_by(before[c], f) ==> #[trigger] deadly_by(after[c], f),
{
    assert forall|c: int, f: int| 0 <= c < before.len() && deadly_by(before[c], f) implies #[trigger] deadly_by(after[c], f) by {
        if c == cell && time < 64 && f < 64 {
            let a = choose|a: int| 1 <= a <= f && #[trigger] ((before[c] >> (a as usize)) & 1) != 0;
            lemma_or_keeps_bit(before[c], time, a as usize);
            assert(((after[c] >> (a as usize)) & 1) != 0);
        }
    }
}

/// Recording a clearing time never delays any tile, and the tile cleared now is
/// cleared by `time`.
proof fn lemma_clear_keeps(before: Seq<(usize, usize)>, after: Seq<(usize, usize)>, cell: int, time: usize, bomb: usize)
    requires
        0 <= cell < before.len(),
        after == if time < before[cell].0 { before.update(cell, (time, bomb)) } else { before },
    ensures
        after.len() == before.len(),
        after[cell].0 <= time,
        forall|c: int| 0 <= c < before.len() ==> #[trigger] after[c].0 <= before[c].0,
{
}

/// Marking a blast at `time` makes the tile deadly by any later fuse.
proof fn lemma_mark_makes_deadly(before: Seq<u64>, after: Seq<u64>, cell: int, time: usize, f: int)
    requires
        0 <= cell < before.len(),
        after == if time < 64 { before.update(cell, before[cell] | (1u64 << time)) } else { before },
        1 <= time <= f,
    ensures
        deadly_by(after[cell], f),
{
    if time < 64 {
        lemma_or_sets_bit(before[cell], time);
        assert(((after[cell] >> (time as usize)) & 1) != 0);
    }
}

/// Setting a bit of a mask keeps every bit already set.
proof fn lemma_or_keeps_bit(x: u64, t: usize, a: usize)
    by (bit_vector)
    requires
        t < 64,
        a < 64,
        (x >> a) & 1 != 0,
    ensures
        ((x | (1u64 << t)) >> a) & 1 != 0,
{
}

/// Setting a bit of a mask sets it.
proof fn lemma_or_sets_bit(x: u64, t: usize)
    by (bit_vector)
    requires
        t < 64,
    ensures
        ((x | (1u64 << t)) >> t) & 1 != 0,
{
}

/// Marking one more blast keeps every bomb tile deadly by its fuse.
proof fn lemma_mark_keeps_deadly(before: Seq<u64>, after: Seq<u64>, cell: int, time: usize,
    positions: Seq<usize>, init: Seq<usize>, n: int)
    requires
        0 <= cell < before.len(),
        after == if time < 64 { before.update(cell, before[cell] | (1u64 << time)) } else { before },
        0 <= n <= positions.len(),
        n <= init.len(),
        forall|j: int| 0 <= j < n ==> (#[trigger] positions[j]) < before.len(),
        forall|j: int| 0 <= j < n ==> deadly_by(before[#[trigger] positions[j] as int], init[j] as int),
    ensures
        forall|j: int| 0 <= j < n ==> deadly_by(after[#[trigger] positions[j] as int], init[j] as int),
{
    assert forall|j: int| 0 <= j < n implies deadly_by(after[#[trigger] positions[j] as int], init[j] as int) by {
        let c = positions[j] as int;
        if c == cell && time < 64 && init[j] < 64 {
            assert(deadly_by(before[c], init[j] as int));
            let a = choose|a: int| 1 <= a <= init[j] && #[trigger] ((before[c] >> (a as usize)) & 1) != 0;
            lemma_or_keeps_bit(before[c], time, a as usize);
            assert(((after[c] >> (a as usize)) & 1) != 0);
        }
    }
}

/// Keeps the two earliest times, by two different bombs, at which a block is cleared:
/// `first` holds the earliest time and its bomb, `second` the earliest time of any
/// other bomb.
pub fn record_clear(first: &mut Vec<(usize, usize)>, second: &mut Vec<usize>, cell: usize, time: usize, bomb: usize)
    requires
        cell < old(first)@.len(),
        cell < old(second)@.len(),
    ensures
        ({
            let (t0, b0) = old(first)@[cell as int];
            let s0 = old(second)@[cell as int];
            if time < t0 {
                &&& final(first)@ == old(first)@.update(cell as int, (time, bomb))
                &&& final(second)@ == if b0 != bomb && t0 < s0 { old(second)@.update(cell as int, t0) } else { old(second)@ }
            } else if b0 != bomb && time < s0 {
                &&& final(first)@ == old(first)@
                &&& final(second)@ == old(second)@.update(cell as int, time)
            } else {
                &&& final(first)@ == old(first)@
                &&& final(second)@ == old(second)@
            }
        }),
{
    let (t0, b0) = first[cell];
    if time < t0 {
        if b0 != bomb && t0 < second[cell] {
            second.set(cell, t0);
        }
        first.set(cell, (time, bomb));
    } else if b0 != bomb && time < second[cell] {
        second.set(cell, time);
    }
}

} // verus!
