use vstd::prelude::*;
use std::collections::VecDeque;
use crate::bots::board::{lemma_mark, lemma_unmarked_all, lemma_unmarked_bound, unmarked};
use crate::bots::ml_bot::step_rc;
use crate::bots::scout_bot::{opening_for, scout_script};
use crate::command::Command;
use crate::coord::Coord;
use crate::map::GameMap;
use crate::map_config::MapConfig;
use crate::shrink::{calculate_shrink_location, shrink_location};
use crate::text::{label, labelled};

verus! {

/// The board side and script state of the bot that scores its moves with a small
/// neural network; the network and its weights live outside the library. The board
/// side is the configured `size`; tile (`row`, `col`) sits at index `row * size + col`.
pub struct NeuralBot {
    pub name: String,
    pub id: usize,
    pub map_settings: MapConfig,
    pub turn: usize,
    /// The tile the shrink walls next, once the endgame has begun.
    pub next_shrink_location: Option<Coord>,
    pub last_debug: String,
    pub command_list: Vec<Command>,
    pub current_index: usize,
    pub looping: bool,
    pub initialized: bool,
}

/// A tile on the search front: where it is, how many steps it took to get there and
/// the first step taken.
struct Node {
    pos_row: usize,
    pos_col: usize,
    time: usize,
    first_move: Option<Command>,
}


/// The opening may go on at `index` on a board of side `size`: on the small boards the
/// opening is cut short.
pub open spec fn opening_allows(size: usize, index: usize) -> bool {
    &&& (size != 7 || index < 2)
    &&& (size != 9 || index < 18)
    &&& (size != 11 || index < 18)
    &&& (size != 13 || index < 27)
    &&& (size != 15 || index < 51)
}

/// The tile one step from (`row`, `col`) by `action` on a board of side `size`, if it
/// is on the board; waiting and bombing stay put.
pub open spec fn action_target(size: usize, row: usize, col: usize, action: Command) -> Option<(usize, usize)> {
    match action {
        Command::Up => if row > 0 { Some(((row - 1) as usize, col)) } else { None },
        Command::Down => if row + 1 < size { Some(((row + 1) as usize, col)) } else { None },
        Command::Left => if col > 0 { Some((row, (col - 1) as usize)) } else { None },
        Command::Right => if col + 1 < size { Some((row, (col + 1) as usize)) } else { None },
        _ => Some((row, col)),
    }
}

/// A wall or a destroyable block.
pub open spec fn blocks_line(c: char) -> bool {
    c == 'W' || c == '.'
}

/// A tile on the board has an index below `side * side`.
proof fn lemma_index_on_board(bot: &NeuralBot, row: int, col: int)
    requires
        bot.on_board(row, col),
    ensures
        0 <= bot.cell(row, col) < bot.side() * bot.side(),
{
    assert(0 <= row * bot.side() + col < bot.side() * bot.side()) by (nonlinear_arith)
        requires
            0 <= row < bot.side(),
            0 <= col < bot.side();
}

/// Two tiles of the board with the same index are the same tile.
proof fn lemma_cell_injective(bot: &NeuralBot, r1: int, c1: int, r2: int, c2: int)
    requires
        bot.on_board(r1, c1),
        bot.on_board(r2, c2),
        bot.cell(r1, c1) == bot.cell(r2, c2),
    ensures
        r1 == r2,
        c1 == c2,
{
    let s = bot.side();
    if r1 < r2 {
        assert(r1 * s + c1 < r2 * s + c2) by (nonlinear_arith)
            requires
                r1 < r2,
                0 <= c1 < s,
                0 <= c2;
    } else if r2 < r1 {
        assert(r2 * s + c2 < r1 * s + c1) by (nonlinear_arith)
            requires
                r2 < r1,
                0 <= c2 < s,
                0 <= c1;
    }
}

impl NeuralBot {
    /// The board side the bot plays on.
    pub open spec fn side(&self) -> int {
        self.map_settings.size as int
    }

    /// The index of tile (`row`, `col`).
    pub open spec fn cell(&self, row: int, col: int) -> int {
        row * self.side() + col
    }

    /// (`row`, `col`) lies on the board.
    pub open spec fn on_board(&self, row: int, col: int) -> bool {
        0 <= row < self.side() && 0 <= col < self.side()
    }

    /// The tile holds empty floor and is not the tile the shrink walls next.
    pub open spec fn clear_at(&self, map: GameMap, row: int, col: int) -> bool {
        &&& map.grid.tiles@[self.cell(row, col)] == ' '
        &&& match self.next_shrink_location {
            None => true,
            Some(s) => !(s.row.0 == row && s.col.0 == col),
        }
    }

    /// Every tile of the board has an entry in a grid of `len` entries.
    pub open spec fn fits(&self, len: int) -> bool {
        self.side() * self.side() <= len
    }

    /// Walking `moves` from (`row`, `col`), every step onto a clear tile of the board,
    /// ends on (`row2`, `col2`).
    pub open spec fn walk_ends(&self, map: GameMap, row: int, col: int, moves: Seq<Command>, row2: int, col2: int) -> bool
        decreases moves.len(),
    {
        if moves.len() == 0 {
            row == row2 && col == col2
        } else {
            let next = step_rc(row, col, moves[0]);
            &&& self.on_board(next.0, next.1)
            &&& self.clear_at(map, next.0, next.1)
            &&& self.walk_ends(map, next.0, next.1, moves.drop_first(), row2, col2)
        }
    }

    /// A walk can be taken one step further.
    pub proof fn lemma_walk_extend(&self, map: GameMap, row: int, col: int, moves: Seq<Command>, row2: int, col2: int, m: Command)
        requires
            self.walk_ends(map, row, col, moves, row2, col2),
            self.on_board(step_rc(row2, col2, m).0, step_rc(row2, col2, m).1),
            self.clear_at(map, step_rc(row2, col2, m).0, step_rc(row2, col2, m).1),
        ensures
            self.walk_ends(map, row, col, moves.push(m), step_rc(row2, col2, m).0, step_rc(row2, col2, m).1),
        decreases moves.len(),
    {
        if moves.len() > 0 {
            let next = step_rc(row, col, moves[0]);
            self.lemma_walk_extend(map, next.0, next.1, moves.drop_first(), row2, col2, m);
            assert(moves.push(m).drop_first() =~= moves.drop_first().push(m));
            assert(moves.push(m)[0] == moves[0]);
        } else {
            let t = step_rc(row2, col2, m);
            assert(moves.push(m).drop_first() =~= Seq::<Command>::empty());
            assert(moves.push(m)[0] == m);
            assert(self.walk_ends(map, t.0, t.1, Seq::<Command>::empty(), t.0, t.1));
        }
    }

    /// (`r`, `c`) is reached from (`r0`, `c0`) within `steps` steps onto clear board
    /// tiles, each step taken from a tile that `danger` marks.
    pub open spec fn reaches(&self, map: GameMap, danger: Seq<bool>, r0: int, c0: int, steps: nat, r: int, c: int) -> bool
        decreases steps,
    {
        if steps == 0 {
            r == r0 && c == c0
        } else {
            ||| self.reaches(map, danger, r0, c0, (steps - 1) as nat, r, c)
            ||| exists|pr: int, pc: int, m: Command| #![trigger step_rc(pr, pc, m)]
                step_rc(pr, pc, m) == (r, c) && self.on_board(pr, pc) && danger[self.cell(pr, pc)]
                && self.reaches(map, danger, r0, c0, (steps - 1) as nat, pr, pc)
                && self.on_board(r, c) && self.clear_at(map, r, c)
        }
    }

    /// The last step of a walk: the walk without it ends on a tile one step away.
    pub proof fn lemma_walk_last(&self, map: GameMap, row: int, col: int, moves: Seq<Command>, row2: int, col2: int)
        -> (mid: (int, int))
        requires
            moves.len() > 0,
            self.walk_ends(map, row, col, moves, row2, col2),
        ensures
            self.walk_ends(map, row, col, moves.drop_last(), mid.0, mid.1),
            step_rc(mid.0, mid.1, moves.last()) == (row2, col2),
            self.on_board(row2, col2),
            self.clear_at(map, row2, col2),
        decreases moves.len(),
    {
        let next = step_rc(row, col, moves[0]);
        if moves.len() == 1 {
            assert(moves.drop_first() =~= Seq::<Command>::empty());
            assert(moves.drop_last() =~= Seq::<Command>::empty());
            assert(moves.last() == moves[0]);
            assert(self.walk_ends(map, next.0, next.1, moves.drop_first(), row2, col2));
            assert(self.walk_ends(map, next.0, next.1, Seq::<Command>::empty(), row2, col2));
            assert(next.0 == row2 && next.1 == col2);
            assert(self.walk_ends(map, row, col, Seq::<Command>::empty(), row, col));
            (row, col)
        } else {
            let rest = moves.drop_first();
            let mid = self.lemma_walk_last(map, next.0, next.1, rest, row2, col2);
            assert(moves.drop_last().drop_first() =~= rest.drop_last());
            assert(moves.drop_last()[0] == moves[0]);
            assert(rest.last() == moves.last());
            mid
        }
    }

    /// A walk from a board tile either keeps to danger until its end, so its end is
    /// reached in as many steps, or it passes a tile out of danger earlier.
    pub proof fn lemma_walk_reaches(&self, map: GameMap, danger: Seq<bool>, r0: int, c0: int, moves: Seq<Command>,
        row2: int, col2: int)
        requires
            self.on_board(r0, c0),
            self.walk_ends(map, r0, c0, moves, row2, col2),
        ensures
            self.on_board(row2, col2),
            self.reaches(map, danger, r0, c0, moves.len(), row2, col2)
                || exists|steps: nat, r: int, c: int| steps < moves.len() && self.on_board(r, c)
                    && !danger[self.cell(r, c)] && #[trigger] self.reaches(map, danger, r0, c0, steps, r, c),
        decreases moves.len(),
    {
        if moves.len() > 0 {
            let mid = self.lemma_walk_last(map, r0, c0, moves, row2, col2);
            let short = moves.drop_last();
            self.lemma_walk_reaches(map, danger, r0, c0, short, mid.0, mid.1);
            let l = moves.len();
            if self.reaches(map, danger, r0, c0, short.len(), mid.0, mid.1) {
                if danger[self.cell(mid.0, mid.1)] {
                    assert(step_rc(mid.0, mid.1, moves.last()) == (row2, col2));
                    assert(self.reaches(map, danger, r0, c0, l, row2, col2));
                } else {
                    assert(self.reaches(map, danger, r0, c0, short.len(), mid.0, mid.1));
                }
            }
        }
    }

    /// A set of tiles that holds the start and every clear board neighbour of each of
    /// its tiles holds the end of every walk from the start.
    pub proof fn lemma_walk_stays(&self, map: GameMap, closed: Seq<bool>, row: int, col: int, moves: Seq<Command>, row2: int, col2: int)
        requires
            self.on_board(row, col),
            self.fits(closed.len() as int),
            closed[self.cell(row, col)],
            forall|r: int, c: int, m: Command| #![trigger closed[self.cell(r, c)], step_rc(r, c, m)]
                self.on_board(r, c) && closed[self.cell(r, c)]
                && self.on_board(step_rc(r, c, m).0, step_rc(r, c, m).1)
                && self.clear_at(map, step_rc(r, c, m).0, step_rc(r, c, m).1)
                ==> closed[self.cell(step_rc(r, c, m).0, step_rc(r, c, m).1)],
            self.walk_ends(map, row, col, moves, row2, col2),
        ensures
            self.on_board(row2, col2),
            closed[self.cell(row2, col2)],
        decreases moves.len(),
    {
        if moves.len() > 0 {
            let next = step_rc(row, col, moves[0]);
            self.lemma_walk_stays(map, closed, next.0, next.1, moves.drop_first(), row2, col2);
        }
    }

    pub fn new() -> (b: Self)
        ensures
            b.name@ == "NeuralNemesis"@,
            b.id == 0,
            b.map_settings.size == 15,
            b.turn == 0,
            b.next_shrink_location is None,
            b.command_list@.len() == 0,
            b.current_index == 0,
            !b.looping,
            !b.initialized,
    {
        Self::with_label(String::from_str("NeuralNemesis"))
    }

    /// A fresh bot going by `label`.
    pub fn with_label(label: String) -> (b: Self)
        ensures
            b.name@ == label@,
            b.id == 0,
            b.map_settings.size == 15,
            b.turn == 0,
            b.next_shrink_location is None,
            b.last_debug@.len() == 0,
            b.command_list@.len() == 0,
            b.current_index == 0,
            !b.looping,
            !b.initialized,
    {
        NeuralBot {
            name: label,
            id: 0,
            map_settings: MapConfig::default(),
            turn: 0,
            next_shrink_location: None,
            last_debug: String::new(),
            command_list: Vec::new(),
            current_index: 0,
            looping: false,
            initialized: false,
        }
    }

    /// The name shown on the board: `name (id)`.
    pub fn name(&self) -> (s: String)
        ensures
            s@ == labelled(self.name@, self.id as nat),
    {
        label(&self.name, self.id)
    }

    fn hardcoded_script() -> (v: Vec<Command>)
        ensures
            v@ == scout_script(),
    {
        let v = vec![Command::Right, Command::PlaceBomb, Command::Left, Command::Down, Command::Wait, Command::Up, Command::Right, Command::Right, Command::PlaceBomb, Command::Left, Command::Left, Command::Down, Command::Up, Command::Right, Command::PlaceBomb, Command::Left, Command::Down, Command::Wait, Command::Up, Command::Right, Command::Right, Command::Right, Command::Right, Command::PlaceBomb, Command::Left, Command::Left, Command::Down, Command::Up, Command::Right, Command::Right, Command::PlaceBomb, Command::Left, Command::Left, Command::Down, Command::Up, Command::Right, Command::Right, Command::PlaceBomb, Command::Left, Command::Left, Command::Down, Command::Up, Command::Right, Command::Right, Command::Down, Command::Down, Command::PlaceBomb, Command::Up, Command::Up, Command::Left, Command::Right, Command::Down, Command::Down, Command::Down, Command::Down, Command::PlaceBomb, Command::Up, Command::Up, Command::Right, Command::Left, Command::Down, Command::Down, Command::PlaceBomb, Command::Up, Command::Up, Command::Left];
        proof {
            assert(v@ =~= scout_script());
        }
        v
    }

    /// The opening for a start at `loc`: mirrored vertically in the lower half of the
    /// board and horizontally in the right half.
    fn get_correct_init_list(loc: Coord, height: i32, width: i32) -> (v: Vec<Command>)
        ensures
            v@ == opening_for(loc, height, width),
    {
        let script = NeuralBot::hardcoded_script();
        let lower = loc.row.get() >= (height as usize) / 2;
        let right = loc.col.get() >= (width as usize) / 2;
        let mut v: Vec<Command> = Vec::new();
        for i in 0..script.len()
            invariant
                script@ == scout_script(),
                lower == (loc.row.0 >= (height as usize) / 2),
                right == (loc.col.0 >= (width as usize) / 2),
                v@ == opening_for(loc, height, width).take(i as int),
        {
            let c = script[i];
            let vert = if lower {
                match c {
                    Command::Up => Command::Down,
                    Command::Down => Command::Up,
                    other => other,
                }
            } else {
                c
            };
            let both = if right {
                match vert {
                    Command::Left => Command::Right,
                    Command::Right => Command::Left,
                    other => other,
                }
            } else {
                vert
            };
            v.push(both);
            proof {
                assert(v@ =~= opening_for(loc, height, width).take(i + 1));
            }
        }
        proof {
            assert(v@ =~= opening_for(loc, height, width));
        }
        v
    }

    /// Takes the id and the settings of a new game and forgets the last one.
    pub fn start_game(&mut self, settings: &MapConfig, bot_id: usize) -> (ok: bool)
        ensures
            ok,
            final(self).id == bot_id,
            final(self).name == old(self).name,
            final(self).map_settings.size == settings.size,
            final(self).map_settings.bomb_radius == settings.bomb_radius,
            final(self).map_settings.bomb_timer == settings.bomb_timer,
            final(self).map_settings.endgame == settings.endgame,
            final(self).turn == 0,
            final(self).next_shrink_location is None,
            final(self).last_debug@.len() == 0,
            final(self).command_list == old(self).command_list,
            final(self).current_index == old(self).current_index,
            final(self).looping == old(self).looping,
            final(self).initialized == old(self).initialized,
    {
        self.id = bot_id;
        self.map_settings = settings.clone();
        self.turn = 0;
        self.next_shrink_location = None;
        self.last_debug = String::new();
        true
    }

    /// The part of a turn that needs no scoring. On the first call the opening for the
    /// player's quarter is prepared; while the opening lasts (cut short on the small
    /// boards) its next command is given. After it the bot notes the tile the shrink
    /// walls next, counts the turn and gives nothing: the network decides.
    pub fn scripted_move(&mut self, map: &GameMap, player_location: Coord) -> (c: Option<Command>)
        requires
            map.wf(),
            old(self).turn < usize::MAX,
        ensures
            final(self).name == old(self).name,
            final(self).id == old(self).id,
            final(self).map_settings == old(self).map_settings,
            final(self).initialized,
            ({
                let size = old(self).map_settings.size;
                let list = if old(self).initialized { old(self).command_list@ }
                    else { opening_for(player_location, size as i32, size as i32) };
                let index = if old(self).initialized { old(self).current_index } else { 0 };
                let looping = old(self).initialized && old(self).looping;
                let scripted = !looping && index < list.len() && opening_allows(size, index);
                &&& final(self).command_list@ == list
                &&& scripted ==> {
                    &&& c == Some(list[index as int])
                    &&& final(self).current_index == index + 1
                    &&& !final(self).looping
                    &&& final(self).turn == old(self).turn
                    &&& final(self).next_shrink_location == old(self).next_shrink_location
                }
                &&& !scripted ==> {
                    &&& c is None
                    &&& final(self).looping
                    &&& final(self).current_index == if looping { index } else { 0 }
                    &&& final(self).turn == old(self).turn + 1
                    &&& final(self).next_shrink_location == if map.map_settings.endgame <= old(self).turn {
                        shrink_location((old(self).turn - map.map_settings.endgame) as nat, map.map_settings.size as nat)
                    } else {
                        None
                    }
                }
            }),
    {
        if !self.initialized {
            let height = self.map_settings.size as i32;
            let width = self.map_settings.size as i32;
            self.command_list = NeuralBot::get_correct_init_list(player_location, height, width);
            self.initialized = true;
            self.current_index = 0;
            self.looping = false;
        }
        if !self.looping {
            let size = self.map_settings.size;
            let i = self.current_index;
            if i < self.command_list.len() && (size != 7 || i < 2) && (size != 9 || i < 18)
                && (size != 11 || i < 18) && (size != 13 || i < 27) && (size != 15 || i < 51) {
                let cmd = self.command_list[i];
                self.current_index = i + 1;
                return Some(cmd);
            }
            self.looping = true;
            self.current_index = 0;
        }
        if map.map_settings.endgame <= self.turn {
            proof {
                assert((map.map_settings.size - 2) * (map.map_settings.size - 2) <= 400) by (nonlinear_arith)
                    requires map.map_settings.size <= 20;
            }
            self.next_shrink_location = calculate_shrink_location(self.turn - map.map_settings.endgame, map.map_settings.size);
        } else {
            self.next_shrink_location = None;
        }
        self.turn = self.turn + 1;
        None
    }

    /// The index of tile (`row`, `col`).
    pub fn idx(&self, row: usize, col: usize) -> (i: usize)
        requires
            self.cell(row as int, col as int) <= usize::MAX,
        ensures
            i == self.cell(row as int, col as int),
    {
        proof {
            assert(0 <= row * self.map_settings.size) by (nonlinear_arith);
        }
        row * self.map_settings.size + col
    }

    /// Is (`row`, `col`) off the board?
    pub fn out_of_bounds(&self, row: usize, col: usize) -> (b: bool)
        ensures
            b == !self.on_board(row as int, col as int),
    {
        row >= self.map_settings.size || col >= self.map_settings.size
    }

    /// The entry of `grid` for tile (`row`, `col`).
    pub fn get_grid_value<T: Copy>(&self, grid: &Vec<T>, row: usize, col: usize) -> (v: T)
        requires
            0 <= self.cell(row as int, col as int) < grid.len(),
        ensures
            v == grid@[self.cell(row as int, col as int)],
    {
        let i = self.idx(row, col);
        grid[i]
    }

    /// The character of tile (`row`, `col`).
    pub fn get_map_cell(&self, row: usize, col: usize, map: &GameMap) -> (c: char)
        requires
            0 <= self.cell(row as int, col as int) < map.grid.tiles.len(),
        ensures
            c == map.grid.tiles@[self.cell(row as int, col as int)],
    {
        self.get_grid_value(&map.grid.tiles, row, col)
    }

    /// Does tile (`row`, `col`) hold a wall or a destroyable block?
    pub fn is_wall(&self, map: &GameMap, row: usize, col: usize) -> (b: bool)
        requires
            0 <= self.cell(row as int, col as int) < map.grid.tiles.len(),
        ensures
            b == (map.grid.tiles@[self.cell(row as int, col as int)] == 'W'
                || map.grid.tiles@[self.cell(row as int, col as int)] == '.'),
    {
        let cell = self.get_map_cell(row, col, map);
        cell == 'W' || cell == '.'
    }

    /// Is tile (`row`, `col`) clear to walk on?
    pub fn is_clear(&self, map: &GameMap, row: usize, col: usize) -> (b: bool)
        requires
            0 <= self.cell(row as int, col as int) < map.grid.tiles.len(),
        ensures
            b == self.clear_at(*map, row as int, col as int),
    {
        if let Some(shrink) = self.next_shrink_location {
            if shrink.row.get() == row && shrink.col.get() == col {
                return false;
            }
        }
        self.get_map_cell(row, col, map) == ' '
    }

    /// Is the straight line strictly between (`row`, `col`) and (`target_row`,
    /// `target_col`) free of walls and blocks? Places in neither the same row nor the
    /// same column count as free.
    pub fn line_clear(&self, map: &GameMap, row: usize, col: usize, target_row: usize, target_col: usize) -> (b: bool)
        requires
            self.fits(map.grid.tiles.len() as int),
            self.on_board(row as int, col as int),
            self.on_board(target_row as int, target_col as int),
        ensures
            row == target_row ==> (b <==> forall|c: int| (if col < target_col { col < c < target_col } else { target_col < c < col })
                ==> !blocks_line(#[trigger] map.grid.tiles@[self.cell(row as int, c)])),
            row != target_row && col == target_col ==> (b <==> forall|r: int| (if row < target_row { row < r < target_row } else { target_row < r < row })
                ==> !blocks_line(#[trigger] map.grid.tiles@[self.cell(r, col as int)])),
            row != target_row && col != target_col ==> b,
    {
        if row == target_row {
            let (start, end) = if col < target_col { (col + 1, target_col) } else { (target_col + 1, col) };
            let mut c = start;
            while c < end
                invariant
                    self.fits(map.grid.tiles.len() as int),
                    self.on_board(row as int, col as int),
                    self.on_board(target_row as int, target_col as int),
                    row == target_row,
                    start == if col < target_col { col + 1 } else { target_col + 1 },
                    end == if col < target_col { target_col } else { col },
                    start <= c,
                    c <= end || start > end,
                    forall|q: int| start <= q < c ==> !blocks_line(#[trigger] map.grid.tiles@[self.cell(row as int, q)]),
                decreases end - c,
            {
                proof {
                    lemma_index_on_board(self, row as int, c as int);
                }
                let cell = self.get_map_cell(row, c, map);
                if cell == 'W' || cell == '.' {
                    return false;
                }
                c = c + 1;
            }
        } else if col == target_col {
            let (start, end) = if row < target_row { (row + 1, target_row) } else { (target_row + 1, row) };
            let mut r = start;
            while r < end
                invariant
                    self.fits(map.grid.tiles.len() as int),
                    self.on_board(row as int, col as int),
                    self.on_board(target_row as int, target_col as int),
                    row != target_row,
                    col == target_col,
                    start == if row < target_row { row + 1 } else { target_row + 1 },
                    end == if row < target_row { target_row } else { row },
                    start <= r,
                    r <= end || start > end,
                    forall|q: int| start <= q < r ==> !blocks_line(#[trigger] map.grid.tiles@[self.cell(q, col as int)]),
                decreases end - r,
            {
                proof {
                    lemma_index_on_board(self, r as int, col as int);
                }
                let cell = self.get_map_cell(r, col, map);
                if cell == 'W' || cell == '.' {
                    return false;
                }
                r = r + 1;
            }
        }
        true
    }

    /// The tile `action` leads to from (`row`, `col`), if it is on the board.
    pub fn apply_action(&self, row: usize, col: usize, action: Command) -> (r: Option<(usize, usize)>)
        ensures
            r == action_target(self.map_settings.size, row, col, action),
    {
        let size = self.map_settings.size;
        match action {
            Command::Up => if row > 0 { Some((row - 1, col)) } else { None },
            Command::Down => if size > 0 && row < size - 1 { Some((row + 1, col)) } else { None },
            Command::Left => if col > 0 { Some((row, col - 1)) } else { None },
            Command::Right => if size > 0 && col < size - 1 { Some((row, col + 1)) } else { None },
            Command::Wait => Some((row, col)),
            Command::PlaceBomb => Some((row, col)),
        }
    }

    /// `danger` (one flag per tile). Gives the first step and the number of steps;
    /// `(Wait, 0)` when the start is not in danger, and nothing when no such tile
    /// can be reached.
    #[verifier::rlimit(60)]
    pub fn find_escape_path(&self, map: &GameMap, start_row: usize, start_col: usize, danger: &Vec<bool>)
        -> (r: Option<(Command, usize)>)
        requires
            self.fits(danger.len() as int),
            self.fits(map.grid.tiles.len() as int),
            self.on_board(start_row as int, start_col as int),
        ensures
            !danger@[self.cell(start_row as int, start_col as int)] ==> r == Some((Command::Wait, 0usize)),
            danger@[self.cell(start_row as int, start_col as int)] ==> match r {
                Some((first, steps)) => exists|moves: Seq<Command>, r2: int, c2: int| {
                    &&& moves.len() == steps
                    &&& steps >= 1
                    &&& moves[0] == first
                    &&& #[trigger] self.walk_ends(*map, start_row as int, start_col as int, moves, r2, c2)
                    &&& !danger@[self.cell(r2, c2)]
                },
                None => forall|moves: Seq<Command>, r2: int, c2: int|
                    #[trigger] self.walk_ends(*map, start_row as int, start_col as int, moves, r2, c2)
                    ==> self.on_board(r2, c2) && danger@[self.cell(r2, c2)],
            },
            r matches Some((first, steps)) ==> forall|moves: Seq<Command>, r2: int, c2: int|
                #[trigger] self.walk_ends(*map, start_row as int, start_col as int, moves, r2, c2)
                && !danger@[self.cell(r2, c2)] ==> steps <= moves.len(),
    {
        let size = self.map_settings.size;
        let ghost n = self.side() * self.side();
        proof {
            vstd::arithmetic::mul::lemma_mul_nonnegative(self.side(), self.side());
            assert(self.cell(start_row as int, start_col as int) < n) by (nonlinear_arith)
                requires
                    0 <= start_row < self.side(),
                    0 <= start_col < self.side(),
                    n == self.side() * self.side();
        }
        let cells = size * size;
        let mut visited: Vec<bool> = Vec::new();
        for i in 0..cells
            invariant
                visited@.len() == i,
                forall|j: int| 0 <= j < i ==> !visited@[j],
        {
            visited.push(false);
        }
        let start_idx = self.idx(start_row, start_col);
        if !danger[start_idx] {
            return Some((Command::Wait, 0));
        }
        let mut queue: VecDeque<Node> = VecDeque::new();
        queue.push_back(Node { pos_row: start_row, pos_col: start_col, time: 0, first_move: None });
        proof {
            lemma_unmarked_all(visited@);
            lemma_mark(visited@, start_idx as int);
        }
        visited.set(start_idx, true);
        let ghost mut done: Seq<bool> = Seq::new(n as nat, |i: int| false);
        let directions = [(0usize, Command::Up), (1usize, Command::Down), (2usize, Command::Left), (3usize, Command::Right)];
        proof {
            assert(self.walk_ends(*map, start_row as int, start_col as int, Seq::empty(), start_row as int, start_col as int));
            assert(self.cell(queue@[0].pos_row as int, queue@[0].pos_col as int) == start_idx);
            assert forall|r: int, c: int| self.on_board(r, c) implies !done[self.cell(r, c)] by {
                lemma_index_on_board(self, r, c);
            }
        }
        while queue.len() > 0
            invariant
                size == self.map_settings.size,
                cells == n,
                n == self.side() * self.side(),
                self.fits(danger.len() as int),
                self.fits(map.grid.tiles.len() as int),
                self.on_board(start_row as int, start_col as int),
                start_idx == self.cell(start_row as int, start_col as int),
                visited@.len() == n,
                done.len() == n,
                visited@[start_idx as int],
                danger@[start_idx as int],
                directions@ == seq![(0usize, Command::Up), (1usize, Command::Down), (2usize, Command::Left), (3usize, Command::Right)],
                start_idx < n,
                forall|k: int| 0 <= k < queue@.len() ==> {
                    let q = #[trigger] queue@[k];
                    &&& self.on_board(q.pos_row as int, q.pos_col as int)
                    &&& 0 <= self.cell(q.pos_row as int, q.pos_col as int) < n
                    &&& visited@[self.cell(q.pos_row as int, q.pos_col as int)]
                    &&& !done[self.cell(q.pos_row as int, q.pos_col as int)]
                    &&& q.time + unmarked(visited@) < n
                    &&& (q.time == 0 <==> q.first_move is None)
                    &&& exists|moves: Seq<Command>| {
                        &&& moves.len() == q.time
                        &&& (moves.len() > 0 ==> q.first_move == Some(moves[0]))
                        &&& #[trigger] self.walk_ends(*map, start_row as int, start_col as int, moves, q.pos_row as int, q.pos_col as int)
                    }
                },
                forall|k1: int, k2: int| 0 <= k1 < k2 < queue@.len() ==>
                    self.cell((#[trigger] queue@[k1]).pos_row as int, queue@[k1].pos_col as int)
                    != self.cell((#[trigger] queue@[k2]).pos_row as int, queue@[k2].pos_col as int),
                forall|i: int| 0 <= i < n && #[trigger] visited@[i] ==> done[i]
                    || exists|k: int| 0 <= k < queue@.len() && self.cell((#[trigger] queue@[k]).pos_row as int, queue@[k].pos_col as int) == i,
                forall|i: int| 0 <= i < n && #[trigger] done[i] ==> visited@[i] && danger@[i],
                forall|r: int, c: int, m: Command| #![trigger done[self.cell(r, c)], step_rc(r, c, m)]
                    self.on_board(r, c) && done[self.cell(r, c)]
                    && self.on_board(step_rc(r, c, m).0, step_rc(r, c, m).1)
                    && self.clear_at(*map, step_rc(r, c, m).0, step_rc(r, c, m).1)
                    ==> visited@[self.cell(step_rc(r, c, m).0, step_rc(r, c, m).1)],
                forall|k1: int, k2: int| 0 <= k1 <= k2 < queue@.len() ==> (#[trigger] queue@[k1]).time <= (#[trigger] queue@[k2]).time,
                forall|k: int| 0 <= k < queue@.len() ==> (#[trigger] queue@[k]).time <= queue@[0].time + 1,
                forall|k: int, l: nat| 0 <= k < queue@.len()
                    && #[trigger] self.reaches(*map, danger@, start_row as int, start_col as int, l, (#[trigger] queue@[k]).pos_row as int, queue@[k].pos_col as int) ==> queue@[k].time <= l,
                queue@.len() > 0 ==> forall|l: nat, r: int, c: int| #[trigger] self.reaches(*map, danger@, start_row as int, start_col as int, l, r, c) && l <= queue@[0].time
                    ==> self.on_board(r, c) && visited@[self.cell(r, c)],
            decreases 2 * unmarked(visited@) + queue@.len(),
        {
            let ghost before = 2 * unmarked(visited@) + queue@.len();
            let ghost old_queue = queue@;
            let node = queue.pop_front().unwrap();
            proof {
                lemma_index_on_board(self, node.pos_row as int, node.pos_col as int);
            }
            let idx = self.idx(node.pos_row, node.pos_col);
            proof {
                let q_old = old_queue;
                assert(node == q_old[0]);
                assert forall|k: int| 0 <= k < queue@.len() implies #[trigger] queue@[k] == q_old[k + 1] by {}
                assert forall|i: int| 0 <= i < n && #[trigger] visited@[i] implies done[i] || i == idx
                    || exists|k: int| 0 <= k < queue@.len() && self.cell((#[trigger] queue@[k]).pos_row as int, queue@[k].pos_col as int) == i by {
                    if !done[i] && i != idx {
                        let k = choose|k: int| 0 <= k < q_old.len() && self.cell((#[trigger] q_old[k]).pos_row as int, q_old[k].pos_col as int) == i;
                        assert(k != 0);
                        assert(queue@[k - 1] == q_old[k]);
                    }
                }
                assert forall|k: int| 0 <= k < queue@.len() implies self.cell((#[trigger] queue@[k]).pos_row as int, queue@[k].pos_col as int) != idx by {
                    assert(queue@[k] == q_old[k + 1]);
                }
            }
            let ghost t = node.time as nat;
            proof {
                let q_old = old_queue;
                assert forall|l: nat| #[trigger] self.reaches(*map, danger@, start_row as int, start_col as int, l, node.pos_row as int, node.pos_col as int) implies t <= l by {
                    assert(q_old[0] == node);
                }
                assert forall|k: int| 0 <= k < queue@.len() implies t <= (#[trigger] queue@[k]).time <= t + 1 by {
                    assert(queue@[k] == q_old[k + 1]);
                    assert(q_old[0].time <= q_old[k + 1].time);
                }
                assert forall|k: int, l: nat| 0 <= k < queue@.len()
                    && #[trigger] self.reaches(*map, danger@, start_row as int, start_col as int, l, (#[trigger] queue@[k]).pos_row as int, queue@[k].pos_col as int) implies queue@[k].time <= l by {
                    assert(queue@[k] == q_old[k + 1]);
                }
                assert forall|k1: int, k2: int| 0 <= k1 <= k2 < queue@.len() implies (#[trigger] queue@[k1]).time <= (#[trigger] queue@[k2]).time by {
                    assert(queue@[k1] == q_old[k1 + 1]);
                    assert(queue@[k2] == q_old[k2 + 1]);
                }
                assert forall|l: nat, r: int, c: int| #[trigger] self.reaches(*map, danger@, start_row as int, start_col as int, l, r, c) && l <= t implies
                    self.on_board(r, c) && visited@[self.cell(r, c)] by {
                    assert(q_old[0] == node);
                }
            }
            let ghost moves0 = choose|moves: Seq<Command>| {
                &&& moves.len() == node.time
                &&& (moves.len() > 0 ==> node.first_move == Some(moves[0]))
                &&& #[trigger] self.walk_ends(*map, start_row as int, start_col as int, moves, node.pos_row as int, node.pos_col as int)
            };
            if !danger[idx] {
                proof {
                    if node.time == 0 {
                        assert(moves0.len() == 0);
                        assert(node.pos_row == start_row && node.pos_col == start_col);
                    }
                    assert(self.walk_ends(*map, start_row as int, start_col as int, moves0, node.pos_row as int, node.pos_col as int));
                    assert forall|l: nat, r: int, c: int| #[trigger] self.reaches(*map, danger@, start_row as int, start_col as int, l, r, c) && l < t implies
                        self.on_board(r, c) && danger@[self.cell(r, c)] by {
                        let i = self.cell(r, c);
                        lemma_index_on_board(self, r, c);
                        assert(visited@[i]);
                        if i == idx {
                            lemma_cell_injective(self, r, c, node.pos_row as int, node.pos_col as int);
                        } else if !done[i] {
                            let k = choose|k: int| 0 <= k < queue@.len() && self.cell((#[trigger] queue@[k]).pos_row as int, queue@[k].pos_col as int) == i;
                            assert(queue@[k] == old_queue[k + 1]);
                            assert(old_queue[0].time <= old_queue[k + 1].time);
                            lemma_cell_injective(self, r, c, queue@[k].pos_row as int, queue@[k].pos_col as int);
                            assert(t <= queue@[k].time);
                        }
                    }
                    assert forall|moves: Seq<Command>, r2: int, c2: int|
                        #[trigger] self.walk_ends(*map, start_row as int, start_col as int, moves, r2, c2)
                        && !danger@[self.cell(r2, c2)] implies t <= moves.len() by {
                        self.lemma_walk_reaches(*map, danger@, start_row as int, start_col as int, moves, r2, c2);
                        if moves.len() < t {
                            if !(self.reaches(*map, danger@, start_row as int, start_col as int, moves.len(), r2, c2)) {
                                let (l, r, c) = choose|l: nat, r: int, c: int| l < moves.len() && self.on_board(r, c)
                                    && !danger@[self.cell(r, c)] && #[trigger] self.reaches(*map, danger@, start_row as int, start_col as int, l, r, c);
                            }
                        }
                    }
                }
                return match node.first_move {
                    Some(dir) => Some((dir, node.time)),
                    None => None,
                };
            }
            for d in 0..4
                invariant
                    size == self.map_settings.size,
                    cells == n,
                    n == self.side() * self.side(),
                    self.fits(danger.len() as int),
                    self.fits(map.grid.tiles.len() as int),
                    self.on_board(node.pos_row as int, node.pos_col as int),
                    idx == self.cell(node.pos_row as int, node.pos_col as int),
                    0 <= idx < n,
                    visited@.len() == n,
                    done.len() == n,
                    visited@[idx as int],
                    !done[idx as int],
                    danger@[idx as int],
                    node.time + unmarked(visited@) < n,
                    2 * unmarked(visited@) + queue@.len() < before,
                    directions@ == seq![(0usize, Command::Up), (1usize, Command::Down), (2usize, Command::Left), (3usize, Command::Right)],
                    node.time == 0 <==> node.first_move is None,
                    moves0.len() == node.time,
                    moves0.len() > 0 ==> node.first_move == Some(moves0[0]),
                    self.walk_ends(*map, start_row as int, start_col as int, moves0, node.pos_row as int, node.pos_col as int),
                    self.on_board(start_row as int, start_col as int),
                    start_idx == self.cell(start_row as int, start_col as int),
                    start_idx < n,
                    visited@[start_idx as int],
                    danger@[start_idx as int],
                    forall|k: int| 0 <= k < queue@.len() ==> {
                        let q = #[trigger] queue@[k];
                        &&& self.on_board(q.pos_row as int, q.pos_col as int)
                        &&& 0 <= self.cell(q.pos_row as int, q.pos_col as int) < n
                        &&& visited@[self.cell(q.pos_row as int, q.pos_col as int)]
                        &&& !done[self.cell(q.pos_row as int, q.pos_col as int)]
                        &&& self.cell(q.pos_row as int, q.pos_col as int) != idx
                        &&& q.time + unmarked(visited@) < n
                        &&& (q.time == 0 <==> q.first_move is None)
                        &&& exists|moves: Seq<Command>| {
                            &&& moves.len() == q.time
                            &&& (moves.len() > 0 ==> q.first_move == Some(moves[0]))
                            &&& #[trigger] self.walk_ends(*map, start_row as int, start_col as int, moves, q.pos_row as int, q.pos_col as int)
                        }
                    },
                    forall|k1: int, k2: int| 0 <= k1 < k2 < queue@.len() ==>
                        self.cell((#[trigger] queue@[k1]).pos_row as int, queue@[k1].pos_col as int)
                        != self.cell((#[trigger] queue@[k2]).pos_row as int, queue@[k2].pos_col as int),
                    forall|i: int| 0 <= i < n && #[trigger] visited@[i] ==> done[i] || i == idx
                        || exists|k: int| 0 <= k < queue@.len() && self.cell((#[trigger] queue@[k]).pos_row as int, queue@[k].pos_col as int) == i,
                    forall|i: int| 0 <= i < n && #[trigger] done[i] ==> visited@[i] && danger@[i],
                    forall|r: int, c: int, m: Command| #![trigger done[self.cell(r, c)], step_rc(r, c, m)]
                        self.on_board(r, c) && done[self.cell(r, c)]
                        && self.on_board(step_rc(r, c, m).0, step_rc(r, c, m).1)
                        && self.clear_at(*map, step_rc(r, c, m).0, step_rc(r, c, m).1)
                        ==> visited@[self.cell(step_rc(r, c, m).0, step_rc(r, c, m).1)],
                    t == node.time,
                    forall|l: nat| #[trigger] self.reaches(*map, danger@, start_row as int, start_col as int, l, node.pos_row as int, node.pos_col as int) ==> t <= l,
                    forall|k: int| 0 <= k < queue@.len() ==> t <= (#[trigger] queue@[k]).time <= t + 1,
                    forall|k1: int, k2: int| 0 <= k1 <= k2 < queue@.len() ==> (#[trigger] queue@[k1]).time <= (#[trigger] queue@[k2]).time,
                    forall|k: int, l: nat| 0 <= k < queue@.len()
                        && #[trigger] self.reaches(*map, danger@, start_row as int, start_col as int, l, (#[trigger] queue@[k]).pos_row as int, queue@[k].pos_col as int) ==> queue@[k].time <= l,
                    forall|l: nat, r: int, c: int| #[trigger] self.reaches(*map, danger@, start_row as int, start_col as int, l, r, c) && l <= t
                        ==> self.on_board(r, c) && visited@[self.cell(r, c)],
                    forall|j: int| 0 <= j < d ==> {
                        let m = (#[trigger] directions@[j]).1;
                        let t = step_rc(node.pos_row as int, node.pos_col as int, m);
                        self.on_board(t.0, t.1) && self.clear_at(*map, t.0, t.1) ==> visited@[self.cell(t.0, t.1)]
                    },
            {
                let dir = directions[d].1;
                let row = node.pos_row;
                let col = node.pos_col;
                let (inside, nr, nc) = match dir {
                    Command::Up => if row > 0 { (true, row - 1, col) } else { (false, 0, 0) },
                    Command::Down => (true, row + 1, col),
                    Command::Left => if col > 0 { (true, row, col - 1) } else { (false, 0, 0) },
                    _ => (true, row, col + 1),
                };
                proof {
                    let t = step_rc(row as int, col as int, dir);
                    assert(inside ==> t == (nr as int, nc as int));
                    assert(!inside ==> !self.on_board(t.0, t.1));
                }
                if inside && !self.out_of_bounds(nr, nc) {
                    proof {
                        lemma_index_on_board(self, nr as int, nc as int);
                    }
                    if self.is_clear(map, nr, nc) {
                        let new_idx = self.idx(nr, nc);
                        if !visited[new_idx] {
                            let first = match node.first_move {
                                Some(f) => Some(f),
                                None => Some(dir),
                            };
                            proof {
                                lemma_mark(visited@, new_idx as int);
                                self.lemma_walk_extend(*map, start_row as int, start_col as int, moves0,
                                    row as int, col as int, dir);
                                let moves1 = moves0.push(dir);
                                assert(moves1.len() > 0 && first == Some(moves1[0]));
                                assert(self.walk_ends(*map, start_row as int, start_col as int, moves1, nr as int, nc as int));
                            }
                            let ghost v_old = visited@;
                            let ghost q_old = queue@;
                            visited.set(new_idx, true);
                            queue.push_back(Node { pos_row: nr, pos_col: nc, time: node.time + 1, first_move: first });
                            proof {
                                lemma_unmarked_bound(visited@);
                                let moves1 = moves0.push(dir);
                                let last = queue@.len() - 1;
                                let q = queue@[last];
                                assert(self.walk_ends(*map, start_row as int, start_col as int, moves1, q.pos_row as int, q.pos_col as int));
                                assert(self.cell(q.pos_row as int, q.pos_col as int) == new_idx);
                                assert forall|k: int| 0 <= k < q_old.len() implies #[trigger] queue@[k] == q_old[k] by {}
                                assert forall|i: int| 0 <= i < n && v_old[i] implies #[trigger] visited@[i] by {}
                                assert forall|l: nat| #[trigger] self.reaches(*map, danger@, start_row as int, start_col as int, l, nr as int, nc as int) implies t + 1 <= l by {
                                    if l <= t {
                                        assert(v_old[self.cell(nr as int, nc as int)]);
                                    }
                                }
                                assert forall|k: int, l: nat| 0 <= k < queue@.len()
                                    && #[trigger] self.reaches(*map, danger@, start_row as int, start_col as int, l, (#[trigger] queue@[k]).pos_row as int, queue@[k].pos_col as int) implies queue@[k].time <= l by {
                                    if k < q_old.len() {
                                        assert(queue@[k] == q_old[k]);
                                    }
                                }
                                assert forall|k1: int, k2: int| 0 <= k1 <= k2 < queue@.len() implies (#[trigger] queue@[k1]).time <= (#[trigger] queue@[k2]).time by {
                                    if k2 < q_old.len() {
                                        assert(queue@[k1] == q_old[k1]);
                                        assert(queue@[k2] == q_old[k2]);
                                    } else if k1 < q_old.len() {
                                        assert(queue@[k1] == q_old[k1]);
                                    }
                                }
                                assert forall|k: int| 0 <= k < queue@.len() implies t <= (#[trigger] queue@[k]).time <= t + 1 by {
                                    if k < q_old.len() {
                                        assert(queue@[k] == q_old[k]);
                                    }
                                }
                                assert forall|l: nat, r: int, c: int| #[trigger] self.reaches(*map, danger@, start_row as int, start_col as int, l, r, c) && l <= t implies
                                    self.on_board(r, c) && visited@[self.cell(r, c)] by {
                                    assert(v_old[self.cell(r, c)]);
                                    lemma_index_on_board(self, r, c);
                                }
                                assert forall|r: int, c: int, m: Command| #![trigger done[self.cell(r, c)], step_rc(r, c, m)]
                                    self.on_board(r, c) && done[self.cell(r, c)]
                                    && self.on_board(step_rc(r, c, m).0, step_rc(r, c, m).1)
                                    && self.clear_at(*map, step_rc(r, c, m).0, step_rc(r, c, m).1)
                                    implies visited@[self.cell(step_rc(r, c, m).0, step_rc(r, c, m).1)] by {
                                    let t = step_rc(r, c, m);
                                    lemma_index_on_board(self, t.0, t.1);
                                    assert(v_old[self.cell(t.0, t.1)]);
                                }
                                assert forall|j: int| 0 <= j < d + 1 implies {
                                    let m = (#[trigger] directions@[j]).1;
                                    let t = step_rc(node.pos_row as int, node.pos_col as int, m);
                                    self.on_board(t.0, t.1) && self.clear_at(*map, t.0, t.1) ==> visited@[self.cell(t.0, t.1)]
                                } by {
                                    let m = directions@[j].1;
                                    let t = step_rc(node.pos_row as int, node.pos_col as int, m);
                                    if self.on_board(t.0, t.1) {
                                        lemma_index_on_board(self, t.0, t.1);
                                    }
                                }
                                assert forall|i: int| 0 <= i < n && #[trigger] visited@[i] implies done[i] || i == idx
                                    || exists|k: int| 0 <= k < queue@.len() && self.cell((#[trigger] queue@[k]).pos_row as int, queue@[k].pos_col as int) == i by {
                                    if i != new_idx && !done[i] && i != idx {
                                        assert(v_old[i]);
                                        let k = choose|k: int| 0 <= k < q_old.len() && self.cell((#[trigger] q_old[k]).pos_row as int, q_old[k].pos_col as int) == i;
                                        assert(queue@[k] == q_old[k]);
                                    }
                                }
                            }
                        }
                    }
                }
            }
            proof {
                let done_old = done;
                done = done.update(idx as int, true);
                assert forall|r: int, c: int, m: Command| #![trigger done[self.cell(r, c)], step_rc(r, c, m)]
                    self.on_board(r, c) && done[self.cell(r, c)]
                    && self.on_board(step_rc(r, c, m).0, step_rc(r, c, m).1)
                    && self.clear_at(*map, step_rc(r, c, m).0, step_rc(r, c, m).1)
                    implies visited@[self.cell(step_rc(r, c, m).0, step_rc(r, c, m).1)] by {
                    lemma_index_on_board(self, r, c);
                    if self.cell(r, c) == idx {
                        lemma_cell_injective(self, r, c, node.pos_row as int, node.pos_col as int);
                        match m {
                            Command::Up => { assert(directions@[0].1 == m); },
                            Command::Down => { assert(directions@[1].1 == m); },
                            Command::Left => { assert(directions@[2].1 == m); },
                            Command::Right => { assert(directions@[3].1 == m); },
                            _ => {},
                        }
                    } else {
                        assert(done_old[self.cell(r, c)]);
                    }
                }
                if queue@.len() > 0 {
                    assert forall|k: int| 0 <= k < queue@.len() implies (#[trigger] queue@[k]).time <= queue@[0].time + 1 by {}
                    assert forall|l: nat, r: int, c: int| #[trigger] self.reaches(*map, danger@, start_row as int, start_col as int, l, r, c) && l <= queue@[0].time implies
                        self.on_board(r, c) && visited@[self.cell(r, c)] by {
                        if l > t {
                            assert(l == t + 1);
                            if !(self.reaches(*map, danger@, start_row as int, start_col as int, t, r, c)) {
                                let (pr, pc, m) = choose|pr: int, pc: int, m: Command| #![trigger step_rc(pr, pc, m)]
                                    step_rc(pr, pc, m) == (r, c) && self.on_board(pr, pc) && danger@[self.cell(pr, pc)]
                                    && self.reaches(*map, danger@, start_row as int, start_col as int, t, pr, pc) && self.on_board(r, c) && self.clear_at(*map, r, c);
                                let i = self.cell(pr, pc);
                                assert(visited@[i]);
                                lemma_index_on_board(self, pr, pc);
                                if !done[i] {
                                    assert(i != idx);
                                    let k = choose|k: int| 0 <= k < queue@.len() && self.cell((#[trigger] queue@[k]).pos_row as int, queue@[k].pos_col as int) == i;
                                    lemma_cell_injective(self, pr, pc, queue@[k].pos_row as int, queue@[k].pos_col as int);
                                    assert(queue@[k].time <= t);
                                    assert(queue@[0].time <= queue@[k].time);
                                }
                                assert(done[self.cell(pr, pc)]);
                                assert(step_rc(pr, pc, m) == (r, c));
                                assert(visited@[self.cell(step_rc(pr, pc, m).0, step_rc(pr, pc, m).1)]);
                            }
                        }
                    }
                }
            }
        }
        proof {
            assert forall|i: int| 0 <= i < n && #[trigger] visited@[i] implies done[i] by {}
            assert(done[start_idx as int]);
            assert forall|r: int, c: int, m: Command| #![trigger done[self.cell(r, c)], step_rc(r, c, m)]
                self.on_board(r, c) && done[self.cell(r, c)]
                && self.on_board(step_rc(r, c, m).0, step_rc(r, c, m).1)
                && self.clear_at(*map, step_rc(r, c, m).0, step_rc(r, c, m).1)
                implies done[self.cell(step_rc(r, c, m).0, step_rc(r, c, m).1)] by {
                let t = step_rc(r, c, m);
                lemma_index_on_board(self, t.0, t.1);
                assert(visited@[self.cell(t.0, t.1)]);
            }
            assert forall|moves: Seq<Command>, r2: int, c2: int|
                #[trigger] self.walk_ends(*map, start_row as int, start_col as int, moves, r2, c2)
                implies self.on_board(r2, c2) && danger@[self.cell(r2, c2)] by {
                self.lemma_walk_stays(*map, done, start_row as int, start_col as int, moves, r2, c2);
                lemma_index_on_board(self, r2, c2);
            }
        }
        None
    }
}

} // verus!
