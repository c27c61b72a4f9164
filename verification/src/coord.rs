use vstd::prelude::*;
use crate::command::Command;

verus! {

/// The column of a tile, counted from the left edge of the grid.
#[derive(Clone, Copy, Debug, PartialEq, Eq, Hash, Structural)]
pub struct Col(pub usize);

/// The row of a tile, counted from the top edge of the grid.
#[derive(Clone, Copy, Debug, PartialEq, Eq, Hash, Structural)]
pub struct Row(pub usize);

impl Col {
    pub fn new(value: usize) -> (c: Col)
        ensures
            c.0 == value,
    {
        Col(value)
    }

    pub fn get(&self) -> (v: usize)
        ensures
            v == self.0,
    {
        self.0
    }
}

impl Row {
    pub fn new(value: usize) -> (r: Row)
        ensures
            r.0 == value,
    {
        Row(value)
    }

    pub fn get(&self) -> (v: usize)
        ensures
            v == self.0,
    {
        self.0
    }
}

/// A tile position: `col` grows to the right, `row` grows downwards.
#[derive(Clone, Copy, Debug, PartialEq, Eq, Hash, Structural)]
pub struct Coord {
    pub col: Col,
    pub row: Row,
}

/// The coordinate with the given column and row.
pub open spec fn coord(col: int, row: int) -> Coord {
    Coord { col: Col(col as usize), row: Row(row as usize) }
}

/// One step up (towards row 0), if that stays on non-negative rows.
pub open spec fn step_up(c: Coord) -> Option<Coord> {
    if c.row.0 > 0 { Some(coord(c.col.0 as int, c.row.0 - 1)) } else { None }
}

/// One step down, if the row still fits in a `usize`.
pub open spec fn step_down(c: Coord) -> Option<Coord> {
    if c.row.0 < usize::MAX { Some(coord(c.col.0 as int, c.row.0 + 1)) } else { None }
}

/// One step left (towards column 0), if that stays on non-negative columns.
pub open spec fn step_left(c: Coord) -> Option<Coord> {
    if c.col.0 > 0 { Some(coord(c.col.0 - 1, c.row.0 as int)) } else { None }
}

/// One step right, if the column still fits in a `usize`.
pub open spec fn step_right(c: Coord) -> Option<Coord> {
    if c.col.0 < usize::MAX { Some(coord(c.col.0 + 1, c.row.0 as int)) } else { None }
}

/// The position reached by a command: moves step, the other commands stay put.
pub open spec fn step_command(c: Coord, command: Command) -> Option<Coord> {
    match command {
        Command::Up => step_up(c),
        Command::Down => step_down(c),
        Command::Left => step_left(c),
        Command::Right => step_right(c),
        Command::Wait => Some(c),
        Command::PlaceBomb => Some(c),
    }
}

/// `c` lies on a `width` x `height` grid.
pub open spec fn in_bounds(c: Coord, width: int, height: int) -> bool {
    c.col.0 < width && c.row.0 < height
}

/// `a` and `b` are at most one step apart in each axis (the 3x3 block around `b`).
pub open spec fn in_square_3x3(a: Coord, b: Coord) -> bool {
    &&& b.col.0 - 1 <= a.col.0 <= b.col.0 + 1
    &&& b.row.0 - 1 <= a.row.0 <= b.row.0 + 1
}

/// Manhattan distance of two coordinates.
pub open spec fn manhattan_distance(a: Coord, b: Coord) -> int {
    let dc = a.col.0 - b.col.0;
    let dr = a.row.0 - b.row.0;
    (if dc < 0 { -dc } else { dc }) + (if dr < 0 { -dr } else { dr })
}

impl Coord {
    pub fn from(col: usize, row: usize) -> (c: Coord)
        ensures
            c == coord(col as int, row as int),
    {
        Coord { col: Col(col), row: Row(row) }
    }

    pub fn move_up(&self) -> (r: Option<Coord>)
        ensures
            r == step_up(*self),
    {
        if self.row.0 > 0 {
            Some(Coord { col: self.col, row: Row(self.row.0 - 1) })
        } else {
            None
        }
    }

    pub fn move_down(&self) -> (r: Option<Coord>)
        ensures
            r == step_down(*self),
    {
        if self.row.0 < usize::MAX {
            Some(Coord { col: self.col, row: Row(self.row.0 + 1) })
        } else {
            None
        }
    }

    pub fn move_left(&self) -> (r: Option<Coord>)
        ensures
            r == step_left(*self),
    {
        if self.col.0 > 0 {
            Some(Coord { col: Col(self.col.0 - 1), row: self.row })
        } else {
            None
        }
    }

    pub fn move_right(&self) -> (r: Option<Coord>)
        ensures
            r == step_right(*self),
    {
        if self.col.0 < usize::MAX {
            Some(Coord { col: Col(self.col.0 + 1), row: self.row })
        } else {
            None
        }
    }

    /// Where the given command takes this position.
    pub fn move_command(&self, command: Command) -> (r: Option<Coord>)
        ensures
            r == step_command(*self, command),
    {
        match command {
            Command::Up => self.move_up(),
            Command::Down => self.move_down(),
            Command::Left => self.move_left(),
            Command::Right => self.move_right(),
            Command::Wait => Some(*self),
            Command::PlaceBomb => Some(*self),
        }
    }

    /// Does this position lie on a `width` x `height` grid?
    pub fn is_valid(&self, width: usize, height: usize) -> (b: bool)
        ensures
            b == in_bounds(*self, width as int, height as int),
    {
        self.col.0 < width && self.row.0 < height
    }

    /// The positions of the 3x3 block centred on this one, in row-major order,
    /// leaving out those that would need a negative or overflowing index.
    pub fn square_3x3(&self) -> (v: Vec<Coord>)
        ensures
            forall|i: int| 0 <= i < v@.len() ==> in_square_3x3(#[trigger] v@[i], *self),
            forall|a: Coord| in_square_3x3(a, *self) ==> v@.contains(a),
    {
        let rows = span_of(self.row.0);
        let cols = span_of(self.col.0);
        let mut v: Vec<Coord> = Vec::new();
        for i in 0..rows.len()
            invariant
                forall|k: int| 0 <= k < rows@.len() ==> self.row.0 - 1 <= #[trigger] rows@[k] <= self.row.0 + 1,
                forall|x: usize| self.row.0 - 1 <= x <= self.row.0 + 1 ==> rows@.contains(x),
                forall|k: int| 0 <= k < cols@.len() ==> self.col.0 - 1 <= #[trigger] cols@[k] <= self.col.0 + 1,
                forall|x: usize| self.col.0 - 1 <= x <= self.col.0 + 1 ==> cols@.contains(x),
                forall|k: int| 0 <= k < v@.len() ==> in_square_3x3(#[trigger] v@[k], *self),
                forall|a: Coord|
                    in_square_3x3(a, *self) && (exists|k: int| 0 <= k < i && rows@[k] == a.row.0)
                        ==> v@.contains(a),
        {
            for j in 0..cols.len()
                invariant
                    0 <= i < rows@.len(),
                    forall|k: int| 0 <= k < rows@.len() ==> self.row.0 - 1 <= #[trigger] rows@[k] <= self.row.0 + 1,
                    forall|k: int| 0 <= k < cols@.len() ==> self.col.0 - 1 <= #[trigger] cols@[k] <= self.col.0 + 1,
                    forall|k: int| 0 <= k < v@.len() ==> in_square_3x3(#[trigger] v@[k], *self),
                    forall|a: Coord|
                        in_square_3x3(a, *self) && (exists|k: int| 0 <= k < i && rows@[k] == a.row.0)
                            ==> v@.contains(a),
                    forall|a: Coord|
                        in_square_3x3(a, *self) && a.row.0 == rows@[i as int]
                            && (exists|k: int| 0 <= k < j && cols@[k] == a.col.0) ==> v@.contains(a),
            {
                let ghost before = v@;
                let c = Coord { col: Col(cols[j]), row: Row(rows[i]) };
                v.push(c);
                proof {
                    assert(v@[before.len() as int] == c);
                    assert forall|a: Coord|
                        in_square_3x3(a, *self) && (exists|k: int| 0 <= k < i && rows@[k] == a.row.0)
                            implies v@.contains(a) by {
                        let k = choose|k: int| 0 <= k < before.len() && before[k] == a;
                        assert(v@[k] == a);
                    }
                    assert forall|a: Coord|
                        in_square_3x3(a, *self) && a.row.0 == rows@[i as int]
                            && (exists|k: int| 0 <= k < j + 1 && cols@[k] == a.col.0) implies v@.contains(a) by {
                        if a.col.0 == cols@[j as int] {
                            assert(a == c);
                        } else {
                            assert(exists|k: int| 0 <= k < j && cols@[k] == a.col.0);
                            let k = choose|k: int| 0 <= k < before.len() && before[k] == a;
                            assert(v@[k] == a);
                        }
                    }
                }
            }
            proof {
                assert forall|a: Coord|
                    in_square_3x3(a, *self) && (exists|k: int| 0 <= k < i + 1 && rows@[k] == a.row.0)
                        implies v@.contains(a) by {
                    if a.row.0 == rows@[i as int] {
                        assert(cols@.contains(a.col.0));
                        let k = choose|k: int| 0 <= k < cols@.len() && cols@[k] == a.col.0;
                        assert(exists|k: int| 0 <= k < cols@.len() && cols@[k] == a.col.0);
                    } else {
                        assert(exists|k: int| 0 <= k < i && rows@[k] == a.row.0);
                    }
                }
            }
        }
        proof {
            assert forall|a: Coord| in_square_3x3(a, *self) implies v@.contains(a) by {
                assert(rows@.contains(a.row.0));
                let k = choose|k: int| 0 <= k < rows@.len() && rows@[k] == a.row.0;
            }
        }
        v
    }
}

/// The values `x - 1`, `x` and `x + 1` that fit in a `usize`, in ascending order.
fn span_of(x: usize) -> (v: Vec<usize>)
    ensures
        forall|k: int| 0 <= k < v@.len() ==> x - 1 <= #[trigger] v@[k] <= x + 1,
        forall|y: usize| x - 1 <= y <= x + 1 ==> v@.contains(y),
{
    let mut v: Vec<usize> = Vec::new();
    if x > 0 {
        v.push(x - 1);
    }
    v.push(x);
    if x < usize::MAX {
        v.push(x + 1);
    }
    proof {
        assert forall|y: usize| x - 1 <= y <= x + 1 implies v@.contains(y) by {
            if x > 0 {
                if y == x - 1 { assert(v@[0] == y); }
                else if y == x { assert(v@[1] == y); }
                else { assert(v@[2] == y); }
            } else {
                if y == x { assert(v@[0] == y); }
                else { assert(v@[1] == y); }
            }
        }
    }
    v
}

/// Keeping a position only when it lies on the grid.
pub trait ValidCoord {
    fn valid(self, width: usize, height: usize) -> Option<Coord>;
}

impl ValidCoord for Option<Coord> {
    fn valid(self, width: usize, height: usize) -> (r: Option<Coord>)
        ensures
            r == (match self {
                Some(c) => if in_bounds(c, width as int, height as int) { Some(c) } else { None },
                None => None,
            }),
    {
        match self {
            Some(c) => if c.is_valid(width, height) { Some(c) } else { None },
            None => None,
        }
    }
}

} // verus!
