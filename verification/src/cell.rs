use vstd::prelude::*;

verus! {

/// What a tile of the grid holds.
#[derive(Clone, Copy, Debug, PartialEq, Eq, Structural)]
pub enum CellType {
    Empty,
    Wall,
    Destroyable,
    Player,
    Bomb,
}

/// The character a cell type is stored as in the grid.
pub open spec fn char_of(t: CellType) -> char {
    match t {
        CellType::Empty => ' ',
        CellType::Wall => 'W',
        CellType::Destroyable => '.',
        CellType::Player => 'P',
        CellType::Bomb => 'B',
    }
}

/// The cell type a stored character stands for; unknown characters read as empty.
pub open spec fn cell_of(c: char) -> CellType {
    if c == 'W' {
        CellType::Wall
    } else if c == '.' {
        CellType::Destroyable
    } else if c == 'P' {
        CellType::Player
    } else if c == 'B' {
        CellType::Bomb
    } else {
        CellType::Empty
    }
}

impl CellType {
    pub fn as_char(&self) -> (c: char)
        ensures
            c == char_of(*self),
    {
        match self {
            CellType::Empty => ' ',
            CellType::Wall => 'W',
            CellType::Destroyable => '.',
            CellType::Player => 'P',
            CellType::Bomb => 'B',
        }
    }

    pub fn from_char(c: char) -> (t: CellType)
        ensures
            t == cell_of(c),
    {
        match c {
            ' ' => CellType::Empty,
            'W' => CellType::Wall,
            '.' => CellType::Destroyable,
            'P' => CellType::Player,
            'B' => CellType::Bomb,
            _ => CellType::Empty,
        }
    }
}

/// Reading back the character a cell type is stored as gives that cell type again.
pub proof fn lemma_cell_char_roundtrip(t: CellType)
    ensures
        cell_of(char_of(t)) == t,
{
}

} // verus!
