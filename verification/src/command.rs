use vstd::prelude::*;

verus! {

/// What a player does in one turn.
#[derive(Debug, Clone, Copy, PartialEq, Eq, Structural)]
pub enum Command {
    Up,
    Down,
    Left,
    Right,
    Wait,
    PlaceBomb,
}

/// The commands that change the player's position.
pub open spec fn is_move_command(c: Command) -> bool {
    c is Up || c is Down || c is Left || c is Right
}

impl Command {
    /// Is this a move command? False if the position won't change.
    pub fn is_move(&self) -> (b: bool)
        ensures
            b == is_move_command(*self),
    {
        match self {
            Command::Up | Command::Down | Command::Left | Command::Right => true,
            Command::Wait | Command::PlaceBomb => false,
        }
    }
}

} // verus!
