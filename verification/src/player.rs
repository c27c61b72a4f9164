use vstd::prelude::*;
use crate::coord::Coord;

verus! {

/// A participant of the game and how it fared.
#[derive(Debug)]
pub struct Player {
    pub name: String,
    pub position: Coord,
    pub id: usize,
    pub alive: bool,
    pub reason_killed: String,
    pub killed_by: usize,
}

impl Clone for Player {
    fn clone(&self) -> (r: Self)
        ensures
            r == *self,
    {
        Player {
            name: self.name.clone(),
            position: self.position,
            id: self.id,
            alive: self.alive,
            reason_killed: self.reason_killed.clone(),
            killed_by: self.killed_by,
        }
    }
}

impl Player {
    /// Whether the player is still in the game.
    pub open spec fn spec_alive(&self) -> bool {
        self.alive
    }

    pub fn new(name: String, position: Coord, id: usize) -> (p: Player)
        ensures
            p.name@ == name@,
            p.position == position,
            p.id == id,
            p.spec_alive(),
            p.reason_killed@ == Seq::<char>::empty(),
            p.killed_by == usize::MAX,
    {
        Player {
            name: name,
            position,
            id,
            alive: true,
            reason_killed: String::new(),
            killed_by: usize::MAX,
        }
    }

    pub fn move_position(&mut self, new_position: Coord)
        ensures
            final(self).position == new_position,
            final(self).name == old(self).name,
            final(self).id == old(self).id,
            final(self).spec_alive() == old(self).spec_alive(),
            final(self).reason_killed == old(self).reason_killed,
            final(self).killed_by == old(self).killed_by,
    {
        self.position = new_position;
    }

    pub fn is_alive(&self) -> (b: bool)
        ensures
            b == self.spec_alive(),
    {
        self.alive
    }

    /// The player dies; a player killed by itself is recorded as a suicide.
    pub fn kill(&mut self, reason_killed: &String, killed_by: usize)
        ensures
            is_killed(*old(self), *final(self), reason_killed@, killed_by),
    {
        self.alive = false;
        if killed_by == self.id {
            self.reason_killed = String::from_str("suicide");
        } else {
            self.reason_killed = reason_killed.clone();
        }
        self.killed_by = killed_by;
    }
}

/// `after` is `before` killed for `reason` by the player with id `killed_by`: it is dead,
/// a kill by the player itself is recorded as a suicide, and nothing else changed.
pub open spec fn is_killed(before: Player, after: Player, reason: Seq<char>, killed_by: usize) -> bool {
    &&& !after.spec_alive()
    &&& after.reason_killed@ == (if killed_by == before.id { "suicide"@ } else { reason })
    &&& after.killed_by == killed_by
    &&& after.name == before.name
    &&& after.position == before.position
    &&& after.id == before.id
}

} // verus!
