use vstd::prelude::*;
use crate::bot::Bot;
use crate::text::{decimal, decimal_string, label, labelled};
use crate::command::Command;
use crate::coord::Coord;
use crate::map::GameMap;
use crate::map_config::MapConfig;

verus! {

/// A bot that walks a fixed bombing pattern out of whichever corner it last stood in.
pub struct OldSchool {
    pub name: String,
    pub id: usize,
    pub debug_info: String,
    pub map_settings: MapConfig,
    /// The commands still to play, the next one last.
    pub nextmoves: Vec<Command>,
    /// The corner the pattern starts from: 1 top left, 2 top right, 3 bottom right,
    /// 4 bottom left, 0 none yet.
    pub target: usize,
}

/// The corner a player at (`row`, `col`) stands in on a board of side `size`, or
/// `current` when it stands in none.
pub open spec fn corner_target(row: int, col: int, size: int, current: usize) -> usize {
    let far = size - 2;
    if col == 1 && row == 1 {
        1
    } else if col == far && row == 1 {
        2
    } else if col == far && row == far {
        3
    } else if col == 1 && row == far {
        4
    } else {
        current
    }
}

/// `c` when `cond` holds, nothing otherwise.
pub open spec fn when(cond: bool, c: Command) -> Seq<Command> {
    if cond { seq![c] } else { seq![] }
}

/// The commands stacked for the pattern of a corner, the first to play last. An even
/// column (corners 1 and 3) or row (corners 2 and 4) takes one extra step each way.
pub open spec fn corner_plan(target: usize, row: int, col: int) -> Seq<Command> {
    let ce = col % 2 == 0;
    let re = row % 2 == 0;
    if target == 1 {
        when(ce, Command::Right) + seq![Command::Right, Command::Up, Command::Wait, Command::Down]
            + when(ce, Command::Left) + seq![Command::Left, Command::PlaceBomb, Command::Right]
    } else if target == 2 {
        when(re, Command::Down) + seq![Command::Down, Command::Right, Command::Wait, Command::Wait, Command::Wait, Command::Left]
            + when(re, Command::Up) + seq![Command::Up, Command::PlaceBomb, Command::Down]
    } else if target == 3 {
        when(ce, Command::Left) + seq![Command::Left, Command::Down, Command::Wait, Command::Up]
            + when(ce, Command::Right) + seq![Command::Right, Command::PlaceBomb, Command::Left]
    } else if target == 4 {
        when(re, Command::Up) + seq![Command::Up, Command::Left, Command::Wait, Command::Wait, Command::Wait, Command::Right]
            + when(re, Command::Down) + seq![Command::Down, Command::PlaceBomb, Command::Up]
    } else {
        seq![Command::Wait]
    }
}

/// The debug note `T<target> from r<row>, c<col>`.
pub open spec fn corner_note(target: usize, row: usize, col: usize) -> Seq<char> {
    "T"@ + decimal(target as nat) + " from r"@ + decimal(row as nat) + ", c"@ + decimal(col as nat)
}

fn push_when(v: &mut Vec<Command>, cond: bool, c: Command)
    ensures
        final(v)@ == old(v)@ + when(cond, c),
{
    if cond {
        v.push(c);
    }
    proof {
        assert(final(v)@ =~= old(v)@ + when(cond, c));
    }
}

fn push_all(v: &mut Vec<Command>, cs: &[Command])
    ensures
        final(v)@ == old(v)@ + cs@,
{
    let ghost start = v@;
    for i in 0..cs.len()
        invariant
            v@ == start + cs@.take(i as int),
    {
        v.push(cs[i]);
        proof {
            assert(cs@.take(i + 1) =~= cs@.take(i as int).push(cs@[i as int]));
        }
    }
    proof {
        assert(cs@.take(cs@.len() as int) =~= cs@);
    }
}

fn corner_plan_vec(target: usize, row: usize, col: usize) -> (v: Vec<Command>)
    ensures
        v@ == corner_plan(target, row as int, col as int),
{
    let ce = col % 2 == 0;
    let re = row % 2 == 0;
    let mut v: Vec<Command> = Vec::new();
    if target == 1 {
        push_when(&mut v, ce, Command::Right);
        push_all(&mut v, &[Command::Right, Command::Up, Command::Wait, Command::Down]);
        push_when(&mut v, ce, Command::Left);
        push_all(&mut v, &[Command::Left, Command::PlaceBomb, Command::Right]);
    } else if target == 2 {
        push_when(&mut v, re, Command::Down);
        push_all(&mut v, &[Command::Down, Command::Right, Command::Wait, Command::Wait, Command::Wait, Command::Left]);
        push_when(&mut v, re, Command::Up);
        push_all(&mut v, &[Command::Up, Command::PlaceBomb, Command::Down]);
    } else if target == 3 {
        push_when(&mut v, ce, Command::Left);
        push_all(&mut v, &[Command::Left, Command::Down, Command::Wait, Command::Up]);
        push_when(&mut v, ce, Command::Right);
        push_all(&mut v, &[Command::Right, Command::PlaceBomb, Command::Left]);
    } else if target == 4 {
        push_when(&mut v, re, Command::Up);
        push_all(&mut v, &[Command::Up, Command::Left, Command::Wait, Command::Wait, Command::Wait, Command::Right]);
        push_when(&mut v, re, Command::Down);
        push_all(&mut v, &[Command::Down, Command::PlaceBomb, Command::Up]);
    } else {
        v.push(Command::Wait);
    }
    proof {
        assert(v@ =~= corner_plan(target, row as int, col as int));
    }
    v
}

impl OldSchool {
    pub fn new() -> (b: Self)
        ensures
            b.name@ == "OldSchool"@,
            b.id == 0,
            b.debug_info@.len() == 0,
            b.map_settings.size == 15,
            b.nextmoves@.len() == 0,
            b.target == 0,
    {
        proof {
            reveal_strlit("");
        }
        OldSchool {
            name: String::from_str("OldSchool"),
            id: 0,
            debug_info: String::from_str(""),
            map_settings: MapConfig::default(),
            nextmoves: Vec::new(),
            target: 0,
        }
    }
}

impl Default for OldSchool {
    fn default() -> (b: Self)
        ensures
            b.name@ == "OldSchool"@,
            b.id == 0,
            b.nextmoves@.len() == 0,
            b.target == 0,
    {
        Self::new()
    }
}

impl Bot for OldSchool {
    fn name(&self) -> (s: String)
        ensures
            s@ == labelled(self.name@, self.id as nat),
    {
        label(&self.name, self.id)
    }

    fn start_game(&mut self, map_settings: &MapConfig, bot_id: usize) -> (ok: bool)
        ensures
            !ok,
            final(self).id == bot_id,
            final(self).name == old(self).name,
            final(self).nextmoves == old(self).nextmoves,
            final(self).target == old(self).target,
            final(self).map_settings.size == map_settings.size,
            final(self).map_settings.bomb_radius == map_settings.bomb_radius,
            final(self).map_settings.bomb_timer == map_settings.bomb_timer,
            final(self).map_settings.endgame == map_settings.endgame,
    {
        self.id = bot_id;
        self.map_settings = map_settings.clone();
        false
    }

    /// Plays the stacked commands; once they run out, picks the corner the player
    /// stands in (if any) and stacks that corner's pattern.
    fn get_move(&mut self, _map: &GameMap, me: Coord) -> (c: Command)
        ensures
            final(self).name == old(self).name,
            final(self).id == old(self).id,
            final(self).map_settings == old(self).map_settings,
            old(self).nextmoves@.len() > 0 ==> {
                &&& c == old(self).nextmoves@.last()
                &&& final(self).nextmoves@ == old(self).nextmoves@.drop_last()
                &&& final(self).target == old(self).target
                &&& final(self).debug_info == old(self).debug_info
            },
            old(self).nextmoves@.len() == 0 ==> {
                let t = corner_target(me.row.0 as int, me.col.0 as int, old(self).map_settings.size as int, old(self).target);
                &&& final(self).target == t
                &&& final(self).nextmoves@.push(c) == corner_plan(t, me.row.0 as int, me.col.0 as int)
                &&& final(self).debug_info@ == corner_note(t, me.row.0, me.col.0)
            },
    {
        let row = me.row.get();
        let column = me.col.get();
        if self.nextmoves.len() > 0 {
            return self.nextmoves.pop().unwrap();
        }
        let size = self.map_settings.size;
        let far_side = size >= 2;
        if column == 1 && row == 1 {
            self.target = 1;
        } else if far_side && column == size - 2 && row == 1 {
            self.target = 2;
        } else if far_side && column == size - 2 && row == size - 2 {
            self.target = 3;
        } else if far_side && column == 1 && row == size - 2 {
            self.target = 4;
        }
        proof {
            reveal_strlit("T");
            reveal_strlit(" from r");
            reveal_strlit(", c");
        }
        let mut note = String::from_str("T");
        note.append(decimal_string(self.target).as_str());
        note.append(" from r");
        note.append(decimal_string(row).as_str());
        note.append(", c");
        note.append(decimal_string(column).as_str());
        self.debug_info = note;
        self.nextmoves = corner_plan_vec(self.target, row, column);
        proof {
            assert(self.nextmoves@.len() > 0);
        }
        let c = self.nextmoves.pop().unwrap();
        proof {
            assert(self.nextmoves@.push(c) =~= corner_plan(self.target, row as int, column as int));
        }
        c
    }

    fn get_debug_info(&self) -> (s: String)
        ensures
            s@ == self.debug_info@,
    {
        self.debug_info.clone()
    }
}

} // verus!
