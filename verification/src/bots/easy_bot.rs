use vstd::prelude::*;
use crate::bot::Bot;
use crate::bots::board::{cell_char, char_at, random_wander, wander_moves};
use crate::text::{label, labelled};
use crate::command::Command;
use crate::coord::{Coord, step_command};
use crate::map::GameMap;
use crate::map_config::MapConfig;

verus! {

/// A bot that bombs whenever it sees a two-step way out, and otherwise wanders.
pub struct EasyBot {
    pub name: String,
    pub id: usize,
    /// The commands still to play, the next one last.
    pub nextmoves: Vec<Command>,
    pub map_settings: MapConfig,
}

/// The eight two-step detours tried before bombing, in order: a vertical step then a
/// horizontal one, then a horizontal step then a vertical one.
pub open spec fn detours() -> Seq<(Command, Command)> {
    seq![
        (Command::Up, Command::Left),
        (Command::Up, Command::Right),
        (Command::Down, Command::Left),
        (Command::Down, Command::Right),
        (Command::Left, Command::Up),
        (Command::Left, Command::Down),
        (Command::Right, Command::Up),
        (Command::Right, Command::Down),
    ]
}

/// Both tiles of the detour `d` from `loc` are empty.
pub open spec fn detour_open(map: GameMap, loc: Coord, d: (Command, Command)) -> bool {
    match step_command(loc, d.0) {
        Some(first) => match step_command(first, d.1) {
            Some(second) => cell_char(map, first) == ' ' && cell_char(map, second) == ' ',
            None => false,
        },
        None => false,
    }
}

/// The first open detour among those from the `k`-th on.
pub open spec fn first_open_detour(map: GameMap, loc: Coord, k: int) -> Option<(Command, Command)>
    decreases 8 - k,
{
    if k >= 8 || k < 0 {
        None
    } else if detour_open(map, loc, detours()[k]) {
        Some(detours()[k])
    } else {
        first_open_detour(map, loc, k + 1)
    }
}

/// The commands stacked for a detour, the first to play last: bomb, take the detour,
/// then wait twice.
pub open spec fn bomb_plan(d: (Command, Command)) -> Seq<Command> {
    seq![Command::Wait, Command::Wait, d.1, d.0, Command::PlaceBomb]
}

/// How far apart two positions on one row or one column are; `None` when they share
/// neither. The distance is kept as a `u32`.
pub open spec fn coord_gap(a: Coord, b: Coord) -> Option<u32> {
    if a == b {
        Some(0)
    } else if a.col != b.col && a.row != b.row {
        None
    } else {
        let d = if a.col.0 < b.col.0 { b.col.0 - a.col.0 } else if b.col.0 < a.col.0 { a.col.0 - b.col.0 }
            else if a.row.0 < b.row.0 { b.row.0 - a.row.0 } else { a.row.0 - b.row.0 };
        Some(d as u32)
    }
}

/// `loc` lies on the same line as `bomb`, at most `radius` away.
pub open spec fn within_blast(loc: Coord, bomb: Coord, radius: u32) -> bool {
    match coord_gap(loc, bomb) {
        Some(d) => d <= radius,
        None => false,
    }
}

/// Some bomb of `map` could reach `loc`.
pub open spec fn bomb_near(map: GameMap, loc: Coord, radius: u32) -> bool {
    exists|i: int| 0 <= i < map.bombs@.len() && within_blast(loc, #[trigger] map.bombs@[i].position, radius)
}

/// The distance between two positions on one line, or `None` if they share no line.
pub fn coord_distance(a: &Coord, b: &Coord) -> (r: Option<u32>)
    ensures
        r == coord_gap(*a, *b),
{
    if a.col.get() == b.col.get() && a.row.get() == b.row.get() {
        return Some(0);
    }
    if a.col.get() != b.col.get() && a.row.get() != b.row.get() {
        return None;
    }
    let d = if a.col.get() < b.col.get() {
        b.col.get() - a.col.get()
    } else if b.col.get() < a.col.get() {
        a.col.get() - b.col.get()
    } else if a.row.get() < b.row.get() {
        b.row.get() - a.row.get()
    } else {
        a.row.get() - b.row.get()
    };
    Some(d as u32)
}

/// Does a bomb at `bomb` with the given radius reach `loc`?
pub fn in_bomb_range(loc: &Coord, bomb: &Coord, radius: u32) -> (b: bool)
    ensures
        b == within_blast(*loc, *bomb, radius),
{
    match coord_distance(loc, bomb) {
        Some(d) => d <= radius,
        None => false,
    }
}

impl EasyBot {
    pub fn new() -> (b: Self)
        ensures
            b.name@ == "EasyBot"@,
            b.id == 0,
            b.nextmoves@.len() == 0,
            b.map_settings.size == 15,
            b.map_settings.bomb_radius == 2,
    {
        EasyBot {
            name: String::from_str("EasyBot"),
            id: 0,
            nextmoves: Vec::new(),
            map_settings: MapConfig::default(),
        }
    }

    /// The stacked commands of the first open detour from `loc`, if there is one.
    fn safe_to_bomb(&self, map: &GameMap, loc: &Coord) -> (r: Option<Vec<Command>>)
        ensures
            match first_open_detour(*map, *loc, 0) {
                Some(d) => r matches Some(v) && v@ == bomb_plan(d),
                None => r is None,
            },
    {
        let options = [
            (Command::Up, Command::Left),
            (Command::Up, Command::Right),
            (Command::Down, Command::Left),
            (Command::Down, Command::Right),
            (Command::Left, Command::Up),
            (Command::Left, Command::Down),
            (Command::Right, Command::Up),
            (Command::Right, Command::Down),
        ];
        let mut k: usize = 0;
        while k < 8
            invariant
                0 <= k <= 8,
                options@ == detours(),
                first_open_detour(*map, *loc, 0) == first_open_detour(*map, *loc, k as int),
            decreases 8 - k,
        {
            let (m1, m2) = options[k];
            if let Some(loc1) = loc.move_command(m1) {
                if let Some(loc2) = loc1.move_command(m2) {
                    if char_at(map, loc1) == ' ' && char_at(map, loc2) == ' ' {
                        let plan = vec![Command::Wait, Command::Wait, m2, m1, Command::PlaceBomb];
                        proof {
                            assert(plan@ == bomb_plan(detours()[k as int]));
                        }
                        return Some(plan);
                    }
                }
            }
            k = k + 1;
        }
        None
    }

    /// `Left` when a bomb could reach the player, otherwise nothing.
    fn danger_location(&self, map: &GameMap, player_location: &Coord) -> (r: Option<Command>)
        ensures
            r == if bomb_near(*map, *player_location, self.map_settings.bomb_radius as u32) {
                Some(Command::Left)
            } else {
                None
            },
    {
        let radius = self.map_settings.bomb_radius as u32;
        for i in 0..map.bombs.len()
            invariant
                radius == self.map_settings.bomb_radius as u32,
                forall|j: int| 0 <= j < i ==> !within_blast(*player_location, #[trigger] map.bombs@[j].position, radius),
        {
            if in_bomb_range(player_location, &map.bombs[i].position, radius) {
                return Some(Command::Left);
            }
        }
        None
    }

    /// The character of the tile at `location`, or a wall past the end of the grid.
    fn get_cell(&self, map: &GameMap, location: &Coord) -> (c: char)
        ensures
            c == cell_char(*map, *location),
    {
        char_at(map, *location)
    }
}

impl Default for EasyBot {
    fn default() -> (b: Self)
        ensures
            b.name@ == "EasyBot"@,
            b.id == 0,
            b.nextmoves@.len() == 0,
    {
        Self::new()
    }
}

impl Bot for EasyBot {
    fn name(&self) -> (s: String)
        ensures
            s@ == labelled(self.name@, self.id as nat),
    {
        label(&self.name, self.id)
    }

    fn start_game(&mut self, map_settings: &MapConfig, bot_id: usize) -> (ok: bool)
        ensures
            ok,
            final(self).id == bot_id,
            final(self).name == old(self).name,
            final(self).nextmoves == old(self).nextmoves,
            final(self).map_settings.size == map_settings.size,
            final(self).map_settings.bomb_radius == map_settings.bomb_radius,
            final(self).map_settings.bomb_timer == map_settings.bomb_timer,
            final(self).map_settings.endgame == map_settings.endgame,
    {
        self.id = bot_id;
        self.map_settings = map_settings.clone();
        true
    }

    /// Plays the stacked commands first; otherwise steps left when a bomb is near,
    /// bombs when a detour is open, and wanders when there is nothing else to do.
    fn get_move(&mut self, map: &GameMap, player_location: Coord) -> (c: Command)
        ensures
            final(self).name == old(self).name,
            final(self).id == old(self).id,
            final(self).map_settings == old(self).map_settings,
            old(self).nextmoves@.len() > 0 ==> {
                &&& c == old(self).nextmoves@.last()
                &&& final(self).nextmoves@ == old(self).nextmoves@.drop_last()
            },
            old(self).nextmoves@.len() == 0 && bomb_near(*map, player_location, old(self).map_settings.bomb_radius as u32) ==> {
                &&& c == Command::Left
                &&& final(self).nextmoves@.len() == 0
            },
            old(self).nextmoves@.len() == 0 && !bomb_near(*map, player_location, old(self).map_settings.bomb_radius as u32) ==>
                match first_open_detour(*map, player_location, 0) {
                    Some(d) => c == Command::PlaceBomb && final(self).nextmoves@ == bomb_plan(d).drop_last(),
                    None => wander_moves().contains(c) && final(self).nextmoves@.len() == 0,
                },
    {
        if self.nextmoves.len() > 0 {
            return self.nextmoves.pop().unwrap();
        }
        if let Some(runaway) = self.danger_location(map, &player_location) {
            return runaway;
        }
        if let Some(moves) = self.safe_to_bomb(map, &player_location) {
            self.nextmoves = moves;
            return self.nextmoves.pop().unwrap();
        }
        random_wander()
    }
}

} // verus!
