use vstd::prelude::*;

verus! {

/// The settings of one game. The board is `size` x `size` tiles.
pub struct MapConfig {
    pub size: usize,
    pub player_names: Vec<String>,
    pub bomb_timer: usize,
    pub bomb_radius: usize,
    pub endgame: usize,
}

impl Clone for MapConfig {
    fn clone(&self) -> (r: Self)
        ensures
            r.size == self.size,
            r.player_names@ == self.player_names@,
            r.bomb_timer == self.bomb_timer,
            r.bomb_radius == self.bomb_radius,
            r.endgame == self.endgame,
    {
        let mut names: Vec<String> = Vec::new();
        for i in 0..self.player_names.len()
            invariant
                names@ == self.player_names@.take(i as int),
        {
            names.push(self.player_names[i].clone());
            proof {
                assert(names@ =~= self.player_names@.take(i + 1));
            }
        }
        proof {
            assert(names@ =~= self.player_names@);
        }
        MapConfig {
            size: self.size,
            player_names: names,
            bomb_timer: self.bomb_timer,
            bomb_radius: self.bomb_radius,
            endgame: self.endgame,
        }
    }
}

impl Default for MapConfig {
    fn default() -> (r: Self)
        ensures
            r.size == 15,
            r.player_names@.len() == 2,
            r.player_names@[0]@ == "Player 1"@,
            r.player_names@[1]@ == "Player 2"@,
            r.bomb_timer == 3,
            r.bomb_radius == 2,
            r.endgame == 100,
    {
        let mut player_names: Vec<String> = Vec::new();
        player_names.push(String::from_str("Player 1"));
        player_names.push(String::from_str("Player 2"));
        MapConfig { size: 15, player_names, bomb_timer: 3, bomb_radius: 2, endgame: 100 }
    }
}

} // verus!
