use vstd::prelude::*;
use crate::map_config::MapConfig;
use crate::text::{decimal, decimal_string};

verus! {

/// A board side the game supports: odd and between 7 and 20.
pub open spec fn valid_map_size(size: int) -> bool {
    7 <= size <= 20 && size % 2 == 1
}

/// The error for a board of `w` x `h` tiles that has the wrong size:
/// `Invalid map size: <w>x<h>. Must be odd and 7-20`.
pub open spec fn map_size_message(w: usize, h: usize) -> Seq<char> {
    "Invalid map size: "@ + decimal(w as nat) + "x"@ + decimal(h as nat) + ". Must be odd and 7-20"@
}

fn invalid_size_message(w: usize, h: usize) -> (s: String)
    ensures
        s@ == map_size_message(w, h),
{
    proof {
        reveal_strlit("Invalid map size: ");
        reveal_strlit("x");
        reveal_strlit(". Must be odd and 7-20");
    }
    let mut s = String::from_str("Invalid map size: ");
    s.append(decimal_string(w).as_str());
    s.append("x");
    s.append(decimal_string(h).as_str());
    s.append(". Must be odd and 7-20");
    s
}

/// A check that a map configuration can be played.
pub trait MapValidator {
    fn validate(&self, config: &MapConfig) -> Result<(), String>;
}

/// Checks the board size, then hands over to the next validator of the chain, if any.
pub struct MapSizeValidator {
    next: Option<Box<dyn MapValidator>>,
}

impl MapSizeValidator {
    /// There is no validator after this one yet.
    pub closed spec fn is_last(&self) -> bool {
        self.next is None
    }

    pub fn new() -> (v: Self)
        ensures
            v.is_last(),
    {
        Self { next: None }
    }

    /// Appends `next` to the chain.
    pub fn set_next(&mut self, next: Box<dyn MapValidator>)
        ensures
            !final(self).is_last(),
    {
        self.next = Some(next);
    }
}

impl MapValidator for MapSizeValidator {
    fn validate(&self, config: &MapConfig) -> (r: Result<(), String>)
        ensures
            !valid_map_size(config.size as int) ==> (r matches Err(e) && e@ == map_size_message(config.size, config.size)),
            valid_map_size(config.size as int) && self.is_last() ==> r is Ok,
    {
        let w = config.size;
        let h = config.size;
        if w < 7 || h < 7 || w > 20 || h > 20 || w % 2 == 0 || h % 2 == 0 {
            return Err(invalid_size_message(w, h));
        }
        match &self.next {
            Some(next_validator) => next_validator.validate(config),
            None => Ok(()),
        }
    }
}

/// Builds the chain of validators a map configuration goes through.
pub struct MapValidatorChainFactory;

impl MapValidatorChainFactory {
    pub fn create() -> (v: MapSizeValidator)
        ensures
            v.is_last(),
    {
        MapSizeValidator::new()
    }

    /// `Ok` exactly when the board size is odd and between 7 and 20.
    pub fn validate(config: &MapConfig) -> (r: Result<(), String>)
        ensures
            r is Ok <==> valid_map_size(config.size as int),
            r matches Err(e) ==> e@ == map_size_message(config.size, config.size),
    {
        let chain = Self::create();
        chain.validate(config)
    }
}

} // verus!
