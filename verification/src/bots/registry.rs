use vstd::prelude::*;
use crate::bot::Bot;
use crate::bots::cuddle_bot::CuddleBot;
use crate::bots::easy_bot::EasyBot;
use crate::bots::gerhard_bot::GerhardBot;
use crate::bots::gz_bot::GzBot;
use crate::bots::old_school::OldSchool;
use crate::bots::passive_bot::PassiveBot;
use crate::bots::random_bot::RandomBot;
use crate::bots::scout_bot::ScoutBot;
use crate::bots::template_bot::TemplateBot;

verus! {

/// A way to make a fresh bot of one kind.
#[derive(Clone, Copy, Debug, PartialEq, Eq, Structural)]
pub enum BotConstructor {
    Cuddle,
    Easy,
    Gerhard,
    Gz,
    OldSchool,
    Passive,
    Random,
    Scout,
    Template,
}

/// Every kind of bot on offer, in registration order.
pub open spec fn registered() -> Seq<BotConstructor> {
    seq![
        BotConstructor::Cuddle,
        BotConstructor::Easy,
        BotConstructor::Gerhard,
        BotConstructor::Gz,
        BotConstructor::OldSchool,
        BotConstructor::Passive,
        BotConstructor::Random,
        BotConstructor::Scout,
        BotConstructor::Template,
    ]
}

/// The name a kind of bot is registered under.
pub open spec fn kind_name(kind: BotConstructor) -> Seq<char> {
    match kind {
        BotConstructor::Cuddle => "CuddleBot"@,
        BotConstructor::Easy => "EasyBot"@,
        BotConstructor::Gerhard => "GerhardBot"@,
        BotConstructor::Gz => "GzBot"@,
        BotConstructor::OldSchool => "OldSchool"@,
        BotConstructor::Passive => "PassiveBot"@,
        BotConstructor::Random => "RandomBot"@,
        BotConstructor::Scout => "ScoutBot"@,
        BotConstructor::Template => "TemplateBot"@,
    }
}

impl BotConstructor {
    /// A fresh bot of this kind, as its `new` makes it.
    pub fn construct(&self) -> Box<dyn Bot> {
        match self {
            BotConstructor::Cuddle => Box::new(CuddleBot::new()),
            BotConstructor::Easy => Box::new(EasyBot::new()),
            BotConstructor::Gerhard => Box::new(GerhardBot::new()),
            BotConstructor::Gz => Box::new(GzBot::new()),
            BotConstructor::OldSchool => Box::new(OldSchool::new()),
            BotConstructor::Passive => Box::new(PassiveBot::new()),
            BotConstructor::Random => Box::new(RandomBot::new()),
            BotConstructor::Scout => Box::new(ScoutBot::new()),
            BotConstructor::Template => Box::new(TemplateBot::new()),
        }
    }

    /// The name this kind is registered under.
    pub fn kind_name(&self) -> (s: String)
        ensures
            s@ == kind_name(*self),
    {
        match self {
            BotConstructor::Cuddle => String::from_str("CuddleBot"),
            BotConstructor::Easy => String::from_str("EasyBot"),
            BotConstructor::Gerhard => String::from_str("GerhardBot"),
            BotConstructor::Gz => String::from_str("GzBot"),
            BotConstructor::OldSchool => String::from_str("OldSchool"),
            BotConstructor::Passive => String::from_str("PassiveBot"),
            BotConstructor::Random => String::from_str("RandomBot"),
            BotConstructor::Scout => String::from_str("ScoutBot"),
            BotConstructor::Template => String::from_str("TemplateBot"),
        }
    }
}

/// A constructor for every registered kind of bot.
pub fn available_bots() -> (v: Vec<BotConstructor>)
    ensures
        v@ == registered(),
{
    let v = vec![
        BotConstructor::Cuddle,
        BotConstructor::Easy,
        BotConstructor::Gerhard,
        BotConstructor::Gz,
        BotConstructor::OldSchool,
        BotConstructor::Passive,
        BotConstructor::Random,
        BotConstructor::Scout,
        BotConstructor::Template,
    ];
    proof {
        assert(v@ =~= registered());
    }
    v
}

/// The registered names, one per available bot and in the same order.
pub fn get_bot_names() -> (names: Vec<String>)
    ensures
        names@.len() == registered().len(),
        forall|i: int| 0 <= i < names@.len() ==> (#[trigger] names@[i])@ == kind_name(registered()[i]),
{
    let bots = available_bots();
    let mut names: Vec<String> = Vec::new();
    for i in 0..bots.len()
        invariant
            bots@ == registered(),
            names@.len() == i,
            forall|j: int| 0 <= j < i ==> (#[trigger] names@[j])@ == kind_name(registered()[j]),
    {
        names.push(bots[i].kind_name());
    }
    names
}

/// How many bots are registered.
pub fn bot_count() -> (n: usize)
    ensures
        n == registered().len(),
{
    available_bots().len()
}

/// No two registered bots share a name.
pub proof fn lemma_registered_names_unique()
    ensures
        forall|i: int, j: int| 0 <= i < j < registered().len()
            ==> kind_name(#[trigger] registered()[i]) != kind_name(#[trigger] registered()[j]),
{
    reveal_strlit("CuddleBot");
    reveal_strlit("EasyBot");
    reveal_strlit("GerhardBot");
    reveal_strlit("GzBot");
    reveal_strlit("OldSchool");
    reveal_strlit("PassiveBot");
    reveal_strlit("RandomBot");
    reveal_strlit("ScoutBot");
    reveal_strlit("TemplateBot");
    assert forall|i: int, j: int| 0 <= i < j < registered().len()
        implies kind_name(#[trigger] registered()[i]) != kind_name(#[trigger] registered()[j]) by {
        let a = kind_name(registered()[i]);
        let b = kind_name(registered()[j]);
        assert(a.len() != b.len() || a[0] != b[0]);
    }
}

} // verus!
