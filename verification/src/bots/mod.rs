pub mod board;
pub mod template_bot;
pub mod passive_bot;
pub mod random_bot;
pub mod easy_bot;
pub mod gerhard_bot;
pub mod cuddle_bot;
pub mod old_school;
pub mod scout_bot;
pub mod registry;
pub mod fuzzy;
pub mod ml_bot;
pub mod apex_bot;
pub mod gz;
pub mod gz_bot;
pub mod neural_bot;
