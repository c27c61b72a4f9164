//! A bomberman game engine with bots, verified with Verus.
pub mod coord;
pub mod cell;
pub mod command;
pub mod grid;
pub mod shrink;
pub mod map_config;
pub mod validator;
pub mod player;
pub mod grid_factory;
pub mod bomb;
pub mod map;
pub mod commands;
pub mod bomb_processor;
pub mod bot;
pub mod game;
pub mod game_result;
pub mod replay;
pub mod text;
pub mod bots;
