//! A rules engine for the game of Go: board, groups and liberties, captures,
//! suicide, simple ko and positional superko, territory and area scoring, and a
//! game state machine with undo.

pub mod board;
pub mod group;
pub mod rules;
pub mod game;
