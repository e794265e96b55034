//! A rules engine for the board game Go: stone placement, groups and their
//! liberties, captures, move legality (suicide and repeated positions), undo
//! by replay, and territory scoring.

pub mod board;
pub mod fill;
pub mod game;
pub mod grid;
pub mod laws;
pub mod loc;
pub mod scoring;
pub mod stone;
pub mod text;

pub use board::Board;
pub use loc::{Loc, Move};
pub use scoring::GameResult;
pub use stone::{Color, Player};
