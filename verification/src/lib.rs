//! An 11x11 Hex engine: bitboards, tree search, self play and rendering.

pub mod agent;
mod arena;
pub mod bb;
pub mod bits;
pub mod board_laws;
mod clock;
pub mod game;
pub mod game_laws;
pub mod hex;
pub mod mcts;
pub mod mcts2;
pub mod mcts_laws;
pub mod nn;
pub mod parse;
pub mod pretty;
pub mod pretty_laws;
pub mod rank;
mod rng;
pub mod text;
pub mod ui;
pub mod ui_laws;
pub mod util;
pub mod xpm;
pub mod xpm_laws;
