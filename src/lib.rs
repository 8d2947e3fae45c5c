//! A dice-driven race between four fish and a boat on a river of thirteen
//! places, with a benchmark that plays many games from each starting layout.

pub mod bench;
pub mod color;
pub mod fische;
pub mod game;

pub use bench::{benchmark, distinct_layouts, fisch_pattern, layout_of, run_trial, tally, Tally};
pub use color::{d6, Color, Winner};
pub use fische::{Fisch, Fische};
pub use game::Game;
