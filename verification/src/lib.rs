//! Reproducible instances of a grid-rewriting puzzle, a versioned grid engine
//! that replays a solver's answer, and the score of the outcome.

pub mod buffer;
pub mod generator;
pub mod model;
pub mod mt;
pub mod parse;
pub mod round_trip;
pub mod score;
pub mod text;
pub mod timeline;
