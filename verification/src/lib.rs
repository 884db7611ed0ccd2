//! Tools for Wordle score grids whose guesses are hidden: scoring, the
//! independent-row filter, the sequential hard-mode filter, and synthetic
//! games to try them on.
pub mod word;
pub mod score;
pub mod text;
pub mod error;
pub mod parse;
pub mod dictionary;
pub mod prefilter;
pub mod hard_mode;
pub mod progress;
pub mod trial;
pub mod api;
pub mod cli;
pub mod laws;
