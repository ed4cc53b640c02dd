//! A typing test for the terminal: the state machine, scoring and text
//! generation, with their contracts.

pub mod tally;
pub mod text;
pub mod engine;
pub mod stats;
pub mod rng;
pub mod words;
pub mod words_data;
pub mod number;
pub mod datetime;
pub mod terminal;
pub mod render;
pub mod theme;
pub mod history;
pub mod summary;
pub mod report;
pub mod cli;
pub mod session;
