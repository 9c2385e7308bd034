//! Rock Band MIDI charts.
pub mod types;
pub mod parser;
