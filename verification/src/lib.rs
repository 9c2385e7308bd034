//! Song-library tooling for Rock Band style charts: DTA and song.ini metadata,
//! STFS (CON/LIVE/PIRS) packages, Xbox album-art textures and MIDI charts.
use vstd::prelude::*;

pub mod text;
pub mod dta;
pub mod song_ini;
pub mod song_ini_read_back;
pub mod stfs;
pub mod midi;
pub mod updater;
pub mod rhythmverse;
pub mod commands;
pub mod library;

verus! {

} // verus!
