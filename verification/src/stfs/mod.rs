//! STFS, the Xbox 360 package format of CON/LIVE/PIRS song files.
pub mod bytes;
pub mod filesystem;
pub mod utf16;
pub mod header;
pub mod writer;
pub mod texture;
