//! Parser and compositor for Aseprite (`.aseprite` / `.ase`) files.
//!
//! The binary format is decoded directly — header, frames, every chunk type,
//! all three color modes, tilemaps, slices and typed user data — and frames
//! are composited with the same integer blend math Aseprite uses.
//!
//! Input is treated as untrusted: every read is bounds-checked, decompression
//! and recursion are capped (see [`limits`]), and errors carry absolute file
//! offsets.
pub mod atlas;
pub mod composite;
pub mod convert;
pub mod error;
pub mod file;
pub mod grid;
pub mod limits;
pub mod model;
pub mod parse;
pub mod query;
pub mod read;
pub mod text;

pub use error::ParseError;
