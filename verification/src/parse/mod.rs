//! Binary decoding of the file structure, one module per chunk kind.
use vstd::prelude::*;

pub mod cel;
pub mod chunk;
pub mod frame;
pub mod header;
pub mod layer;
pub mod misc;
pub mod palette;
pub mod user_data;
pub mod slice;
pub mod tags;
pub mod tileset;

verus! {

/// File header magic.
pub const FILE_MAGIC: u16 = 0xA5E0;

/// Frame header magic.
pub const FRAME_MAGIC: u16 = 0xF1FA;

/// Size of the file header; parsing always seeks here afterward.
pub const HEADER_SIZE: usize = 128;

/// Size of a frame header.
pub const FRAME_HEADER_SIZE: usize = 16;

} // verus!
