//! Hard caps applied while parsing untrusted files. Generous for legitimate
//! art, fatal for decompression bombs.
use vstd::prelude::*;

verus! {

/// Maximum canvas dimension (width or height) accepted.
pub const MAX_CANVAS_DIM: u32 = 65_535;

/// Maximum bytes a single cel/tileset image may decompress to (256 MiB).
pub const MAX_IMAGE_BYTES: usize = 268_435_456;

/// Maximum total bytes decompressed across an entire file (1 GiB).
pub const MAX_TOTAL_DECOMPRESSED_BYTES: usize = 1_073_741_824;

/// Maximum nesting depth of user-data property maps.
pub const MAX_PROPERTY_DEPTH: u32 = 128;

/// Maximum palette entries accepted.
pub const MAX_PALETTE_ENTRIES: u32 = 65_536;

/// Maximum tiles in one tileset.
pub const MAX_TILESET_TILES: u32 = 1_048_576;

} // verus!
