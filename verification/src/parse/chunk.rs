//! Chunk envelope. Traversal always seeks to `offset + size` afterward, so
//! unknown chunk types and unread trailing fields are skipped by construction.
use crate::error::ParseError;
use crate::read::{eof_at, fits, le_u16, le_u32, Reader};
use vstd::prelude::*;

verus! {

/// Old palette chunk, 8-bit components.
pub const OLD_PALETTE_8: u16 = 0x0004;
/// Old palette chunk, 6-bit components.
pub const OLD_PALETTE_6: u16 = 0x0011;
pub const LAYER: u16 = 0x2004;
pub const CEL: u16 = 0x2005;
pub const CEL_EXTRA: u16 = 0x2006;
pub const COLOR_PROFILE: u16 = 0x2007;
pub const EXTERNAL_FILES: u16 = 0x2008;
/// Deprecated.
pub const MASK: u16 = 0x2016;
/// Never used.
pub const PATH: u16 = 0x2017;
pub const TAGS: u16 = 0x2018;
pub const PALETTE: u16 = 0x2019;
pub const USER_DATA: u16 = 0x2020;
pub const SLICE: u16 = 0x2022;
pub const TILESET: u16 = 0x2023;

/// A chunk's size and type.
#[derive(Debug, Clone, Copy, PartialEq, Eq, Structural)]
pub struct ChunkHeader {
    /// Absolute offset of the chunk (start of its size field).
    pub offset: usize,
    /// Total chunk size including the 6 header bytes.
    pub size: u32,
    pub kind: u16,
}

impl ChunkHeader {
    /// Absolute offset one past the chunk's last byte.
    pub open spec fn spec_end(self) -> int {
        self.offset + self.size
    }

    /// Absolute offset one past the chunk's last byte.
    pub fn end(&self) -> (r: usize)
        requires
            self.spec_end() <= usize::MAX,
        ensures
            r == self.spec_end(),
    {
        self.offset + self.size as usize
    }
}

/// Outcome of reading a chunk header at `at` inside a frame ending at
/// `frame_end`.
pub open spec fn spec_chunk_header(s: Seq<u8>, at: int, frame_end: int) -> Result<
    ChunkHeader,
    ParseError,
> {
    if !fits(s, at, 4) {
        Err(eof_at(s, at, 4))
    } else if !fits(s, at + 4, 2) {
        Err(eof_at(s, at + 4, 2))
    } else {
        let size = le_u32(s, at);
        let kind = le_u16(s, at + 4);
        if size < 6 {
            Err(ParseError::Invalid { offset: at as usize, what: "chunk size (< 6 bytes)" })
        } else if at + size > usize::MAX {
            Err(ParseError::Invalid { offset: at as usize, what: "chunk size (overflow)" })
        } else if at + size > frame_end {
            Err(ParseError::Invalid { offset: at as usize, what: "chunk size (overruns frame)" })
        } else {
            Ok(ChunkHeader { offset: at as usize, size, kind })
        }
    }
}

/// Reads a chunk header and checks that it fits inside `frame_end`
/// (absolute). Leaves the reader at the chunk payload.
pub fn parse_chunk_header(r: &mut Reader, frame_end: usize) -> (res: Result<
    ChunkHeader,
    ParseError,
>)
    ensures
        final(r).input() == old(r).input(),
        res == spec_chunk_header(old(r).input(), old(r).cursor(), frame_end as int),
        res is Ok ==> final(r).cursor() == old(r).cursor() + 6,
{
    let offset = r.pos();
    let size = r.u32()?;
    let kind = r.u16()?;
    if size < 6 {
        return Err(ParseError::Invalid { offset, what: "chunk size (< 6 bytes)" });
    }
    let end = match offset.checked_add(size as usize) {
        Some(e) => e,
        None => {
            return Err(ParseError::Invalid { offset, what: "chunk size (overflow)" });
        },
    };
    if end > frame_end {
        return Err(ParseError::Invalid { offset, what: "chunk size (overruns frame)" });
    }
    Ok(ChunkHeader { offset, size, kind })
}

} // verus!
