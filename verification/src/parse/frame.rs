//! Frame header.
use crate::error::ParseError;
use crate::model::FrameHeader;
use crate::parse::FRAME_MAGIC;
use crate::read::{eof_at, fits, le_u16, le_u32, skip_err, Reader};
use vstd::prelude::*;

verus! {

/// The chunk count a frame header records: the old WORD, unless it
/// saturated at 0xFFFF and the newer DWORD is non-zero.
pub open spec fn resolved_chunks(old_chunks: u16, new_chunks: u32) -> u32 {
    if old_chunks == 0xFFFF && new_chunks != 0 {
        new_chunks
    } else {
        old_chunks as u32
    }
}

/// Outcome of reading a frame header at `at`.
pub open spec fn spec_frame_header(s: Seq<u8>, at: int) -> Result<FrameHeader, ParseError> {
    if !fits(s, at, 4) {
        Err(eof_at(s, at, 4))
    } else if !fits(s, at + 4, 2) {
        Err(eof_at(s, at + 4, 2))
    } else if le_u16(s, at + 4) != FRAME_MAGIC {
        Err(
            ParseError::BadMagic {
                offset: (at + 4) as usize,
                expected: FRAME_MAGIC,
                found: le_u16(s, at + 4),
            },
        )
    } else if !fits(s, at + 6, 2) {
        Err(eof_at(s, at + 6, 2))
    } else if !fits(s, at + 8, 2) {
        Err(eof_at(s, at + 8, 2))
    } else if !fits(s, at + 10, 2) {
        Err(skip_err(s, at + 10, 2))
    } else if !fits(s, at + 12, 4) {
        Err(eof_at(s, at + 12, 4))
    } else if le_u32(s, at) < 16 {
        Err(
            ParseError::Invalid {
                offset: at as usize,
                what: "frame size (smaller than frame header)",
            },
        )
    } else {
        Ok(
            FrameHeader {
                frame_bytes: le_u32(s, at),
                num_chunks: resolved_chunks(le_u16(s, at + 6), le_u32(s, at + 12)),
                duration_ms: le_u16(s, at + 8),
            },
        )
    }
}

/// Parses a 16-byte frame header, resolving the old/new chunk-count rule.
/// Leaves the reader at the first chunk.
pub fn parse_frame_header(r: &mut Reader) -> (res: Result<FrameHeader, ParseError>)
    ensures
        final(r).input() == old(r).input(),
        res == spec_frame_header(old(r).input(), old(r).cursor()),
        res is Ok ==> final(r).cursor() == old(r).cursor() + 16,
{
    let frame_start = r.pos();
    let frame_bytes = r.u32()?;
    let magic_offset = r.pos();
    let magic = r.u16()?;
    if magic != FRAME_MAGIC {
        return Err(ParseError::BadMagic { offset: magic_offset, expected: FRAME_MAGIC, found: magic });
    }
    let old_chunks = r.u16()?;
    let duration_ms = r.u16()?;
    r.skip(2)?;
    let new_chunks = r.u32()?;
    let num_chunks = if old_chunks == 0xFFFF && new_chunks != 0 {
        new_chunks
    } else {
        old_chunks as u32
    };
    if (frame_bytes as usize) < r.pos() - frame_start {
        return Err(
            ParseError::Invalid {
                offset: frame_start,
                what: "frame size (smaller than frame header)",
            },
        );
    }
    Ok(FrameHeader { frame_bytes, num_chunks, duration_ms })
}

} // verus!
