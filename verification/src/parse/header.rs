//! File header.
use crate::error::ParseError;
use crate::limits::MAX_CANVAS_DIM;
use crate::model::{depth_of_bpp, ColorDepth, Header};
use crate::parse::{FILE_MAGIC, HEADER_SIZE};
use crate::read::{eof_at, fits, le_u16, le_u32, skip_err, Reader};
use vstd::prelude::*;

verus! {

/// The first problem met while reading a header at `p`, if any.
pub open spec fn header_error(s: Seq<u8>, p: int) -> Option<ParseError> {
    if !fits(s, p, 4) {
        Some(eof_at(s, p, 4))
    } else if !fits(s, p + 4, 2) {
        Some(eof_at(s, p + 4, 2))
    } else if le_u16(s, p + 4) != FILE_MAGIC {
        Some(
            ParseError::BadMagic {
                offset: (p + 4) as usize,
                expected: FILE_MAGIC,
                found: le_u16(s, p + 4),
            },
        )
    } else if !fits(s, p + 6, 2) {
        Some(eof_at(s, p + 6, 2))
    } else if le_u16(s, p + 6) == 0 {
        Some(ParseError::Invalid { offset: 6, what: "frame count (zero)" })
    } else if !fits(s, p + 8, 2) {
        Some(eof_at(s, p + 8, 2))
    } else if !fits(s, p + 10, 2) {
        Some(eof_at(s, p + 10, 2))
    } else if le_u16(s, p + 8) == 0 || le_u16(s, p + 10) == 0 {
        Some(ParseError::Invalid { offset: 8, what: "canvas size (zero dimension)" })
    } else if !fits(s, p + 12, 2) {
        Some(eof_at(s, p + 12, 2))
    } else if depth_of_bpp(le_u16(s, p + 12)) is None {
        Some(
            ParseError::Invalid {
                offset: (p + 12) as usize,
                what: "color depth (expected 8/16/32 bpp)",
            },
        )
    } else if !fits(s, p + 14, 4) {
        Some(eof_at(s, p + 14, 4))
    } else if !fits(s, p + 18, 2) {
        Some(eof_at(s, p + 18, 2))
    } else if !fits(s, p + 20, 8) {
        Some(skip_err(s, p + 20, 8))
    } else if !fits(s, p + 28, 1) {
        Some(eof_at(s, p + 28, 1))
    } else if !fits(s, p + 29, 3) {
        Some(skip_err(s, p + 29, 3))
    } else if !fits(s, p + 32, 2) {
        Some(eof_at(s, p + 32, 2))
    } else if !fits(s, p + 34, 1) {
        Some(eof_at(s, p + 34, 1))
    } else if !fits(s, p + 35, 1) {
        Some(eof_at(s, p + 35, 1))
    } else if !fits(s, p + 36, 2) {
        Some(eof_at(s, p + 36, 2))
    } else if !fits(s, p + 38, 2) {
        Some(eof_at(s, p + 38, 2))
    } else if !fits(s, p + 40, 2) {
        Some(eof_at(s, p + 40, 2))
    } else if !fits(s, p + 42, 2) {
        Some(eof_at(s, p + 42, 2))
    } else if s.len() < 128 {
        Some(ParseError::UnexpectedEof { offset: s.len() as usize, needed: (128 - s.len()) as usize })
    } else {
        None
    }
}

/// The header stored at `p`, normalized: transparent index 0 unless
/// indexed, a color count of 0 read as 256, a pixel ratio with a zero side
/// read as 1:1.
pub open spec fn header_at(s: Seq<u8>, p: int) -> Header {
    let depth = depth_of_bpp(le_u16(s, p + 12)).unwrap();
    let pw = s[p + 34];
    let ph = s[p + 35];
    Header {
        frames: le_u16(s, p + 6),
        width: le_u16(s, p + 8),
        height: le_u16(s, p + 10),
        color_depth: depth,
        flags: le_u32(s, p + 14),
        default_frame_duration_ms: le_u16(s, p + 18),
        transparent_index: if depth == ColorDepth::Indexed {
            s[p + 28]
        } else {
            0
        },
        num_colors: if le_u16(s, p + 32) == 0 {
            256
        } else {
            le_u16(s, p + 32)
        },
        pixel_ratio: if pw == 0 || ph == 0 {
            (1u8, 1u8)
        } else {
            (pw, ph)
        },
        grid_x: le_u16(s, p + 36) as i16,
        grid_y: le_u16(s, p + 38) as i16,
        grid_width: le_u16(s, p + 40),
        grid_height: le_u16(s, p + 42),
    }
}

/// Parses the 128-byte header and leaves the reader at offset 128 (the
/// first frame), whatever the reserved trailing bytes hold.
pub fn parse_header(r: &mut Reader) -> (res: Result<Header, ParseError>)
    ensures
        final(r).input() == old(r).input(),
        match header_error(old(r).input(), old(r).cursor()) {
            Some(e) => res == Err::<Header, ParseError>(e),
            None => res == Ok::<Header, ParseError>(header_at(old(r).input(), old(r).cursor()))
                && final(r).cursor() == HEADER_SIZE,
        },
{
    let ghost s = r.input();
    let ghost p = r.cursor();
    let _file_size = r.u32()?;
    let magic_offset = r.pos();
    let magic = r.u16()?;
    if magic != FILE_MAGIC {
        return Err(ParseError::BadMagic { offset: magic_offset, expected: FILE_MAGIC, found: magic });
    }
    let frames = r.u16()?;
    if frames == 0 {
        return Err(ParseError::Invalid { offset: 6, what: "frame count (zero)" });
    }
    let width = r.u16()?;
    let height = r.u16()?;
    if width == 0 || height == 0 {
        return Err(ParseError::Invalid { offset: 8, what: "canvas size (zero dimension)" });
    }
    if width as u32 > MAX_CANVAS_DIM || height as u32 > MAX_CANVAS_DIM {
        return Err(ParseError::LimitExceeded { offset: 8, what: "canvas size" });
    }
    let depth_offset = r.pos();
    let bpp = r.u16()?;
    let color_depth = match ColorDepth::from_bpp(bpp) {
        Some(d) => d,
        None => {
            return Err(
                ParseError::Invalid {
                    offset: depth_offset,
                    what: "color depth (expected 8/16/32 bpp)",
                },
            );
        },
    };
    let flags = r.u32()?;
    let default_frame_duration_ms = r.u16()?;
    r.skip(8)?;
    let mut transparent_index = r.u8()?;
    if color_depth != ColorDepth::Indexed {
        transparent_index = 0;
    }
    r.skip(3)?;
    let mut num_colors = r.u16()?;
    if num_colors == 0 {
        num_colors = 256;
    }
    let pixel_width = r.u8()?;
    let pixel_height = r.u8()?;
    let pixel_ratio = if pixel_width == 0 || pixel_height == 0 {
        (1u8, 1u8)
    } else {
        (pixel_width, pixel_height)
    };
    let grid_x = r.i16()?;
    let grid_y = r.i16()?;
    let grid_width = r.u16()?;
    let grid_height = r.u16()?;
    r.seek(HEADER_SIZE)?;
    let h = Header {
        frames,
        width,
        height,
        color_depth,
        flags,
        default_frame_duration_ms,
        transparent_index,
        num_colors,
        pixel_ratio,
        grid_x,
        grid_y,
        grid_width,
        grid_height,
    };
    assert(h == header_at(s, p));
    Ok(h)
}

} // verus!
