//! Tileset chunk (0x2023).
use crate::error::ParseError;
use crate::limits::{MAX_IMAGE_BYTES, MAX_TILESET_TILES, MAX_TOTAL_DECOMPRESSED_BYTES};
use crate::model::{ColorDepth, Tileset, TilesetV, UserData, UserDataV};
use crate::parse::cel::{inflate_exact, spec_inflate, InflateBudget};
use crate::read::{eof_at, fits, le_u16, le_u32, read_string_at, skip_err, Reader};
use vstd::prelude::*;

verus! {

broadcast use crate::read::lemma_cursor_nonneg;

/// Outcome of a tileset chunk at `at` with the budget at `total`: the budget
/// after, and the tileset with the offset after it, or the error. Tile
/// sizes must be non-zero and the tile count at most `MAX_TILESET_TILES`.
/// Embedded pixels form a vertical strip `tile_width` wide and
/// `tile_height * num_tiles` tall, zlib-compressed; a data end past
/// `usize::MAX` is reported like an overlong relative seek.
pub open spec fn spec_tileset(s: Seq<u8>, at: int, depth: ColorDepth, total: int) -> (
    int,
    Result<(TilesetV, int), ParseError>,
) {
    if !fits(s, at, 4) {
        (total, Err(eof_at(s, at, 4)))
    } else if !fits(s, at + 4, 4) {
        (total, Err(eof_at(s, at + 4, 4)))
    } else if !fits(s, at + 8, 4) {
        (total, Err(eof_at(s, at + 8, 4)))
    } else if !fits(s, at + 12, 2) {
        (total, Err(eof_at(s, at + 12, 2)))
    } else if !fits(s, at + 14, 2) {
        (total, Err(eof_at(s, at + 14, 2)))
    } else if le_u16(s, at + 12) == 0 || le_u16(s, at + 14) == 0 {
        (total, Err(ParseError::Invalid { offset: at as usize, what: "tileset tile size" }))
    } else if le_u32(s, at + 8) > MAX_TILESET_TILES {
        (total, Err(ParseError::LimitExceeded { offset: at as usize, what: "tileset tile count" }))
    } else if !fits(s, at + 16, 2) {
        (total, Err(eof_at(s, at + 16, 2)))
    } else if !fits(s, at + 18, 14) {
        (total, Err(skip_err(s, at + 18, 14)))
    } else {
        let flags = le_u32(s, at + 4);
        let num_tiles = le_u32(s, at + 8);
        let tw = le_u16(s, at + 12);
        let th = le_u16(s, at + 14);
        match read_string_at(s, at + 32) {
            Err(e) => (total, Err(e)),
            Ok((name, name_end)) => if flags % 2 == 1 && !fits(s, name_end, 8) {
                (total, Err(eof_at(s, name_end + 4 * ((s.len() - name_end) / 4), 4)))
            } else {
                let external = if flags % 2 == 1 {
                    Some((le_u32(s, name_end), le_u32(s, name_end + 4)))
                } else {
                    None
                };
                let p = if flags % 2 == 1 {
                    name_end + 8
                } else {
                    name_end
                };
                let base = TilesetV {
                    id: le_u32(s, at),
                    flags,
                    num_tiles,
                    tile_width: tw,
                    tile_height: th,
                    base_index: le_u16(s, at + 16) as i16,
                    name,
                    pixels: None,
                    external,
                    user_data: UserDataV::empty(),
                    tile_user_data: Seq::empty(),
                };
                if (flags / 2) % 2 == 1 {
                    if !fits(s, p, 4) {
                        (total, Err(eof_at(s, p, 4)))
                    } else if p + 4 + le_u32(s, p) > usize::MAX {
                        (
                            total,
                            Err(
                                ParseError::UnexpectedEof {
                                    offset: (p + 4) as usize,
                                    needed: le_u32(s, p) as usize,
                                },
                            ),
                        )
                    } else {
                        let expected = tw * th * num_tiles * depth.bpp_bytes();
                        if expected > MAX_IMAGE_BYTES {
                            (
                                total,
                                Err(
                                    ParseError::LimitExceeded {
                                        offset: (p + 4) as usize,
                                        what: "cel image size",
                                    },
                                ),
                            )
                        } else {
                            let data_end = p + 4 + le_u32(s, p);
                            let (t2, inflated) = spec_inflate(s, p + 4, data_end, expected, total);
                            match inflated {
                                Err(e) => (t2, Err(e)),
                                Ok(px) => (t2, Ok((TilesetV { pixels: Some(px), ..base }, data_end))),
                            }
                        }
                    }
                } else {
                    (total, Ok((base, p)))
                }
            },
        }
    }
}

proof fn lemma_strip_size(tw: u16, th: u16, n: u32, b: u64)
    requires
        n <= MAX_TILESET_TILES,
        b <= 4,
    ensures
        tw as int * th as int <= 65535 * 65535,
        tw as int * th as int * n as int <= 65535 * 65535 * 1048576,
        tw as int * th as int * n as int * b as int <= 65535 * 65535 * 1048576 * 4,
{
    assert(tw as int * th as int <= 65535 * 65535) by (nonlinear_arith)
        requires
            tw <= 65535,
            th <= 65535,
    ;
    assert(tw as int * th as int * n as int <= 65535 * 65535 * 1048576) by (nonlinear_arith)
        requires
            tw as int * th as int <= 65535 * 65535,
            0 <= tw as int * th as int,
            n <= 1048576,
    ;
    assert(tw as int * th as int * n as int * b as int <= 65535 * 65535 * 1048576 * 4)
        by (nonlinear_arith)
        requires
            tw as int * th as int * n as int <= 65535 * 65535 * 1048576,
            0 <= tw as int * th as int * n as int,
            b <= 4,
    ;
}

/// Parses a tileset chunk, decompressing embedded tile pixels under the
/// budget.
pub fn parse_tileset(r: &mut Reader, depth: ColorDepth, budget: &mut InflateBudget) -> (res: Result<
    Tileset,
    ParseError,
>)
    requires
        old(budget).total <= usize::MAX - MAX_IMAGE_BYTES,
    ensures
        final(r).input() == old(r).input(),
        final(budget).total == spec_tileset(
            old(r).input(),
            old(r).cursor(),
            depth,
            old(budget).total as int,
        ).0,
        match spec_tileset(old(r).input(), old(r).cursor(), depth, old(budget).total as int).1 {
            Ok((t, end)) => res matches Ok(ts) && ts@ == t && final(r).cursor() == end,
            Err(e) => res == Err::<Tileset, ParseError>(e),
        },
{
    let start = r.pos();
    let id = r.u32()?;
    let flags = r.u32()?;
    let num_tiles = r.u32()?;
    let tile_width = r.u16()?;
    let tile_height = r.u16()?;
    if tile_width == 0 || tile_height == 0 {
        return Err(ParseError::Invalid { offset: start, what: "tileset tile size" });
    }
    if num_tiles > MAX_TILESET_TILES {
        return Err(ParseError::LimitExceeded { offset: start, what: "tileset tile count" });
    }
    let base_index = r.i16()?;
    r.skip(14)?;
    let name = r.string()?;
    assert((flags & 1 != 0) == (flags % 2 == 1)) by (bit_vector);
    assert((flags & 2 != 0) == ((flags / 2) % 2 == 1)) by (bit_vector);
    let external = if flags & 1 != 0 {
        let a = r.u32()?;
        let b = r.u32()?;
        Some((a, b))
    } else {
        None
    };
    let pixels = if flags & 2 != 0 {
        let data_len = r.u32()?;
        let data_start = r.pos();
        let data_end = match data_start.checked_add(data_len as usize) {
            Some(e) => e,
            None => {
                return Err(ParseError::UnexpectedEof { offset: data_start, needed: data_len as usize });
            },
        };
        let bpp = depth.bytes_per_pixel() as u64;
        proof {
            lemma_strip_size(tile_width, tile_height, num_tiles, bpp);
        }
        let expected: u64 = tile_width as u64 * tile_height as u64 * num_tiles as u64 * bpp;
        if expected > MAX_IMAGE_BYTES as u64 {
            return Err(ParseError::LimitExceeded { offset: data_start, what: "cel image size" });
        }
        Some(inflate_exact(r, data_end, expected as usize, budget)?)
    } else {
        None
    };
    let ts = Tileset {
        id,
        flags,
        num_tiles,
        tile_width,
        tile_height,
        base_index,
        name,
        pixels,
        external,
        user_data: UserData::default(),
        tile_user_data: Vec::new(),
    };
    assert(ts@.tile_user_data =~= Seq::<UserDataV>::empty());
    Ok(ts)
}

} // verus!
