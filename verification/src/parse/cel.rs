//! Cel chunk (0x2005), including zlib decompression under limits.
use crate::error::ParseError;
use crate::limits::{MAX_IMAGE_BYTES, MAX_TOTAL_DECOMPRESSED_BYTES};
use crate::model::{
    Cel, CelContent, CelContentV, CelImage, CelTilemap, CelV, ColorDepth, Tile, UserData,
    UserDataV,
};
use crate::read::{eof_at, fits, le_u16, le_u32, skip_err, Reader};
use vstd::prelude::*;
use vstd::std_specs::bits::u32_trailing_zeros;

verus! {

broadcast use crate::read::lemma_cursor_nonneg;

/// What zlib decompression with an output cap of `limit` bytes yields for
/// `input`: the decompressed bytes, or `None` when the stream is malformed or
/// does not fit under the cap.
pub uninterp spec fn zlib_inflate(input: Seq<u8>, limit: usize) -> Option<Seq<u8>>;

/// Decompresses a zlib stream with an output cap.
///
/// Calls `miniz_oxide::inflate::decompress_to_vec_zlib_with_limit`. The
/// contract claims that its output is a function of the input bytes and the
/// cap (named `zlib_inflate`), and that a successful output never exceeds
/// the cap (the function grows its buffer to at most the cap).
#[verifier::external_body]
fn decompress_zlib(input: &[u8], limit: usize) -> (r: Option<Vec<u8>>)
    ensures
        match r {
            Some(v) => zlib_inflate(input@, limit) == Some(v@),
            None => zlib_inflate(input@, limit) is None,
        },
        r matches Some(v) ==> v@.len() <= limit,
{
    miniz_oxide::inflate::decompress_to_vec_zlib_with_limit(input, limit).ok()
}

/// Running decompression budget across one file (zip-bomb guard).
pub struct InflateBudget {
    pub total: usize,
}

impl Default for InflateBudget {
    fn default() -> (r: Self)
        ensures
            r.total == 0,
    {
        InflateBudget { total: 0 }
    }
}

/// Budget after charging `bytes` at `total`, and whether the charge failed
/// (and with which error).
pub open spec fn spec_charge(total: int, offset: int, bytes: int) -> (int, Option<ParseError>) {
    if bytes > MAX_IMAGE_BYTES {
        (total, Some(ParseError::LimitExceeded { offset: offset as usize, what: "cel image size" }))
    } else if total + bytes > MAX_TOTAL_DECOMPRESSED_BYTES {
        (
            total + bytes,
            Some(
                ParseError::LimitExceeded { offset: offset as usize, what: "total decompressed size" },
            ),
        )
    } else {
        (total + bytes, None)
    }
}

impl InflateBudget {
    /// Charges one image of `bytes` decompressed bytes: no single image may
    /// exceed `MAX_IMAGE_BYTES`, and the running total may not exceed
    /// `MAX_TOTAL_DECOMPRESSED_BYTES`. A budget whose total already lies
    /// past that cap refuses every later charge.
    pub fn charge(&mut self, offset: usize, bytes: usize) -> (res: Result<(), ParseError>)
        requires
            bytes > MAX_IMAGE_BYTES || old(self).total + bytes <= usize::MAX,
        ensures
            final(self).total == spec_charge(old(self).total as int, offset as int, bytes as int).0,
            match spec_charge(old(self).total as int, offset as int, bytes as int).1 {
                Some(e) => res == Err::<(), ParseError>(e),
                None => res is Ok,
            },
    {
        if bytes > MAX_IMAGE_BYTES {
            return Err(ParseError::LimitExceeded { offset, what: "cel image size" });
        }
        self.total = self.total + bytes;
        if self.total > MAX_TOTAL_DECOMPRESSED_BYTES {
            return Err(ParseError::LimitExceeded { offset, what: "total decompressed size" });
        }
        Ok(())
    }
}

/// Inflating the zlib stream from `at` to `chunk_end`, which must yield
/// exactly `expected` bytes, with the budget at `total`: the budget after,
/// and the bytes or the error.
pub open spec fn spec_inflate(s: Seq<u8>, at: int, chunk_end: int, expected: int, total: int) -> (
    int,
    Result<Seq<u8>, ParseError>,
) {
    let (t2, charged) = spec_charge(total, at, expected);
    match charged {
        Some(e) => (t2, Err(e)),
        None => if chunk_end < at {
            (t2, Err(ParseError::Invalid { offset: at as usize, what: "zlib stream (past chunk end)" }))
        } else if !fits(s, at, chunk_end - at) {
            (t2, Err(eof_at(s, at, chunk_end - at)))
        } else {
            match zlib_inflate(s.subrange(at, chunk_end), expected as usize) {
                None => (t2, Err(ParseError::Invalid { offset: at as usize, what: "zlib stream" })),
                Some(out) => if out.len() != expected {
                    (t2, Err(ParseError::Invalid { offset: at as usize, what: "decompressed size" }))
                } else {
                    (t2, Ok(out))
                },
            }
        },
    }
}

/// Inflates the zlib stream that runs from the reader to `chunk_end`; it
/// must decompress to exactly `expected` bytes, which are charged to the
/// budget first. A stream whose start already lies past `chunk_end` is
/// rejected.
pub fn inflate_exact(r: &mut Reader, chunk_end: usize, expected: usize, budget: &mut InflateBudget) -> (res:
    Result<Vec<u8>, ParseError>)
    requires
        expected > MAX_IMAGE_BYTES || old(budget).total + expected <= usize::MAX,
    ensures
        final(r).input() == old(r).input(),
        final(budget).total == spec_inflate(
            old(r).input(),
            old(r).cursor(),
            chunk_end as int,
            expected as int,
            old(budget).total as int,
        ).0,
        match spec_inflate(
            old(r).input(),
            old(r).cursor(),
            chunk_end as int,
            expected as int,
            old(budget).total as int,
        ).1 {
            Ok(out) => res matches Ok(v) && v@ == out && final(r).cursor() == chunk_end,
            Err(e) => res == Err::<Vec<u8>, ParseError>(e),
        },
{
    let offset = r.pos();
    budget.charge(offset, expected)?;
    if chunk_end < offset {
        return Err(ParseError::Invalid { offset, what: "zlib stream (past chunk end)" });
    }
    let compressed = r.bytes(chunk_end - offset)?;
    let out = match decompress_zlib(compressed, expected) {
        Some(v) => v,
        None => {
            return Err(ParseError::Invalid { offset, what: "zlib stream" });
        },
    };
    if out.len() != expected {
        return Err(ParseError::Invalid { offset, what: "decompressed size" });
    }
    Ok(out)
}

/// A 32-bit tilemap entry split by the cel's masks.
pub open spec fn tile_of(t: u32, id_mask: u32, x_mask: u32, y_mask: u32, d_mask: u32) -> Tile {
    Tile {
        index: if id_mask == 0 {
            0
        } else {
            (t & id_mask) >> u32_trailing_zeros(id_mask)
        },
        x_flip: x_mask != 0 && (t & x_mask) == x_mask,
        y_flip: y_mask != 0 && (t & y_mask) == y_mask,
        d_flip: d_mask != 0 && (t & d_mask) == d_mask,
    }
}

/// The tiles encoded in `raw`, four little-endian bytes each.
pub open spec fn tiles_of(raw: Seq<u8>, id_mask: u32, x_mask: u32, y_mask: u32, d_mask: u32) -> Seq<
    Tile,
> {
    Seq::new(raw.len() / 4, |i: int| tile_of(le_u32(raw, 4 * i), id_mask, x_mask, y_mask, d_mask))
}

/// Outcome of the typed part of a cel at `at` (the fields after the common
/// 16-byte prefix, `start` being the chunk payload start): the budget after,
/// and the content (`None` for a zero-sized cel) or the error.
pub open spec fn spec_cel_content(
    s: Seq<u8>,
    start: int,
    cel_type: u16,
    chunk_end: int,
    depth: ColorDepth,
    total: int,
) -> (int, Result<Option<CelContentV>, ParseError>) {
    let at = start + 16;
    if cel_type == 0 || cel_type == 2 {
        if !fits(s, at, 2) {
            (total, Err(eof_at(s, at, 2)))
        } else if !fits(s, at + 2, 2) {
            (total, Err(eof_at(s, at + 2, 2)))
        } else {
            let w = le_u16(s, at);
            let h = le_u16(s, at + 2);
            let len = w * h * depth.bpp_bytes();
            if w == 0 || h == 0 {
                (total, Ok(None))
            } else if cel_type == 0 {
                let (t2, charged) = spec_charge(total, at + 4, len);
                match charged {
                    Some(e) => (t2, Err(e)),
                    None => if !fits(s, at + 4, len) {
                        (t2, Err(eof_at(s, at + 4, len)))
                    } else {
                        (
                            t2,
                            Ok(
                                Some(
                                    CelContentV::Image {
                                        width: w,
                                        height: h,
                                        pixels: s.subrange(at + 4, at + 4 + len),
                                    },
                                ),
                            ),
                        )
                    },
                }
            } else if len > MAX_IMAGE_BYTES {
                (
                    total,
                    Err(ParseError::LimitExceeded { offset: (at + 4) as usize, what: "cel image size" }),
                )
            } else {
                let (t2, inflated) = spec_inflate(s, at + 4, chunk_end, len, total);
                match inflated {
                    Err(e) => (t2, Err(e)),
                    Ok(px) => (t2, Ok(Some(CelContentV::Image { width: w, height: h, pixels: px }))),
                }
            }
        }
    } else if cel_type == 1 {
        if !fits(s, at, 2) {
            (total, Err(eof_at(s, at, 2)))
        } else {
            (total, Ok(Some(CelContentV::Linked(le_u16(s, at)))))
        }
    } else if cel_type == 3 {
        if !fits(s, at, 2) {
            (total, Err(eof_at(s, at, 2)))
        } else if !fits(s, at + 2, 2) {
            (total, Err(eof_at(s, at + 2, 2)))
        } else if !fits(s, at + 4, 2) {
            (total, Err(eof_at(s, at + 4, 2)))
        } else if le_u16(s, at + 4) != 32 {
            (total, Err(ParseError::Invalid { offset: (at + 4) as usize, what: "bits per tile" }))
        } else if !fits(s, at + 6, 4) {
            (total, Err(eof_at(s, at + 6, 4)))
        } else if !fits(s, at + 10, 4) {
            (total, Err(eof_at(s, at + 10, 4)))
        } else if !fits(s, at + 14, 4) {
            (total, Err(eof_at(s, at + 14, 4)))
        } else if !fits(s, at + 18, 4) {
            (total, Err(eof_at(s, at + 18, 4)))
        } else if !fits(s, at + 22, 10) {
            (total, Err(skip_err(s, at + 22, 10)))
        } else {
            let w = le_u16(s, at);
            let h = le_u16(s, at + 2);
            if w == 0 || h == 0 {
                (total, Ok(None))
            } else if w * h * 4 > MAX_IMAGE_BYTES {
                (
                    total,
                    Err(ParseError::LimitExceeded { offset: (at + 32) as usize, what: "cel image size" }),
                )
            } else {
                let (t2, inflated) = spec_inflate(s, at + 32, chunk_end, w * h * 4, total);
                match inflated {
                    Err(e) => (t2, Err(e)),
                    Ok(raw) => (
                        t2,
                        Ok(
                            Some(
                                CelContentV::Tilemap {
                                    width: w,
                                    height: h,
                                    tiles: tiles_of(
                                        raw,
                                        le_u32(s, at + 6),
                                        le_u32(s, at + 10),
                                        le_u32(s, at + 14),
                                        le_u32(s, at + 18),
                                    ),
                                },
                            ),
                        ),
                    ),
                }
            }
        }
    } else {
        (total, Err(ParseError::Invalid { offset: start as usize, what: "cel type" }))
    }
}

/// Outcome of a cel chunk payload at `at` (chunk ending at `chunk_end`)
/// with `num_layers` layers known and the budget at `total`: the budget
/// after, and the cel (`None` when skipped) or the error. A cel naming a
/// layer past the list, or of zero size, is skipped.
pub open spec fn spec_cel(
    s: Seq<u8>,
    at: int,
    chunk_end: int,
    depth: ColorDepth,
    num_layers: int,
    total: int,
) -> (int, Result<Option<CelV>, ParseError>) {
    if !fits(s, at, 2) {
        (total, Err(eof_at(s, at, 2)))
    } else if !fits(s, at + 2, 2) {
        (total, Err(eof_at(s, at + 2, 2)))
    } else if !fits(s, at + 4, 2) {
        (total, Err(eof_at(s, at + 4, 2)))
    } else if !fits(s, at + 6, 1) {
        (total, Err(eof_at(s, at + 6, 1)))
    } else if !fits(s, at + 7, 2) {
        (total, Err(eof_at(s, at + 7, 2)))
    } else if !fits(s, at + 9, 2) {
        (total, Err(eof_at(s, at + 9, 2)))
    } else if !fits(s, at + 11, 5) {
        (total, Err(skip_err(s, at + 11, 5)))
    } else if le_u16(s, at) >= num_layers {
        (total, Ok(None))
    } else {
        let (t2, content) = spec_cel_content(s, at, le_u16(s, at + 7), chunk_end, depth, total);
        match content {
            Err(e) => (t2, Err(e)),
            Ok(None) => (t2, Ok(None)),
            Ok(Some(c)) => (
                t2,
                Ok(
                    Some(
                        CelV {
                            layer_index: le_u16(s, at) as usize,
                            x: le_u16(s, at + 2) as i16,
                            y: le_u16(s, at + 4) as i16,
                            opacity: s[at + 6],
                            z_index: le_u16(s, at + 9) as i16,
                            content: c,
                            extra: None,
                            user_data: UserDataV::empty(),
                        },
                    ),
                ),
            ),
        }
    }
}

proof fn lemma_image_size(w: u16, h: u16, b: u64)
    requires
        b <= 4,
    ensures
        w as int * h as int <= 65535 * 65535,
        w as int * h as int * b as int <= 65535 * 65535 * 4,
{
    assert(w as int * h as int <= 65535 * 65535) by (nonlinear_arith)
        requires
            w <= 65535,
            h <= 65535,
    ;
    assert(w as int * h as int * b as int <= 65535 * 65535 * 4) by (nonlinear_arith)
        requires
            w as int * h as int <= 65535 * 65535,
            b <= 4,
            0 <= w as int * h as int,
    ;
}

/// Splits raw (inflated) tilemap bytes into tiles: each little-endian
/// 32-bit entry gives the tile index (the bits under `id_mask`, shifted
/// down) and the X, Y and diagonal flips (all bits of their mask set).
pub fn decode_tiles(raw: &Vec<u8>, id_mask: u32, x_mask: u32, y_mask: u32, d_mask: u32) -> (tiles:
    Vec<Tile>)
    ensures
        tiles@ == tiles_of(raw@, id_mask, x_mask, y_mask, d_mask),
{
    let shift = id_mask.trailing_zeros();
    proof {
        vstd::std_specs::bits::axiom_u32_trailing_zeros(id_mask);
    }
    let mut tiles: Vec<Tile> = Vec::new();
    let len = raw.len();
    let n = len / 4;
    assert(4 * n <= len);
    let mut i: usize = 0;
    while i < n
        invariant
            n == raw@.len() / 4,
            4 * n <= raw@.len() <= usize::MAX,
            i <= n,
            shift == u32_trailing_zeros(id_mask),
            id_mask != 0 ==> shift < 32,
            tiles@.len() == i,
            forall|j: int|
                0 <= j < i ==> #[trigger] tiles@[j] == tile_of(
                    le_u32(raw@, 4 * j),
                    id_mask,
                    x_mask,
                    y_mask,
                    d_mask,
                ),
        decreases n - i,
    {
        let b0 = raw[4 * i];
        let b1 = raw[4 * i + 1];
        let b2 = raw[4 * i + 2];
        let b3 = raw[4 * i + 3];
        let t: u32 = b0 as u32 + (b1 as u32) * 256 + (b2 as u32) * 65536 + (b3 as u32) * 16777216;
        let index = if id_mask == 0 {
            0
        } else {
            (t & id_mask) >> shift
        };
        tiles.push(
            Tile {
                index,
                x_flip: x_mask != 0 && (t & x_mask) == x_mask,
                y_flip: y_mask != 0 && (t & y_mask) == y_mask,
                d_flip: d_mask != 0 && (t & d_mask) == d_mask,
            },
        );
        i = i + 1;
    }
    assert(tiles@ =~= tiles_of(raw@, id_mask, x_mask, y_mask, d_mask));
    tiles
}

/// Parses a cel chunk payload. Compressed data runs to `chunk_end`, the
/// absolute end of the chunk. Returns `None` for a cel naming a layer past
/// the `num_layers` known so far and for zero-sized images.
pub fn parse_cel(
    r: &mut Reader,
    chunk_end: usize,
    depth: ColorDepth,
    num_layers: usize,
    budget: &mut InflateBudget,
) -> (res: Result<Option<Cel>, ParseError>)
    requires
        old(budget).total <= usize::MAX - MAX_IMAGE_BYTES,
    ensures
        final(r).input() == old(r).input(),
        final(budget).total == spec_cel(
            old(r).input(),
            old(r).cursor(),
            chunk_end as int,
            depth,
            num_layers as int,
            old(budget).total as int,
        ).0,
        match spec_cel(
            old(r).input(),
            old(r).cursor(),
            chunk_end as int,
            depth,
            num_layers as int,
            old(budget).total as int,
        ).1 {
            Ok(Some(c)) => res matches Ok(Some(cel)) && cel@ == c,
            Ok(None) => res matches Ok(None),
            Err(e) => res == Err::<Option<Cel>, ParseError>(e),
        },
{
    let start = r.pos();
    let layer_index = r.u16()? as usize;
    let x = r.i16()?;
    let y = r.i16()?;
    let opacity = r.u8()?;
    let cel_type = r.u16()?;
    let z_index = r.i16()?;
    r.skip(5)?;
    if layer_index >= num_layers {
        return Ok(None);
    }
    let content = match parse_cel_content(r, start, cel_type, chunk_end, depth, budget)? {
        Some(c) => c,
        None => {
            return Ok(None);
        },
    };
    Ok(
        Some(
            Cel {
                layer_index,
                x,
                y,
                opacity,
                z_index,
                content,
                extra: None,
                user_data: UserData::default(),
            },
        ),
    )
}

/// The typed part of a cel, the reader standing right after the common
/// 16-byte prefix that starts at `start`.
fn parse_cel_content(
    r: &mut Reader,
    start: usize,
    cel_type: u16,
    chunk_end: usize,
    depth: ColorDepth,
    budget: &mut InflateBudget,
) -> (res: Result<Option<CelContent>, ParseError>)
    requires
        old(budget).total <= usize::MAX - MAX_IMAGE_BYTES,
        old(r).cursor() == start + 16,
    ensures
        final(r).input() == old(r).input(),
        final(budget).total == spec_cel_content(
            old(r).input(),
            start as int,
            cel_type,
            chunk_end as int,
            depth,
            old(budget).total as int,
        ).0,
        match spec_cel_content(
            old(r).input(),
            start as int,
            cel_type,
            chunk_end as int,
            depth,
            old(budget).total as int,
        ).1 {
            Ok(Some(c)) => res matches Ok(Some(content)) && content@ == c,
            Ok(None) => res matches Ok(None),
            Err(e) => res == Err::<Option<CelContent>, ParseError>(e),
        },
{
    let bpp = depth.bytes_per_pixel() as u64;
    match cel_type {
        0 | 2 => {
            let width = r.u16()?;
            let height = r.u16()?;
            if width == 0 || height == 0 {
                return Ok(None);
            }
            proof {
                lemma_image_size(width, height, bpp);
            }
            let len64: u64 = width as u64 * height as u64 * bpp;
            if cel_type == 0 {
                if len64 > MAX_IMAGE_BYTES as u64 {
                    return Err(ParseError::LimitExceeded { offset: r.pos(), what: "cel image size" });
                }
                let len = len64 as usize;
                budget.charge(r.pos(), len)?;
                let px = r.bytes(len)?;
                Ok(
                    Some(
                        CelContent::Image(
                            CelImage { width, height, pixels: vstd::slice::slice_to_vec(px) },
                        ),
                    ),
                )
            } else {
                if len64 > MAX_IMAGE_BYTES as u64 {
                    return Err(ParseError::LimitExceeded { offset: r.pos(), what: "cel image size" });
                }
                let pixels = inflate_exact(r, chunk_end, len64 as usize, budget)?;
                Ok(Some(CelContent::Image(CelImage { width, height, pixels })))
            }
        },
        1 => {
            let frame = r.u16()?;
            Ok(Some(CelContent::Linked(frame)))
        },
        3 => {
            let width = r.u16()?;
            let height = r.u16()?;
            let bits_offset = r.pos();
            let bits_per_tile = r.u16()?;
            if bits_per_tile != 32 {
                return Err(ParseError::Invalid { offset: bits_offset, what: "bits per tile" });
            }
            let id_mask = r.u32()?;
            let x_mask = r.u32()?;
            let y_mask = r.u32()?;
            let d_mask = r.u32()?;
            r.skip(10)?;
            if width == 0 || height == 0 {
                return Ok(None);
            }
            proof {
                lemma_image_size(width, height, 4);
            }
            let len64: u64 = width as u64 * height as u64 * 4;
            if len64 > MAX_IMAGE_BYTES as u64 {
                return Err(ParseError::LimitExceeded { offset: r.pos(), what: "cel image size" });
            }
            let raw = inflate_exact(r, chunk_end, len64 as usize, budget)?;
            let tiles = decode_tiles(&raw, id_mask, x_mask, y_mask, d_mask);
            Ok(Some(CelContent::Tilemap(CelTilemap { width, height, tiles })))
        },
        _ => Err(ParseError::Invalid { offset: start, what: "cel type" }),
    }
}

} // verus!
