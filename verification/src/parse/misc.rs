//! Small chunks: cel extra (0x2006), color profile (0x2007), external files
//! (0x2008).
use crate::error::ParseError;
use crate::model::{CelExtra, ColorProfile, ColorProfileV, ExternalFile};
use crate::read::{eof_at, fits, le_u16, le_u32, read_string_at, skip_err, Reader};
use vstd::prelude::*;

verus! {

broadcast use crate::read::lemma_cursor_nonneg;

/// Outcome of a cel extra chunk at `at`: `None` when the "precise bounds"
/// flag is clear or the bounds are degenerate.
pub open spec fn spec_cel_extra(s: Seq<u8>, at: int) -> Result<Option<CelExtra>, ParseError> {
    if !fits(s, at, 4) {
        Err(eof_at(s, at, 4))
    } else if !fits(s, at + 4, 4) {
        Err(eof_at(s, at + 4, 4))
    } else if !fits(s, at + 8, 4) {
        Err(eof_at(s, at + 8, 4))
    } else if !fits(s, at + 12, 4) {
        Err(eof_at(s, at + 12, 4))
    } else if !fits(s, at + 16, 4) {
        Err(eof_at(s, at + 16, 4))
    } else {
        let w = le_u32(s, at + 12) as i32;
        let h = le_u32(s, at + 16) as i32;
        if le_u32(s, at) % 2 == 0 || w == 0 || h == 0 {
            Ok(None)
        } else {
            Ok(
                Some(
                    CelExtra {
                        x: le_u32(s, at + 4) as i32,
                        y: le_u32(s, at + 8) as i32,
                        width: w,
                        height: h,
                    },
                ),
            )
        }
    }
}

/// Parses a cel extra chunk. Coordinates stay raw 16.16 fixed point.
pub fn parse_cel_extra(r: &mut Reader) -> (res: Result<Option<CelExtra>, ParseError>)
    ensures
        final(r).input() == old(r).input(),
        res == spec_cel_extra(old(r).input(), old(r).cursor()),
{
    let flags = r.u32()?;
    let x = r.i32()?;
    let y = r.i32()?;
    let width = r.i32()?;
    let height = r.i32()?;
    assert((flags & 1 == 0) == (flags % 2 == 0)) by (bit_vector);
    if flags & 1 == 0 || width == 0 || height == 0 {
        return Ok(None);
    }
    Ok(Some(CelExtra { x, y, width, height }))
}

/// Outcome of a color profile chunk at `at`: the profile and the offset after it.
pub open spec fn spec_color_profile(s: Seq<u8>, at: int) -> Result<(ColorProfileV, int), ParseError> {
    if !fits(s, at, 2) {
        Err(eof_at(s, at, 2))
    } else if !fits(s, at + 2, 2) {
        Err(eof_at(s, at + 2, 2))
    } else if !fits(s, at + 4, 4) {
        Err(eof_at(s, at + 4, 4))
    } else if !fits(s, at + 8, 8) {
        Err(skip_err(s, at + 8, 8))
    } else {
        let kind = le_u16(s, at);
        let gamma = if le_u16(s, at + 2) % 2 == 1 {
            Some(le_u32(s, at + 4) as i32)
        } else {
            None
        };
        if kind == 0 {
            Ok((ColorProfileV::NoProfile { fixed_gamma: gamma }, at + 16))
        } else if kind == 1 {
            Ok((ColorProfileV::Srgb { fixed_gamma: gamma }, at + 16))
        } else if kind == 2 {
            if !fits(s, at + 16, 4) {
                Err(eof_at(s, at + 16, 4))
            } else if !fits(s, at + 20, le_u32(s, at + 16) as int) {
                Err(eof_at(s, at + 20, le_u32(s, at + 16) as int))
            } else {
                Ok(
                    (
                        ColorProfileV::Icc {
                            fixed_gamma: gamma,
                            data: s.subrange(at + 20, at + 20 + le_u32(s, at + 16)),
                        },
                        at + 20 + le_u32(s, at + 16),
                    ),
                )
            }
        } else {
            Err(ParseError::Invalid { offset: at as usize, what: "color profile type" })
        }
    }
}

/// Parses a color profile chunk. The gamma stays raw 16.16 fixed point.
pub fn parse_color_profile(r: &mut Reader) -> (res: Result<ColorProfile, ParseError>)
    ensures
        final(r).input() == old(r).input(),
        match spec_color_profile(old(r).input(), old(r).cursor()) {
            Ok((p, end)) => res matches Ok(q) && q@ == p && final(r).cursor() == end,
            Err(e) => res == Err::<ColorProfile, ParseError>(e),
        },
{
    let start = r.pos();
    let kind = r.u16()?;
    let flags = r.u16()?;
    let gamma = r.i32()?;
    r.skip(8)?;
    assert((flags & 1 != 0) == (flags % 2 == 1)) by (bit_vector);
    let fixed_gamma = if flags & 1 != 0 {
        Some(gamma)
    } else {
        None
    };
    match kind {
        0 => Ok(ColorProfile::NoProfile { fixed_gamma }),
        1 => Ok(ColorProfile::Srgb { fixed_gamma }),
        2 => {
            let len = r.u32()?;
            let data = r.bytes(len as usize)?;
            Ok(ColorProfile::Icc { fixed_gamma, data: vstd::slice::slice_to_vec(data) })
        },
        _ => Err(ParseError::Invalid { offset: start, what: "color profile type" }),
    }
}

/// `k` external file entries read from `at`: their models and the offset
/// after the last.
pub open spec fn ext_entries(s: Seq<u8>, at: int, k: int) -> Result<
    (Seq<(u32, u8, Seq<char>)>, int),
    ParseError,
>
    decreases k,
{
    if k <= 0 {
        Ok((Seq::empty(), at))
    } else if !fits(s, at, 4) {
        Err(eof_at(s, at, 4))
    } else if !fits(s, at + 4, 1) {
        Err(eof_at(s, at + 4, 1))
    } else if !fits(s, at + 5, 7) {
        Err(skip_err(s, at + 5, 7))
    } else {
        match read_string_at(s, at + 12) {
            Err(e) => Err(e),
            Ok((name, end)) => match ext_entries(s, end, k - 1) {
                Ok((rest, e2)) => Ok((seq![(le_u32(s, at), s[at + 4], name)] + rest, e2)),
                Err(e) => Err(e),
            },
        }
    }
}

/// Outcome of an external files chunk at `at`.
pub open spec fn spec_external_files(s: Seq<u8>, at: int) -> Result<
    (Seq<(u32, u8, Seq<char>)>, int),
    ParseError,
> {
    if !fits(s, at, 4) {
        Err(eof_at(s, at, 4))
    } else if !fits(s, at + 4, 8) {
        Err(skip_err(s, at + 4, 8))
    } else if le_u32(s, at) > (s.len() - (at + 12)) / 12 {
        Err(ParseError::Invalid { offset: (at + 12) as usize, what: "external file count" })
    } else {
        ext_entries(s, at + 12, le_u32(s, at) as int)
    }
}

/// Models of a list of external file entries.
pub open spec fn files_view(v: Seq<ExternalFile>) -> Seq<(u32, u8, Seq<char>)> {
    v.map_values(|f: ExternalFile| f@)
}

/// Parses an external files chunk. A count that could not fit in the rest
/// of the input (12 bytes at least per entry) is rejected up front.
pub fn parse_external_files(r: &mut Reader) -> (res: Result<Vec<ExternalFile>, ParseError>)
    ensures
        final(r).input() == old(r).input(),
        match spec_external_files(old(r).input(), old(r).cursor()) {
            Ok((v, end)) => res matches Ok(out) && files_view(out@) == v && final(r).cursor()
                == end,
            Err(e) => res == Err::<Vec<ExternalFile>, ParseError>(e),
        },
{
    let ghost s = r.input();
    let ghost at0 = r.cursor();
    let n = r.u32()?;
    r.skip(8)?;
    if n as usize > r.remaining() / 12 {
        return Err(ParseError::Invalid { offset: r.pos(), what: "external file count" });
    }
    let mut out: Vec<ExternalFile> = Vec::new();
    let mut k: u32 = 0;
    while k < n
        invariant
            r.input() == s,
            s == old(r).input(),
            at0 == old(r).cursor(),
            k <= n,
            n == le_u32(s, at0),
            fits(s, at0, 12),
            n <= (s.len() - (at0 + 12)) / 12,
            match ext_entries(s, r.cursor(), (n - k) as int) {
                Ok((rest, end)) => spec_external_files(s, at0) == Ok::<
                    (Seq<(u32, u8, Seq<char>)>, int),
                    ParseError,
                >((files_view(out@) + rest, end)),
                Err(e) => spec_external_files(s, at0) == Err::<
                    (Seq<(u32, u8, Seq<char>)>, int),
                    ParseError,
                >(e),
            },
        decreases n - k,
    {
        let id = r.u32()?;
        let kind = r.u8()?;
        r.skip(7)?;
        let name = r.string()?;
        let ghost before = files_view(out@);
        out.push(ExternalFile { id, kind, name });
        assert(files_view(out@) =~= before + seq![(id, kind, name@)]);
        proof {
            match ext_entries(s, r.cursor(), (n - k - 1) as int) {
                Ok((rest, end)) => {
                    assert(before + seq![(id, kind, name@)] + rest =~= before + (seq![
                        (id, kind, name@),
                    ] + rest));
                },
                Err(e) => {},
            }
        }
        k = k + 1;
    }
    assert(files_view(out@) + Seq::<(u32, u8, Seq<char>)>::empty() =~= files_view(out@));
    Ok(out)
}

} // verus!
