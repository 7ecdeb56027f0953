//! Slice chunk (0x2022).
use crate::error::ParseError;
use crate::model::{Slice, SliceKey, SliceV, UserData, UserDataV};
use crate::read::{eof_at, fits, le_u32, read_string_at, skip_err, Reader};
use vstd::prelude::*;

verus! {

broadcast use crate::read::lemma_cursor_nonneg;

/// Size of one slice key with the given flags.
pub open spec fn key_size(flags: u32) -> int {
    20 + (if flags % 2 == 1 {
        16int
    } else {
        0int
    }) + (if (flags / 2) % 2 == 1 {
        8int
    } else {
        0int
    })
}

/// The first DWORD among `count` consecutive ones from `at` that runs off
/// the end, as a read error.
pub open spec fn dwords_err(s: Seq<u8>, at: int, count: int) -> ParseError {
    if s.len() - at >= 4 * count {
        eof_at(s, at, 4)
    } else {
        eof_at(s, at + 4 * ((s.len() - at) / 4), 4)
    }
}

/// The slice key stored at `at` (which must fit).
pub open spec fn key_at(s: Seq<u8>, at: int, flags: u32) -> SliceKey {
    let c = at + 20;
    let p = if flags % 2 == 1 {
        at + 36
    } else {
        at + 20
    };
    SliceKey {
        frame: le_u32(s, at),
        x: le_u32(s, at + 4) as i32,
        y: le_u32(s, at + 8) as i32,
        width: le_u32(s, at + 12),
        height: le_u32(s, at + 16),
        center: if flags % 2 == 1 {
            Some(
                (
                    le_u32(s, c) as i32,
                    le_u32(s, c + 4) as i32,
                    le_u32(s, c + 8),
                    le_u32(s, c + 12),
                ),
            )
        } else {
            None
        },
        pivot: if (flags / 2) % 2 == 1 {
            Some((le_u32(s, p) as i32, le_u32(s, p + 4) as i32))
        } else {
            None
        },
    }
}

/// `k` slice keys read from `at`.
pub open spec fn slice_keys(s: Seq<u8>, at: int, k: int, flags: u32) -> Result<
    (Seq<SliceKey>, int),
    ParseError,
>
    decreases k,
{
    if k <= 0 {
        Ok((Seq::empty(), at))
    } else if !fits(s, at, key_size(flags)) {
        Err(dwords_err(s, at, key_size(flags) / 4))
    } else {
        match slice_keys(s, at + key_size(flags), k - 1, flags) {
            Err(e) => Err(e),
            Ok((rest, end)) => Ok((seq![key_at(s, at, flags)] + rest, end)),
        }
    }
}

/// Outcome of a slice chunk at `at`.
pub open spec fn spec_slice(s: Seq<u8>, at: int) -> Result<(SliceV, int), ParseError> {
    if !fits(s, at, 4) {
        Err(eof_at(s, at, 4))
    } else if !fits(s, at + 4, 4) {
        Err(eof_at(s, at + 4, 4))
    } else if !fits(s, at + 8, 4) {
        Err(skip_err(s, at + 8, 4))
    } else {
        match read_string_at(s, at + 12) {
            Err(e) => Err(e),
            Ok((name, name_end)) => if le_u32(s, at) > (s.len() - name_end) / 20 {
                Err(ParseError::Invalid { offset: at as usize, what: "slice key count" })
            } else {
                match slice_keys(s, name_end, le_u32(s, at) as int, le_u32(s, at + 4)) {
                    Err(e) => Err(e),
                    Ok((keys, end)) => Ok(
                        (SliceV { name, keys, user_data: UserDataV::empty() }, end),
                    ),
                }
            },
        }
    }
}

/// Reads consecutive DWORDs; helper for keys whose layout depends on flags.
fn read_key(r: &mut Reader, flags: u32) -> (res: Result<SliceKey, ParseError>)
    ensures
        final(r).input() == old(r).input(),
        final(r).cursor() <= final(r).input().len(),
        fits(old(r).input(), old(r).cursor(), key_size(flags)) ==> res == Ok::<
            SliceKey,
            ParseError,
        >(key_at(old(r).input(), old(r).cursor(), flags)) && final(r).cursor() == old(r).cursor()
            + key_size(flags),
        !fits(old(r).input(), old(r).cursor(), key_size(flags)) ==> res == Err::<
            SliceKey,
            ParseError,
        >(dwords_err(old(r).input(), old(r).cursor(), key_size(flags) / 4)),
{
    let ghost s = r.input();
    let ghost at = r.cursor();
    let frame = r.u32()?;
    let x = r.i32()?;
    let y = r.i32()?;
    let width = r.u32()?;
    let height = r.u32()?;
    assert((flags & 1 != 0) == (flags % 2 == 1)) by (bit_vector);
    assert((flags & 2 != 0) == ((flags / 2) % 2 == 1)) by (bit_vector);
    let center = if flags & 1 != 0 {
        let cx = r.i32()?;
        let cy = r.i32()?;
        let cw = r.u32()?;
        let ch = r.u32()?;
        Some((cx, cy, cw, ch))
    } else {
        None
    };
    let pivot = if flags & 2 != 0 {
        let px = r.i32()?;
        let py = r.i32()?;
        Some((px, py))
    } else {
        None
    };
    Ok(SliceKey { frame, x, y, width, height, center, pivot })
}

/// Parses a slice chunk. A key count that could not fit in the rest of the
/// input (20 bytes at least per key) is rejected up front.
pub fn parse_slice(r: &mut Reader) -> (res: Result<Slice, ParseError>)
    ensures
        final(r).input() == old(r).input(),
        match spec_slice(old(r).input(), old(r).cursor()) {
            Ok((v, end)) => res matches Ok(out) && out@ == v && final(r).cursor() == end,
            Err(e) => res == Err::<Slice, ParseError>(e),
        },
{
    let ghost s = r.input();
    let start = r.pos();
    let n_keys = r.u32()?;
    let flags = r.u32()?;
    r.skip(4)?;
    let name = r.string()?;
    if n_keys as usize > r.remaining() / 20 {
        return Err(ParseError::Invalid { offset: start, what: "slice key count" });
    }
    let ghost name_end = r.cursor();
    let mut keys: Vec<SliceKey> = Vec::new();
    let mut k: u32 = 0;
    while k < n_keys
        invariant
            r.input() == s,
            s == old(r).input(),
            start == old(r).cursor(),
            r.cursor() <= s.len(),
            k <= n_keys,
            fits(s, start as int, 12),
            n_keys == le_u32(s, start as int),
            flags == le_u32(s, start + 4),
            read_string_at(s, start + 12) == Ok::<(Seq<char>, int), ParseError>((name@, name_end)),
            n_keys <= (s.len() - name_end) / 20,
            slice_keys(s, name_end, n_keys as int, flags) == match slice_keys(
                s,
                r.cursor(),
                (n_keys - k) as int,
                flags,
            ) {
                Ok((rest, end)) => Ok::<(Seq<SliceKey>, int), ParseError>((keys@ + rest, end)),
                Err(e) => Err(e),
            },
        decreases n_keys - k,
    {
        let ghost c0 = r.cursor();
        let key = read_key(r, flags)?;
        let ghost before = keys@;
        assert(slice_keys(s, c0, (n_keys - k) as int, flags) == match slice_keys(
            s,
            r.cursor(),
            (n_keys - k - 1) as int,
            flags,
        ) {
            Ok((rest, end)) => Ok::<(Seq<SliceKey>, int), ParseError>((seq![key] + rest, end)),
            Err(e) => Err(e),
        });
        keys.push(key);
        proof {
            match slice_keys(s, r.cursor(), (n_keys - k - 1) as int, flags) {
                Ok((rest, end)) => {
                    assert(keys@ =~= before + seq![key]);
                    assert(before + seq![key] + rest =~= before + (seq![key] + rest));
                    assert(slice_keys(s, name_end, n_keys as int, flags) == Ok::<
                        (Seq<SliceKey>, int),
                        ParseError,
                    >((keys@ + rest, end)));
                },
                Err(e) => {
                    assert(slice_keys(s, name_end, n_keys as int, flags) == Err::<
                        (Seq<SliceKey>, int),
                        ParseError,
                    >(e));
                },
            }
        }
        k = k + 1;
    }
    assert(keys@ + Seq::<SliceKey>::empty() =~= keys@);
    Ok(Slice { name, keys, user_data: UserData::default() })
}

} // verus!
