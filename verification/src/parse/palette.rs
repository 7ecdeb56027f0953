//! Palette chunks: the new delta palette (0x2019) and the two old formats
//! (0x0004 with 8-bit and 0x0011 with 6-bit components).
use crate::error::ParseError;
use crate::limits::MAX_PALETTE_ENTRIES;
use crate::model::Palette;
use crate::read::{eof_at, fits, le_u16, le_u32, read_string_at, skip_err, Reader};
use vstd::prelude::*;

verus! {

broadcast use crate::read::lemma_cursor_nonneg;

/// The entry new palette slots are filled with.
pub open spec fn opaque_black() -> [u8; 4] {
    [0u8, 0u8, 0u8, 255u8]
}

/// `p` cut or padded with opaque black to `n` entries.
pub open spec fn resized(p: Seq<[u8; 4]>, n: int) -> Seq<[u8; 4]> {
    if n <= p.len() {
        p.take(n)
    } else {
        p + Seq::new((n - p.len()) as nat, |i: int| opaque_black())
    }
}

/// Entries `i..=to` of a new palette chunk read from `at` onto `pal`: the
/// palette afterwards, and the offset after the last entry or the error met.
pub open spec fn new_entries(s: Seq<u8>, at: int, i: int, to: int, pal: Seq<[u8; 4]>) -> (
    Seq<[u8; 4]>,
    Result<int, ParseError>,
)
    decreases to + 1 - i,
{
    if i > to {
        (pal, Ok(at))
    } else if !fits(s, at, 2) {
        (pal, Err(eof_at(s, at, 2)))
    } else if !fits(s, at + 2, 4) {
        (pal, Err(eof_at(s, s.len() as int, 1)))
    } else {
        let pal2 = pal.update(i, [s[at + 2], s[at + 3], s[at + 4], s[at + 5]]);
        if le_u16(s, at) % 2 == 1 {
            match read_string_at(s, at + 6) {
                Ok((_, end)) => new_entries(s, end, i + 1, to, pal2),
                Err(e) => (pal2, Err(e)),
            }
        } else {
            new_entries(s, at + 6, i + 1, to, pal2)
        }
    }
}

/// A new palette chunk at `at` applied onto `pal`.
pub open spec fn spec_new_palette(s: Seq<u8>, at: int, pal: Seq<[u8; 4]>) -> (
    Seq<[u8; 4]>,
    Result<int, ParseError>,
) {
    if !fits(s, at, 4) {
        (pal, Err(eof_at(s, at, 4)))
    } else if !fits(s, at + 4, 4) {
        (pal, Err(eof_at(s, at + 4, 4)))
    } else if !fits(s, at + 8, 4) {
        (pal, Err(eof_at(s, at + 8, 4)))
    } else {
        let n = le_u32(s, at);
        let from = le_u32(s, at + 4);
        let to = le_u32(s, at + 8);
        if n > MAX_PALETTE_ENTRIES {
            (pal, Err(ParseError::LimitExceeded { offset: at as usize, what: "palette size" }))
        } else if to < from || to >= n {
            (pal, Err(ParseError::Invalid { offset: at as usize, what: "palette range" }))
        } else if !fits(s, at + 12, 8) {
            (pal, Err(skip_err(s, at + 12, 8)))
        } else {
            new_entries(s, at + 20, from as int, to as int, resized(pal, n as int))
        }
    }
}

/// Pads or cuts `pal` to `n` entries, new ones opaque black.
fn resize_entries(pal: &mut Vec<[u8; 4]>, n: usize)
    ensures
        final(pal)@ == resized(old(pal)@, n as int),
{
    if n <= pal.len() {
        pal.truncate(n);
        return ;
    }
    let ghost start = pal@;
    while pal.len() < n
        invariant
            start.len() <= pal@.len() <= n,
            pal@ == start + Seq::new((pal@.len() - start.len()) as nat, |i: int| opaque_black()),
        decreases n - pal@.len(),
    {
        pal.push([0u8, 0u8, 0u8, 255u8]);
        assert(pal@ =~= start + Seq::new((pal@.len() - start.len()) as nat, |i: int| opaque_black()));
    }
}

/// Applies a new palette chunk (0x2019) as a delta onto `pal`: resizes it to
/// the declared size and replaces entries `from..=to`. Entry names are read
/// and discarded.
pub fn apply_new_palette(r: &mut Reader, pal: &mut Palette) -> (res: Result<(), ParseError>)
    ensures
        final(r).input() == old(r).input(),
        final(pal)@ == spec_new_palette(old(r).input(), old(r).cursor(), old(pal)@).0,
        match spec_new_palette(old(r).input(), old(r).cursor(), old(pal)@).1 {
            Ok(end) => res is Ok && final(r).cursor() == end,
            Err(e) => res == Err::<(), ParseError>(e),
        },
{
    let ghost s = r.input();
    let start = r.pos();
    let new_size = r.u32()?;
    let from = r.u32()?;
    let to = r.u32()?;
    if new_size > MAX_PALETTE_ENTRIES {
        return Err(ParseError::LimitExceeded { offset: start, what: "palette size" });
    }
    if to < from || to >= new_size {
        return Err(ParseError::Invalid { offset: start, what: "palette range" });
    }
    r.skip(8)?;
    resize_entries(&mut pal.entries, new_size as usize);
    let mut i: u32 = from;
    assert(spec_new_palette(s, start as int, old(pal)@) == new_entries(
        s,
        r.cursor(),
        i as int,
        to as int,
        pal@,
    ));
    while i <= to
        invariant
            r.input() == s,
            s == old(r).input(),
            start == old(r).cursor(),
            from <= i,
            i <= to + 1,
            to < pal@.len(),
            to < new_size,
            new_size <= MAX_PALETTE_ENTRIES,
            spec_new_palette(s, start as int, old(pal)@) == new_entries(
                s,
                r.cursor(),
                i as int,
                to as int,
                pal@,
            ),
        decreases to + 1 - i,
    {
        let flags = r.u16()?;
        let cr = r.u8()?;
        let cg = r.u8()?;
        let cb = r.u8()?;
        let ca = r.u8()?;
        pal.entries.set(i as usize, [cr, cg, cb, ca]);
        if flags & 1 != 0 {
            assert(flags & 1 != 0 ==> flags % 2 == 1) by (bit_vector);
            let _name = r.string()?;
        } else {
            assert(flags & 1 == 0 ==> flags % 2 == 0) by (bit_vector);
        }
        i = i + 1;
    }
    Ok(())
}

/// An old-format color component scaled to 8 bits (6-bit values spread
/// over the full range).
pub open spec fn scale_component(v: u8, six_bit: bool) -> u8 {
    if six_bit {
        ((v << 2u8) | (v >> 4u8)) as u8
    } else {
        v
    }
}

/// `k` colors of an old palette packet read from `at` into slots
/// `index..index + k`.
pub open spec fn old_colors(
    s: Seq<u8>,
    at: int,
    index: int,
    k: int,
    six_bit: bool,
    pal: Seq<[u8; 4]>,
) -> (Seq<[u8; 4]>, Result<int, ParseError>)
    decreases k,
{
    if k <= 0 {
        (pal, Ok(at))
    } else if !fits(s, at, 3) {
        (pal, Err(eof_at(s, s.len() as int, 1)))
    } else {
        old_colors(
            s,
            at + 3,
            index + 1,
            k - 1,
            six_bit,
            pal.update(
                index,
                [
                    scale_component(s[at], six_bit),
                    scale_component(s[at + 1], six_bit),
                    scale_component(s[at + 2], six_bit),
                    255u8,
                ],
            ),
        )
    }
}

/// Number of colors an old packet's count byte stands for (0 means 256).
pub open spec fn packet_count(b: u8) -> int {
    if b == 0 {
        256
    } else {
        b as int
    }
}

/// `n` old palette packets read from `at`; `index` is where the previous
/// packet ended.
pub open spec fn old_packets(
    s: Seq<u8>,
    at: int,
    index: int,
    n: int,
    six_bit: bool,
    pal: Seq<[u8; 4]>,
) -> (Seq<[u8; 4]>, Result<int, ParseError>)
    decreases n,
{
    if n <= 0 {
        (pal, Ok(at))
    } else if !fits(s, at, 2) {
        (pal, Err(eof_at(s, s.len() as int, 1)))
    } else {
        let idx = index + s[at];
        let end = idx + packet_count(s[at + 1]);
        if end > MAX_PALETTE_ENTRIES {
            (pal, Err(ParseError::LimitExceeded { offset: (at + 2) as usize, what: "palette size" }))
        } else {
            let pal2 = if pal.len() < end {
                resized(pal, end)
            } else {
                pal
            };
            match old_colors(s, at + 2, idx, packet_count(s[at + 1]), six_bit, pal2) {
                (p, Ok(a)) => old_packets(s, a, end, n - 1, six_bit, p),
                (p, Err(e)) => (p, Err(e)),
            }
        }
    }
}

/// An old palette chunk at `at` applied onto `pal`.
pub open spec fn spec_old_palette(s: Seq<u8>, at: int, pal: Seq<[u8; 4]>, six_bit: bool) -> (
    Seq<[u8; 4]>,
    Result<int, ParseError>,
) {
    if !fits(s, at, 2) {
        (pal, Err(eof_at(s, at, 2)))
    } else {
        old_packets(s, at + 2, 0, le_u16(s, at) as int, six_bit, pal)
    }
}

fn scale(v: u8, six_bit: bool) -> (r: u8)
    ensures
        r == scale_component(v, six_bit),
{
    if six_bit {
        (v << 2u8) | (v >> 4u8)
    } else {
        v
    }
}

/// Applies an old palette chunk (0x0004 or 0x0011) onto `pal`. `six_bit`
/// selects 0x0011's 0-63 component range, scaled up to 0-255.
pub fn apply_old_palette(r: &mut Reader, pal: &mut Palette, six_bit: bool) -> (res: Result<
    (),
    ParseError,
>)
    ensures
        final(r).input() == old(r).input(),
        final(pal)@ == spec_old_palette(old(r).input(), old(r).cursor(), old(pal)@, six_bit).0,
        match spec_old_palette(old(r).input(), old(r).cursor(), old(pal)@, six_bit).1 {
            Ok(end) => res is Ok && final(r).cursor() == end,
            Err(e) => res == Err::<(), ParseError>(e),
        },
{
    let ghost s = r.input();
    let ghost at0 = r.cursor();
    let n_packets = r.u16()?;
    let mut index: usize = 0;
    let mut k: u16 = 0;
    while k < n_packets
        invariant
            r.input() == s,
            s == old(r).input(),
            at0 == old(r).cursor(),
            r.cursor() <= s.len(),
            k <= n_packets,
            index <= MAX_PALETTE_ENTRIES,
            spec_old_palette(s, at0, old(pal)@, six_bit) == old_packets(
                s,
                r.cursor(),
                index as int,
                (n_packets - k) as int,
                six_bit,
                pal@,
            ),
        decreases n_packets - k,
    {
        let skip = r.u8()?;
        index = index + skip as usize;
        let count_byte = r.u8()?;
        let count: usize = if count_byte == 0 {
            256
        } else {
            count_byte as usize
        };
        let end = index + count;
        if end > MAX_PALETTE_ENTRIES as usize {
            return Err(ParseError::LimitExceeded { offset: r.pos(), what: "palette size" });
        }
        if pal.entries.len() < end {
            resize_entries(&mut pal.entries, end);
        }
        let mut c: usize = 0;
        while c < count
            invariant
                r.input() == s,
                s == old(r).input(),
                at0 == old(r).cursor(),
                r.cursor() <= s.len(),
                c <= count,
                index + count - c == end,
                end <= MAX_PALETTE_ENTRIES,
                end <= pal@.len(),
                k < n_packets,
                spec_old_palette(s, at0, old(pal)@, six_bit) == match old_colors(
                    s,
                    r.cursor(),
                    index as int,
                    (count - c) as int,
                    six_bit,
                    pal@,
                ) {
                    (p, Ok(a)) => old_packets(s, a, end as int, (n_packets - k - 1) as int, six_bit, p),
                    (p, Err(e)) => (p, Err(e)),
                },
            decreases count - c,
        {
            let cr = r.u8()?;
            let cg = r.u8()?;
            let cb = r.u8()?;
            pal.entries.set(index, [scale(cr, six_bit), scale(cg, six_bit), scale(cb, six_bit), 255u8]);
            index = index + 1;
            c = c + 1;
        }
        k = k + 1;
    }
    Ok(())
}

/// Writing the entries of a new palette chunk keeps the palette's size.
proof fn lemma_new_entries_len(s: Seq<u8>, at: int, i: int, to: int, pal: Seq<[u8; 4]>)
    requires
        0 <= i,
        to < pal.len(),
    ensures
        new_entries(s, at, i, to, pal).0.len() == pal.len(),
    decreases to + 1 - i,
{
    if i <= to && fits(s, at, 2) && fits(s, at + 2, 4) {
        let pal2 = pal.update(i, [s[at + 2], s[at + 3], s[at + 4], s[at + 5]]);
        if le_u16(s, at) % 2 == 1 {
            if let Ok((_, end)) = read_string_at(s, at + 6) {
                lemma_new_entries_len(s, end, i + 1, to, pal2);
            }
        } else {
            lemma_new_entries_len(s, at + 6, i + 1, to, pal2);
        }
    }
}

/// A new palette chunk leaves at most `MAX_PALETTE_ENTRIES` entries.
pub proof fn lemma_new_palette_capped(s: Seq<u8>, at: int, pal: Seq<[u8; 4]>)
    requires
        pal.len() <= MAX_PALETTE_ENTRIES,
    ensures
        spec_new_palette(s, at, pal).0.len() <= MAX_PALETTE_ENTRIES,
{
    if fits(s, at, 4) && fits(s, at + 4, 4) && fits(s, at + 8, 4) {
        let n = le_u32(s, at);
        let from = le_u32(s, at + 4);
        let to = le_u32(s, at + 8);
        if n <= MAX_PALETTE_ENTRIES && !(to < from || to >= n) && fits(s, at + 12, 8) {
            lemma_new_entries_len(s, at + 20, from as int, to as int, resized(pal, n as int));
        }
    }
}

/// Writing the colors of an old palette packet keeps the palette's size.
proof fn lemma_old_colors_len(
    s: Seq<u8>,
    at: int,
    index: int,
    k: int,
    six_bit: bool,
    pal: Seq<[u8; 4]>,
)
    requires
        0 <= index,
        index + k <= pal.len(),
    ensures
        old_colors(s, at, index, k, six_bit, pal).0.len() == pal.len(),
    decreases k,
{
    if k > 0 && fits(s, at, 3) {
        let pal2 = pal.update(
            index,
            [
                scale_component(s[at], six_bit),
                scale_component(s[at + 1], six_bit),
                scale_component(s[at + 2], six_bit),
                255u8,
            ],
        );
        lemma_old_colors_len(s, at + 3, index + 1, k - 1, six_bit, pal2);
    }
}

/// Old palette packets leave at most `MAX_PALETTE_ENTRIES` entries.
proof fn lemma_old_packets_capped(
    s: Seq<u8>,
    at: int,
    index: int,
    n: int,
    six_bit: bool,
    pal: Seq<[u8; 4]>,
)
    requires
        0 <= index,
        pal.len() <= MAX_PALETTE_ENTRIES,
    ensures
        old_packets(s, at, index, n, six_bit, pal).0.len() <= MAX_PALETTE_ENTRIES,
    decreases n,
{
    if n > 0 && fits(s, at, 2) {
        let idx = index + s[at];
        let end = idx + packet_count(s[at + 1]);
        if end <= MAX_PALETTE_ENTRIES {
            let pal2 = if pal.len() < end {
                resized(pal, end)
            } else {
                pal
            };
            lemma_old_colors_len(s, at + 2, idx, packet_count(s[at + 1]), six_bit, pal2);
            if let (p, Ok(a)) = old_colors(s, at + 2, idx, packet_count(s[at + 1]), six_bit, pal2) {
                lemma_old_packets_capped(s, a, end, n - 1, six_bit, p);
            }
        }
    }
}

/// An old palette chunk leaves at most `MAX_PALETTE_ENTRIES` entries.
pub proof fn lemma_old_palette_capped(s: Seq<u8>, at: int, pal: Seq<[u8; 4]>, six_bit: bool)
    requires
        pal.len() <= MAX_PALETTE_ENTRIES,
    ensures
        spec_old_palette(s, at, pal, six_bit).0.len() <= MAX_PALETTE_ENTRIES,
{
    if fits(s, at, 2) {
        lemma_old_packets_capped(s, at + 2, 0, le_u16(s, at) as int, six_bit, pal);
    }
}

/// Writing entries `i..=to` leaves every other entry as it was.
proof fn lemma_new_entries_others(s: Seq<u8>, at: int, i: int, to: int, pal: Seq<[u8; 4]>, j: int)
    requires
        0 <= i,
        to < pal.len(),
        0 <= j < pal.len(),
        j < i || j > to,
    ensures
        new_entries(s, at, i, to, pal).0[j] == pal[j],
    decreases to + 1 - i,
{
    if i <= to && fits(s, at, 2) && fits(s, at + 2, 4) {
        let pal2 = pal.update(i, [s[at + 2], s[at + 3], s[at + 4], s[at + 5]]);
        if le_u16(s, at) % 2 == 1 {
            if let Ok((_, end)) = read_string_at(s, at + 6) {
                lemma_new_entries_others(s, end, i + 1, to, pal2, j);
            }
        } else {
            lemma_new_entries_others(s, at + 6, i + 1, to, pal2, j);
        }
    }
}

/// A new palette chunk is a delta: the palette takes the declared size,
/// and every entry outside the declared range keeps its color, entries new
/// to the palette being opaque black.
pub proof fn lemma_new_palette_is_delta(s: Seq<u8>, at: int, pal: Seq<[u8; 4]>)
    ensures
        spec_new_palette(s, at, pal) matches (p, Ok(_)) ==> {
            let n = le_u32(s, at) as int;
            let from = le_u32(s, at + 4) as int;
            let to = le_u32(s, at + 8) as int;
            &&& p.len() == n
            &&& forall|j: int|
                0 <= j < n && !(from <= j <= to) ==> #[trigger] p[j] == (if j < pal.len() {
                    pal[j]
                } else {
                    opaque_black()
                })
        },
{
    if let (p, Ok(_)) = spec_new_palette(s, at, pal) {
        let n = le_u32(s, at) as int;
        let from = le_u32(s, at + 4) as int;
        let to = le_u32(s, at + 8) as int;
        let base = resized(pal, n);
        lemma_new_entries_len(s, at + 20, from, to, base);
        assert forall|j: int| 0 <= j < n && !(from <= j <= to) implies #[trigger] p[j] == (if j < pal.len() {
            pal[j]
        } else {
            opaque_black()
        }) by {
            lemma_new_entries_others(s, at + 20, from, to, base, j);
        }
    }
}

} // verus!
