//! Tags chunk (0x2018).
use crate::error::ParseError;
use crate::model::{AniDir, Tag, TagV, UserData, UserDataV};
use crate::read::{eof_at, fits, le_u16, read_string_at, skip_err, Reader};
use vstd::prelude::*;

verus! {

broadcast use crate::read::lemma_cursor_nonneg;

/// The loop direction a stored byte names; out-of-range values mean forward.
pub open spec fn direction_of(b: u8) -> AniDir {
    if b == 1 {
        AniDir::Reverse
    } else if b == 2 {
        AniDir::PingPong
    } else if b == 3 {
        AniDir::PingPongReverse
    } else {
        AniDir::Forward
    }
}

/// `k` tag entries read from `at`: their models (no user data yet) and the
/// offset after the last.
pub open spec fn tag_entries(s: Seq<u8>, at: int, k: int) -> Result<(Seq<TagV>, int), ParseError>
    decreases k,
{
    if k <= 0 {
        Ok((Seq::empty(), at))
    } else if !fits(s, at, 2) {
        Err(eof_at(s, at, 2))
    } else if !fits(s, at + 2, 2) {
        Err(eof_at(s, at + 2, 2))
    } else if !fits(s, at + 4, 1) {
        Err(eof_at(s, at + 4, 1))
    } else if !fits(s, at + 5, 2) {
        Err(eof_at(s, at + 5, 2))
    } else if !fits(s, at + 7, 6) {
        Err(skip_err(s, at + 7, 6))
    } else if !fits(s, at + 13, 3) {
        Err(eof_at(s, s.len() as int, 1))
    } else if !fits(s, at + 16, 1) {
        Err(skip_err(s, at + 16, 1))
    } else {
        match read_string_at(s, at + 17) {
            Err(e) => Err(e),
            Ok((name, end)) => match tag_entries(s, end, k - 1) {
                Err(e) => Err(e),
                Ok((rest, e2)) => Ok(
                    (
                        seq![
                            TagV {
                                from_frame: le_u16(s, at),
                                to_frame: le_u16(s, at + 2),
                                direction: direction_of(s[at + 4]),
                                repeat: le_u16(s, at + 5),
                                color: seq![s[at + 13], s[at + 14], s[at + 15]],
                                name,
                                user_data: UserDataV::empty(),
                            },
                        ] + rest,
                        e2,
                    ),
                ),
            },
        }
    }
}

/// Tags come out of a tags chunk without user data.
pub(crate) proof fn lemma_tag_entries_plain(s: Seq<u8>, at: int, k: int)
    ensures
        tag_entries(s, at, k) matches Ok((ts, _)) ==> forall|i: int|
            0 <= i < ts.len() ==> (#[trigger] ts[i]).user_data == UserDataV::empty(),
    decreases k,
{
    if k > 0 && fits(s, at, 17) {
        if let Ok((name, end)) = read_string_at(s, at + 17) {
            lemma_tag_entries_plain(s, end, k - 1);
            if let Ok((rest, _)) = tag_entries(s, end, k - 1) {
                if let Ok((ts, _)) = tag_entries(s, at, k) {
                    assert forall|i: int| 0 <= i < ts.len() implies (#[trigger] ts[i]).user_data
                        == UserDataV::empty() by {
                        if i > 0 {
                            assert(ts[i] == rest[i - 1]);
                        }
                    }
                }
            }
        }
    }
}

/// Outcome of a tags chunk at `at`.
pub open spec fn spec_tags(s: Seq<u8>, at: int) -> Result<(Seq<TagV>, int), ParseError> {
    if !fits(s, at, 2) {
        Err(eof_at(s, at, 2))
    } else if !fits(s, at + 2, 8) {
        Err(skip_err(s, at + 2, 8))
    } else {
        tag_entries(s, at + 10, le_u16(s, at) as int)
    }
}

/// A stored loop-direction byte decodes as 0 forward, 1 reverse, 2 ping-pong,
/// 3 ping-pong reversed, and any other value forward; in a tags chunk the
/// first tag's direction is the byte 14 bytes into the chunk (after the
/// count, 8 reserved bytes and the tag's two frame numbers), and its frames
/// are the two words before it.
pub proof fn lemma_tag_direction_decoding(s: Seq<u8>, at: int, b: u8)
    ensures
        (direction_of(b) == AniDir::Reverse) <==> b == 1,
        (direction_of(b) == AniDir::PingPong) <==> b == 2,
        (direction_of(b) == AniDir::PingPongReverse) <==> b == 3,
        (direction_of(b) == AniDir::Forward) <==> (b == 0 || b > 3),
        spec_tags(s, at) matches Ok((ts, _)) ==> ts.len() > 0 ==> {
            &&& ts[0].from_frame == s[at + 10] as int + 256 * s[at + 11] as int
            &&& ts[0].to_frame == s[at + 12] as int + 256 * s[at + 13] as int
            &&& ts[0].direction == (if s[at + 14] == 1 {
                AniDir::Reverse
            } else if s[at + 14] == 2 {
                AniDir::PingPong
            } else if s[at + 14] == 3 {
                AniDir::PingPongReverse
            } else {
                AniDir::Forward
            })
        },
{
    if let Ok((ts, _)) = spec_tags(s, at) {
        if ts.len() > 0 {
            assert(le_u16(s, at) > 0);
        }
    }
}

/// Models of a list of tags.
pub open spec fn tags_view(v: Seq<Tag>) -> Seq<TagV> {
    v.map_values(|t: Tag| t@)
}

/// Parses a tags chunk. Tags start without user data; the chunks that
/// follow attach it.
pub fn parse_tags(r: &mut Reader) -> (res: Result<Vec<Tag>, ParseError>)
    ensures
        final(r).input() == old(r).input(),
        match spec_tags(old(r).input(), old(r).cursor()) {
            Ok((v, end)) => res matches Ok(out) && tags_view(out@) == v && final(r).cursor() == end,
            Err(e) => res == Err::<Vec<Tag>, ParseError>(e),
        },
{
    let ghost s = r.input();
    let ghost at0 = r.cursor();
    let n = r.u16()?;
    r.skip(8)?;
    let mut tags: Vec<Tag> = Vec::new();
    let mut k: u16 = 0;
    while k < n
        invariant
            r.input() == s,
            s == old(r).input(),
            at0 == old(r).cursor(),
            r.cursor() <= s.len(),
            k <= n,
            fits(s, at0, 10),
            n == le_u16(s, at0),
            match tag_entries(s, r.cursor(), (n - k) as int) {
                Ok((rest, end)) => spec_tags(s, at0) == Ok::<(Seq<TagV>, int), ParseError>(
                    (tags_view(tags@) + rest, end),
                ),
                Err(e) => spec_tags(s, at0) == Err::<(Seq<TagV>, int), ParseError>(e),
            },
        decreases n - k,
    {
        let from_frame = r.u16()?;
        let to_frame = r.u16()?;
        let dir = r.u8()?;
        let direction = match dir {
            1 => AniDir::Reverse,
            2 => AniDir::PingPong,
            3 => AniDir::PingPongReverse,
            _ => AniDir::Forward,
        };
        let repeat = r.u16()?;
        r.skip(6)?;
        let c0 = r.u8()?;
        let c1 = r.u8()?;
        let c2 = r.u8()?;
        r.skip(1)?;
        let name = r.string()?;
        let ghost before = tags_view(tags@);
        let tag = Tag {
            from_frame,
            to_frame,
            direction,
            repeat,
            color: [c0, c1, c2],
            name,
            user_data: UserData::default(),
        };
        assert(tag.color@ =~= seq![c0, c1, c2]);
        tags.push(tag);
        assert(tags_view(tags@) =~= before + seq![tag@]);
        proof {
            match tag_entries(s, r.cursor(), (n - k - 1) as int) {
                Ok((rest, end)) => {
                    assert(before + seq![tag@] + rest =~= before + (seq![tag@] + rest));
                },
                Err(e) => {},
            }
        }
        k = k + 1;
    }
    assert(tags_view(tags@) + Seq::<TagV>::empty() =~= tags_view(tags@));
    Ok(tags)
}

} // verus!
