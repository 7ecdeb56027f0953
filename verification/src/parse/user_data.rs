//! User data chunk (0x2020): text, color, and typed properties maps.
//! Which object a chunk attaches to is decided by the file walk.
use crate::error::ParseError;
use crate::limits::MAX_PROPERTY_DEPTH;
use crate::model::{
    nests_within, props_view, user_data_nests_within, value_view, Properties, PropertiesMap,
    Property, PropertyV, PropertyValue, PropertyValueV, UserData, UserDataV,
};
use crate::read::{eof_at, fits, le_u16, le_u32, le_u64, read_string_at, Reader};
use vstd::prelude::*;

verus! {

broadcast use crate::read::lemma_cursor_nonneg;

/// Bytes of `s` from `at` on (0 past the end); never grows as `at` does.
pub open spec fn rest(s: Seq<u8>, at: int) -> nat {
    if at <= s.len() {
        (s.len() - at) as nat
    } else {
        0
    }
}

/// A property list at `at` (nesting level `depth`): the properties and the
/// number of bytes they occupy.
pub open spec fn spec_props(s: Seq<u8>, at: int, depth: int) -> Result<
    (Seq<PropertyV>, nat),
    ParseError,
>
    decreases rest(s, at), 0int, 0int,
{
    if depth > MAX_PROPERTY_DEPTH {
        Err(ParseError::LimitExceeded { offset: at as usize, what: "property nesting" })
    } else if !fits(s, at, 4) {
        Err(eof_at(s, at, 4))
    } else if le_u32(s, at) > (s.len() - (at + 4)) / 5 {
        Err(ParseError::Invalid { offset: (at + 4) as usize, what: "property count" })
    } else {
        match prop_entries(s, at + 4, le_u32(s, at) as int, depth) {
            Err(e) => Err(e),
            Ok((ps, c)) => Ok((ps, c + 4)),
        }
    }
}

/// `k` named properties from `at`.
pub open spec fn prop_entries(s: Seq<u8>, at: int, k: int, depth: int) -> Result<
    (Seq<PropertyV>, nat),
    ParseError,
>
    decreases rest(s, at), 3int, k,
{
    if k <= 0 {
        Ok((Seq::empty(), 0))
    } else {
        match read_string_at(s, at) {
            Err(e) => Err(e),
            Ok((name, name_end)) => if !fits(s, name_end, 2) {
                Err(eof_at(s, name_end, 2))
            } else {
                match spec_value(s, name_end + 2, le_u16(s, name_end), depth) {
                    Err(e) => Err(e),
                    Ok((v, c)) => match prop_entries(s, name_end + 2 + c, k - 1, depth) {
                        Err(e) => Err(e),
                        Ok((ps, c2)) => Ok(
                            (
                                seq![PropertyV { name, value: v }] + ps,
                                (name_end + 2 - at) as nat + c + c2,
                            ),
                        ),
                    },
                }
            },
        }
    }
}

/// `k` vector elements from `at`; `elems_type` 0 means each element carries
/// its own type WORD.
pub open spec fn vec_elems(s: Seq<u8>, at: int, k: int, elems_type: u16, depth: int) -> Result<
    (Seq<PropertyValueV>, nat),
    ParseError,
>
    decreases rest(s, at), 2int, k,
{
    if k <= 0 {
        Ok((Seq::empty(), 0))
    } else if elems_type == 0 && !fits(s, at, 2) {
        Err(eof_at(s, at, 2))
    } else {
        let ty = if elems_type == 0 {
            le_u16(s, at)
        } else {
            elems_type
        };
        let hdr: nat = if elems_type == 0 {
            2
        } else {
            0
        };
        match spec_value(s, at + hdr, ty, depth + 1) {
            Err(e) => Err(e),
            Ok((v, c)) => match vec_elems(s, at + hdr + c, k - 1, elems_type, depth) {
                Err(e) => Err(e),
                Ok((vs, c2)) => Ok((seq![v] + vs, hdr + c + c2)),
            },
        }
    }
}

/// A fixed-size value of `n` bytes at `at`.
pub open spec fn fixed_value(s: Seq<u8>, at: int, n: int, v: PropertyValueV) -> Result<
    (PropertyValueV, nat),
    ParseError,
> {
    if !fits(s, at, n) {
        Err(eof_at(s, at, n))
    } else {
        Ok((v, n as nat))
    }
}

/// A run of `count` DWORDs at `at`, as read one by one.
pub open spec fn dwords_value(s: Seq<u8>, at: int, count: int, v: PropertyValueV) -> Result<
    (PropertyValueV, nat),
    ParseError,
> {
    if !fits(s, at, 4 * count) {
        Err(eof_at(s, at + 4 * ((s.len() - at) / 4), 4))
    } else {
        Ok((v, (4 * count) as nat))
    }
}

/// A value of property type `ty` at `at`.
pub open spec fn spec_value(s: Seq<u8>, at: int, ty: u16, depth: int) -> Result<
    (PropertyValueV, nat),
    ParseError,
>
    decreases rest(s, at), 1int, 0int,
{
    if ty == 1 {
        fixed_value(s, at, 1, PropertyValueV::Bool(s[at] != 0))
    } else if ty == 2 {
        fixed_value(s, at, 1, PropertyValueV::I8(s[at] as i8))
    } else if ty == 3 {
        fixed_value(s, at, 1, PropertyValueV::U8(s[at]))
    } else if ty == 4 {
        fixed_value(s, at, 2, PropertyValueV::I16(le_u16(s, at) as i16))
    } else if ty == 5 {
        fixed_value(s, at, 2, PropertyValueV::U16(le_u16(s, at)))
    } else if ty == 6 {
        fixed_value(s, at, 4, PropertyValueV::I32(le_u32(s, at) as i32))
    } else if ty == 7 {
        fixed_value(s, at, 4, PropertyValueV::U32(le_u32(s, at)))
    } else if ty == 8 {
        fixed_value(s, at, 8, PropertyValueV::I64(le_u64(s, at) as i64))
    } else if ty == 9 {
        fixed_value(s, at, 8, PropertyValueV::U64(le_u64(s, at)))
    } else if ty == 10 {
        fixed_value(s, at, 4, PropertyValueV::Fixed(le_u32(s, at) as i32))
    } else if ty == 11 {
        fixed_value(s, at, 4, PropertyValueV::F32(le_u32(s, at)))
    } else if ty == 12 {
        fixed_value(s, at, 8, PropertyValueV::F64(le_u64(s, at)))
    } else if ty == 13 {
        match read_string_at(s, at) {
            Err(e) => Err(e),
            Ok((t, end)) => Ok((PropertyValueV::Str(t), (end - at) as nat)),
        }
    } else if ty == 14 {
        dwords_value(
            s,
            at,
            2,
            PropertyValueV::Point(le_u32(s, at) as i32, le_u32(s, at + 4) as i32),
        )
    } else if ty == 15 {
        dwords_value(
            s,
            at,
            2,
            PropertyValueV::Size(le_u32(s, at) as i32, le_u32(s, at + 4) as i32),
        )
    } else if ty == 16 {
        dwords_value(
            s,
            at,
            4,
            PropertyValueV::Rect(
                le_u32(s, at) as i32,
                le_u32(s, at + 4) as i32,
                le_u32(s, at + 8) as i32,
                le_u32(s, at + 12) as i32,
            ),
        )
    } else if ty == 17 {
        if !fits(s, at, 4) {
            Err(eof_at(s, at, 4))
        } else if !fits(s, at + 4, 2) {
            Err(eof_at(s, at + 4, 2))
        } else if le_u32(s, at) > s.len() - (at + 6) {
            Err(ParseError::Invalid { offset: (at + 6) as usize, what: "vector length" })
        } else {
            match vec_elems(s, at + 6, le_u32(s, at) as int, le_u16(s, at + 4), depth) {
                Err(e) => Err(e),
                Ok((vs, c)) => Ok((PropertyValueV::Vector(vs), c + 6)),
            }
        }
    } else if ty == 18 {
        match spec_props(s, at, depth + 1) {
            Err(e) => Err(e),
            Ok((ps, c)) => Ok((PropertyValueV::PropMap(ps), c)),
        }
    } else if ty == 19 {
        fixed_value(s, at, 16, PropertyValueV::Uuid(s.subrange(at, at + 16)))
    } else {
        Err(ParseError::Invalid { offset: at as usize, what: "property type" })
    }
}

/// A property list read at nesting level `depth` exists only up to level
/// `MAX_PROPERTY_DEPTH`, and its values nest at most the levels left.
proof fn lemma_props_nest(s: Seq<u8>, at: int, depth: int)
    ensures
        spec_props(s, at, depth) matches Ok((ps, _)) ==> depth <= MAX_PROPERTY_DEPTH && forall|i: int|
            0 <= i < ps.len() ==> nests_within(#[trigger] ps[i].value, MAX_PROPERTY_DEPTH - depth),
    decreases rest(s, at), 0int, 0int,
{
    if depth <= MAX_PROPERTY_DEPTH && fits(s, at, 4) && le_u32(s, at) <= (s.len() - (at + 4)) / 5 {
        lemma_entries_nest(s, at + 4, le_u32(s, at) as int, depth);
    }
}

/// Named properties read at level `depth` nest at most the levels left.
proof fn lemma_entries_nest(s: Seq<u8>, at: int, k: int, depth: int)
    ensures
        prop_entries(s, at, k, depth) matches Ok((ps, _)) ==> forall|i: int|
            0 <= i < ps.len() ==> nests_within(#[trigger] ps[i].value, MAX_PROPERTY_DEPTH - depth),
    decreases rest(s, at), 3int, k,
{
    if k > 0 {
        if let Ok((name, name_end)) = read_string_at(s, at) {
            if fits(s, name_end, 2) {
                lemma_value_nest(s, name_end + 2, le_u16(s, name_end), depth);
                if let Ok((v, c)) = spec_value(s, name_end + 2, le_u16(s, name_end), depth) {
                    lemma_entries_nest(s, name_end + 2 + c, k - 1, depth);
                    if let Ok((ps, _)) = prop_entries(s, name_end + 2 + c, k - 1, depth) {
                        let all = seq![PropertyV { name, value: v }] + ps;
                        assert forall|i: int| 0 <= i < all.len() implies nests_within(
                            #[trigger] all[i].value,
                            MAX_PROPERTY_DEPTH - depth,
                        ) by {
                            if i > 0 {
                                assert(all[i] == ps[i - 1]);
                            }
                        }
                    }
                }
            }
        }
    }
}

/// Vector elements of a vector read at level `depth` sit one level down.
proof fn lemma_vec_nest(s: Seq<u8>, at: int, k: int, elems_type: u16, depth: int)
    ensures
        vec_elems(s, at, k, elems_type, depth) matches Ok((vs, _)) ==> forall|i: int|
            0 <= i < vs.len() ==> nests_within(#[trigger] vs[i], MAX_PROPERTY_DEPTH - depth - 1),
    decreases rest(s, at), 2int, k,
{
    if k > 0 && !(elems_type == 0 && !fits(s, at, 2)) {
        let ty = if elems_type == 0 {
            le_u16(s, at)
        } else {
            elems_type
        };
        let hdr: nat = if elems_type == 0 {
            2
        } else {
            0
        };
        lemma_value_nest(s, at + hdr, ty, depth + 1);
        if let Ok((v, c)) = spec_value(s, at + hdr, ty, depth + 1) {
            lemma_vec_nest(s, at + hdr + c, k - 1, elems_type, depth);
            if let Ok((vs, _)) = vec_elems(s, at + hdr + c, k - 1, elems_type, depth) {
                let all = seq![v] + vs;
                assert forall|i: int| 0 <= i < all.len() implies nests_within(
                    #[trigger] all[i],
                    MAX_PROPERTY_DEPTH - depth - 1,
                ) by {
                    if i > 0 {
                        assert(all[i] == vs[i - 1]);
                    }
                }
            }
        }
    }
}

/// A value read at level `depth` nests at most the levels left.
proof fn lemma_value_nest(s: Seq<u8>, at: int, ty: u16, depth: int)
    ensures
        spec_value(s, at, ty, depth) matches Ok((v, _)) ==> nests_within(v, MAX_PROPERTY_DEPTH - depth),
    decreases rest(s, at), 1int, 0int,
{
    if ty == 17 {
        if fits(s, at, 4) && fits(s, at + 4, 2) && le_u32(s, at) <= s.len() - (at + 6) {
            lemma_vec_nest(s, at + 6, le_u32(s, at) as int, le_u16(s, at + 4), depth);
        }
    } else if ty == 18 {
        lemma_props_nest(s, at, depth + 1);
    }
}

/// Properties maps of a blob nest at most `MAX_PROPERTY_DEPTH` levels.
proof fn lemma_maps_nest(s: Seq<u8>, at: int, k: int, end: int)
    ensures
        map_entries(s, at, k, end) matches Ok(ms) ==> forall|m: int, i: int|
            0 <= m < ms.len() && 0 <= i < ms[m].1.len() ==> nests_within(
                #[trigger] ms[m].1[i].value,
                MAX_PROPERTY_DEPTH as int,
            ),
    decreases k,
{
    if k > 0 && at < end && fits(s, at, 4) {
        lemma_props_nest(s, at + 4, 0);
        if let Ok((ps, c)) = spec_props(s, at + 4, 0) {
            lemma_maps_nest(s, at + 4 + c, k - 1, end);
            if let Ok(more) = map_entries(s, at + 4 + c, k - 1, end) {
                let all = seq![(le_u32(s, at), ps)] + more;
                assert forall|m: int, i: int| 0 <= m < all.len() && 0 <= i < all[m].1.len() implies nests_within(
                    #[trigger] all[m].1[i].value,
                    MAX_PROPERTY_DEPTH as int,
                ) by {
                    if m > 0 {
                        assert(all[m] == more[m - 1]);
                    }
                }
            }
        }
    }
}

/// Parsed user data nests its properties at most `MAX_PROPERTY_DEPTH`
/// levels deep.
pub(crate) proof fn lemma_user_data_nest(s: Seq<u8>, at: int)
    ensures
        spec_user_data(s, at) matches Ok((ud, _)) ==> user_data_nests_within(
            ud,
            MAX_PROPERTY_DEPTH as int,
        ),
{
    if fits(s, at, 4) {
        let flags = le_u32(s, at);
        let text_r: Result<(Option<Seq<char>>, int), ParseError> = if flags % 2 == 1 {
            match read_string_at(s, at + 4) {
                Ok((t, e)) => Ok((Some(t), e)),
                Err(e) => Err(e),
            }
        } else {
            Ok((None, at + 4))
        };
        if let Ok((text, p2)) = text_r {
            let p3 = if (flags / 2) % 2 == 1 {
                p2 + 4
            } else {
                p2
            };
            if fits(s, p3, 4) {
                if fits(s, p3 + 4, 4) {
                    lemma_maps_nest(s, p3 + 8, le_u32(s, p3 + 4) as int, p3 + le_u32(s, p3));
                }
            }
        }
    }
}

/// Parses a property list at nesting level `depth`.
fn parse_properties(r: &mut Reader, depth: u64) -> (res: Result<Properties, ParseError>)
    ensures
        final(r).input() == old(r).input(),
        match spec_props(old(r).input(), old(r).cursor(), depth as int) {
            Ok((ps, c)) => res matches Ok(out) && props_view(out@) == ps && final(r).cursor()
                == old(r).cursor() + c,
            Err(e) => res == Err::<Properties, ParseError>(e),
        },
        final(r).cursor() <= final(r).input().len(),
    decreases rest(old(r).input(), old(r).cursor()), 0int, 0int,
{
    let ghost s = r.input();
    let ghost at0 = r.cursor();
    let _ = r.pos();
    if depth > MAX_PROPERTY_DEPTH as u64 {
        return Err(ParseError::LimitExceeded { offset: r.pos(), what: "property nesting" });
    }
    let n = r.u32()?;
    if n as usize > r.remaining() / 5 {
        return Err(ParseError::Invalid { offset: r.pos(), what: "property count" });
    }
    let mut props: Vec<Property> = Vec::new();
    let mut k: u32 = 0;
    while k < n
        invariant
            r.input() == s,
            s == old(r).input(),
            at0 == old(r).cursor(),
            at0 + 4 <= r.cursor() <= s.len(),
            s.len() <= usize::MAX,
            k <= n,
            depth <= MAX_PROPERTY_DEPTH,
            match prop_entries(s, r.cursor(), (n - k) as int, depth as int) {
                Ok((rest_ps, c)) => spec_props(s, at0, depth as int) == Ok::<
                    (Seq<PropertyV>, nat),
                    ParseError,
                >((props_view(props@) + rest_ps, (r.cursor() - at0) as nat + c)),
                Err(e) => spec_props(s, at0, depth as int) == Err::<(Seq<PropertyV>, nat), ParseError>(
                    e,
                ),
            },
        decreases n - k,
    {
        let ghost c0 = r.cursor();
        let name = r.string()?;
        let ty = r.u16()?;
        let value = parse_value(r, ty, depth);
        let value = value?;
        let ghost before = props_view(props@);
        let ghost pv = PropertyV { name: name@, value: value_view(value) };
        props.push(Property { name, value });
        proof {
            assert(props_view(props@) =~= before + seq![pv]);
            match prop_entries(s, r.cursor(), (n - k - 1) as int, depth as int) {
                Ok((rest_ps, c)) => {
                    assert(before + seq![pv] + rest_ps =~= before + (seq![pv] + rest_ps));
                },
                Err(e) => {},
            }
        }
        k = k + 1;
    }
    assert(props_view(props@) + Seq::<PropertyV>::empty() =~= props_view(props@));
    Ok(props)
}

/// Parses a value of property type `ty`. Unknown types abort: their width
/// is unknown, so nothing after them can be read.
#[verifier::rlimit(80)]
#[verifier::spinoff_prover]
fn parse_value(r: &mut Reader, ty: u16, depth: u64) -> (res: Result<PropertyValue, ParseError>)
    requires
        depth <= old(r).cursor() / 6 + MAX_PROPERTY_DEPTH + 1,
    ensures
        final(r).input() == old(r).input(),
        match spec_value(old(r).input(), old(r).cursor(), ty, depth as int) {
            Ok((v, c)) => res matches Ok(out) && value_view(out) == v && final(r).cursor()
                == old(r).cursor() + c,
            Err(e) => res == Err::<PropertyValue, ParseError>(e),
        },
        final(r).cursor() <= final(r).input().len(),
    decreases rest(old(r).input(), old(r).cursor()), 1int, 0int,
{
    let ghost s = r.input();
    let ghost at0 = r.cursor();
    let _ = r.pos();
    match ty {
        1 => {
            let b = r.u8()?;
            Ok(PropertyValue::Bool(b != 0))
        },
        2 => {
            let b = r.u8()?;
            Ok(PropertyValue::I8(b as i8))
        },
        3 => {
            let b = r.u8()?;
            Ok(PropertyValue::U8(b))
        },
        4 => {
            let v = r.i16()?;
            Ok(PropertyValue::I16(v))
        },
        5 => {
            let v = r.u16()?;
            Ok(PropertyValue::U16(v))
        },
        6 => {
            let v = r.i32()?;
            Ok(PropertyValue::I32(v))
        },
        7 => {
            let v = r.u32()?;
            Ok(PropertyValue::U32(v))
        },
        8 => {
            let v = r.u64()?;
            Ok(PropertyValue::I64(v as i64))
        },
        9 => {
            let v = r.u64()?;
            Ok(PropertyValue::U64(v))
        },
        10 => {
            let v = r.i32()?;
            Ok(PropertyValue::Fixed(v))
        },
        11 => {
            let v = r.u32()?;
            Ok(PropertyValue::F32(v))
        },
        12 => {
            let v = r.u64()?;
            Ok(PropertyValue::F64(v))
        },
        13 => {
            let t = r.string()?;
            Ok(PropertyValue::Str(t))
        },
        14 => {
            let a = r.i32()?;
            let b = r.i32()?;
            Ok(PropertyValue::Point(a, b))
        },
        15 => {
            let a = r.i32()?;
            let b = r.i32()?;
            Ok(PropertyValue::Size(a, b))
        },
        16 => {
            let a = r.i32()?;
            let b = r.i32()?;
            let c = r.i32()?;
            let d = r.i32()?;
            Ok(PropertyValue::Rect(a, b, c, d))
        },
        17 => parse_vector(r, depth),
        18 => {
            let ps = parse_properties(r, depth + 1)?;
            let ghost pv = props_view(ps@);
            let out = PropertyValue::PropMap(ps);
            assert(value_view(out) == PropertyValueV::PropMap(pv)) by {
                if let PropertyValueV::PropMap(w) = value_view(out) {
                    assert(w =~= pv);
                }
            }
            Ok(out)
        },
        19 => {
            let b = r.bytes(16)?;
            let u: [u8; 16] = [
                b[0],
                b[1],
                b[2],
                b[3],
                b[4],
                b[5],
                b[6],
                b[7],
                b[8],
                b[9],
                b[10],
                b[11],
                b[12],
                b[13],
                b[14],
                b[15],
            ];
            assert(u@ =~= b@);
            Ok(PropertyValue::Uuid(u))
        },
        _ => Err(ParseError::Invalid { offset: r.pos(), what: "property type" }),
    }
}


/// Parses a vector value: element count, element type (0 = each element
/// carries its own), then the elements one nesting level deeper.
fn parse_vector(r: &mut Reader, depth: u64) -> (res: Result<PropertyValue, ParseError>)
    requires
        depth <= old(r).cursor() / 6 + MAX_PROPERTY_DEPTH + 1,
    ensures
        final(r).input() == old(r).input(),
        final(r).cursor() <= final(r).input().len(),
        match spec_value(old(r).input(), old(r).cursor(), 17, depth as int) {
            Ok((v, c)) => res matches Ok(out) && value_view(out) == v && final(r).cursor()
                == old(r).cursor() + c,
            Err(e) => res == Err::<PropertyValue, ParseError>(e),
        },
    decreases rest(old(r).input(), old(r).cursor()), 0int, 0int,
{
    let ghost s = r.input();
    let ghost at0 = r.cursor();
    let _ = r.pos();
    let n = r.u32()?;
    let elems_type = r.u16()?;
    if n as usize > r.remaining() {
        return Err(ParseError::Invalid { offset: r.pos(), what: "vector length" });
    }
    let mut v: Vec<PropertyValue> = Vec::new();
    let mut k: u32 = 0;
    while k < n
        invariant
            r.input() == s,
            s == old(r).input(),
            at0 == old(r).cursor(),
            at0 + 6 <= r.cursor() <= s.len(),
            s.len() <= usize::MAX,
            k <= n,
            depth <= at0 / 6 + MAX_PROPERTY_DEPTH + 1,
            match vec_elems(s, r.cursor(), (n - k) as int, elems_type, depth as int) {
                Ok((rest_vs, c)) => spec_value(s, at0, 17, depth as int) == Ok::<
                    (PropertyValueV, nat),
                    ParseError,
                >(
                    (
                        PropertyValueV::Vector(
                            v@.map_values(|x: PropertyValue| value_view(x)) + rest_vs,
                        ),
                        (r.cursor() - at0) as nat + c,
                    ),
                ),
                Err(e) => spec_value(s, at0, 17, depth as int) == Err::<
                    (PropertyValueV, nat),
                    ParseError,
                >(e),
            },
        decreases n - k,
    {
        let et = if elems_type == 0 {
            r.u16()?
        } else {
            elems_type
        };
        let x = parse_value(r, et, depth + 1)?;
        let ghost before = v@.map_values(|x: PropertyValue| value_view(x));
        let ghost xv = value_view(x);
        v.push(x);
        proof {
            assert(v@.map_values(|x: PropertyValue| value_view(x)) =~= before + seq![xv]);
            match vec_elems(s, r.cursor(), (n - k - 1) as int, elems_type, depth as int) {
                Ok((rest_vs, c)) => {
                    assert(before + seq![xv] + rest_vs =~= before + (seq![xv] + rest_vs));
                },
                Err(e) => {},
            }
        }
        k = k + 1;
    }
    let ghost vv = v@.map_values(|x: PropertyValue| value_view(x));
    assert(vv + Seq::<PropertyValueV>::empty() =~= vv);
    let out = PropertyValue::Vector(v);
    assert(value_view(out) == PropertyValueV::Vector(vv)) by {
        if let PropertyValueV::Vector(w) = value_view(out) {
            assert(w =~= vv);
        }
    }
    Ok(out)

}

/// `k` properties maps from `at`, each required to start before `end`.
pub open spec fn map_entries(s: Seq<u8>, at: int, k: int, end: int) -> Result<
    Seq<(u32, Seq<PropertyV>)>,
    ParseError,
>
    decreases k,
{
    if k <= 0 {
        Ok(Seq::empty())
    } else if at >= end {
        Err(ParseError::Invalid { offset: at as usize, what: "properties map count" })
    } else if !fits(s, at, 4) {
        Err(eof_at(s, at, 4))
    } else {
        match spec_props(s, at + 4, 0) {
            Err(e) => Err(e),
            Ok((ps, c)) => match map_entries(s, at + 4 + c, k - 1, end) {
                Err(e) => Err(e),
                Ok(rest_maps) => Ok(seq![(le_u32(s, at), ps)] + rest_maps),
            },
        }
    }
}

/// The properties maps of a blob at `at` that ends at `end`.
pub open spec fn spec_maps(s: Seq<u8>, at: int, end: int) -> Result<
    Seq<(u32, Seq<PropertyV>)>,
    ParseError,
> {
    if !fits(s, at, 4) {
        Err(eof_at(s, at, 4))
    } else {
        map_entries(s, at + 4, le_u32(s, at) as int, end)
    }
}

/// Models of a list of properties maps.
pub open spec fn maps_view(v: Seq<PropertiesMap>) -> Seq<(u32, Seq<PropertyV>)> {
    v.map_values(|m: PropertiesMap| (m.key, props_view(m.properties@)))
}

fn parse_maps(r: &mut Reader, end: usize) -> (res: Result<Vec<PropertiesMap>, ParseError>)
    ensures
        final(r).input() == old(r).input(),
        match spec_maps(old(r).input(), old(r).cursor(), end as int) {
            Ok(m) => res matches Ok(out) && maps_view(out@) == m,
            Err(e) => res == Err::<Vec<PropertiesMap>, ParseError>(e),
        },
{
    let ghost s = r.input();
    let ghost at0 = r.cursor();
    let n_maps = r.u32()?;
    let mut maps: Vec<PropertiesMap> = Vec::new();
    let mut k: u32 = 0;
    while k < n_maps
        invariant
            r.input() == s,
            s == old(r).input(),
            at0 == old(r).cursor(),
            r.cursor() <= s.len(),
            k <= n_maps,
            match map_entries(s, r.cursor(), (n_maps - k) as int, end as int) {
                Ok(rest_maps) => spec_maps(s, at0, end as int) == Ok::<
                    Seq<(u32, Seq<PropertyV>)>,
                    ParseError,
                >(maps_view(maps@) + rest_maps),
                Err(e) => spec_maps(s, at0, end as int) == Err::<
                    Seq<(u32, Seq<PropertyV>)>,
                    ParseError,
                >(e),
            },
        decreases n_maps - k,
    {
        if r.pos() >= end {
            return Err(ParseError::Invalid { offset: r.pos(), what: "properties map count" });
        }
        let key = r.u32()?;
        let properties = parse_properties(r, 0)?;
        let ghost before = maps_view(maps@);
        let ghost mv = (key, props_view(properties@));
        maps.push(PropertiesMap { key, properties });
        proof {
            assert(maps_view(maps@) =~= before + seq![mv]);
            match map_entries(s, r.cursor(), (n_maps - k - 1) as int, end as int) {
                Ok(rest_maps) => {
                    assert(before + seq![mv] + rest_maps =~= before + (seq![mv] + rest_maps));
                },
                Err(e) => {},
            }
        }
        k = k + 1;
    }
    assert(maps_view(maps@) + Seq::<(u32, Seq<PropertyV>)>::empty() =~= maps_view(maps@));
    Ok(maps)
}

/// Outcome of a user data chunk at `at`: the user data and the offset after
/// it. A properties blob whose maps cannot be parsed (for example an
/// unknown property type) yields no maps; the reader always moves to the
/// blob's declared end. A blob end past `usize::MAX` is reported like an
/// overlong relative seek.
pub open spec fn spec_user_data(s: Seq<u8>, at: int) -> Result<(UserDataV, int), ParseError> {
    if !fits(s, at, 4) {
        Err(eof_at(s, at, 4))
    } else {
        let flags = le_u32(s, at);
        let text_r: Result<(Option<Seq<char>>, int), ParseError> = if flags % 2 == 1 {
            match read_string_at(s, at + 4) {
                Ok((t, e)) => Ok((Some(t), e)),
                Err(e) => Err(e),
            }
        } else {
            Ok((None, at + 4))
        };
        match text_r {
            Err(e) => Err(e),
            Ok((text, p2)) => if (flags / 2) % 2 == 1 && !fits(s, p2, 4) {
                Err(eof_at(s, s.len() as int, 1))
            } else {
                let color = if (flags / 2) % 2 == 1 {
                    Some(s.subrange(p2, p2 + 4))
                } else {
                    None
                };
                let p3 = if (flags / 2) % 2 == 1 {
                    p2 + 4
                } else {
                    p2
                };
                if (flags / 4) % 2 == 1 {
                    if !fits(s, p3, 4) {
                        Err(eof_at(s, p3, 4))
                    } else if le_u32(s, p3) < 8 {
                        Err(ParseError::Invalid { offset: p3 as usize, what: "properties size" })
                    } else if p3 + le_u32(s, p3) > usize::MAX {
                        Err(ParseError::UnexpectedEof { offset: p3 as usize, needed: le_u32(s, p3) as usize })
                    } else if p3 + le_u32(s, p3) > s.len() {
                        Err(
                            ParseError::UnexpectedEof {
                                offset: s.len() as usize,
                                needed: (p3 + le_u32(s, p3) - s.len()) as usize,
                            },
                        )
                    } else {
                        let maps = match spec_maps(s, p3 + 4, p3 + le_u32(s, p3)) {
                            Ok(m) => m,
                            Err(_) => Seq::empty(),
                        };
                        Ok((UserDataV { text, color, maps }, p3 + le_u32(s, p3)))
                    }
                } else {
                    Ok((UserDataV { text, color, maps: Seq::empty() }, p3))
                }
            },
        }
    }
}

/// Parses a user data chunk: optional text, optional RGBA color, optional
/// typed properties.
#[verifier::rlimit(40)]
pub fn parse_user_data(r: &mut Reader) -> (res: Result<UserData, ParseError>)
    ensures
        final(r).input() == old(r).input(),
        match spec_user_data(old(r).input(), old(r).cursor()) {
            Ok((u, end)) => res matches Ok(out) && out@ == u && final(r).cursor() == end,
            Err(e) => res == Err::<UserData, ParseError>(e),
        },
        res matches Ok(out) ==> user_data_nests_within(out@, MAX_PROPERTY_DEPTH as int),
{
    proof {
        lemma_user_data_nest(r.input(), r.cursor());
    }
    let ghost s = r.input();
    let ghost at0 = r.cursor();
    let flags = r.u32()?;
    assert((flags & 1 != 0) == (flags % 2 == 1)) by (bit_vector);
    assert((flags & 2 != 0) == ((flags / 2) % 2 == 1)) by (bit_vector);
    assert((flags & 4 != 0) == ((flags / 4) % 2 == 1)) by (bit_vector);
    let text = if flags & 1 != 0 {
        Some(r.string()?)
    } else {
        None
    };
    let color = if flags & 2 != 0 {
        let c0 = r.u8()?;
        let c1 = r.u8()?;
        let c2 = r.u8()?;
        let c3 = r.u8()?;
        let c = [c0, c1, c2, c3];
        assert(c@ =~= s.subrange(r.cursor() - 4, r.cursor() as int));
        Some(c)
    } else {
        None
    };
    let mut maps: Vec<PropertiesMap> = Vec::new();
    if flags & 4 != 0 {
        let props_start = r.pos();
        let total = r.u32()?;
        if total < 8 {
            return Err(ParseError::Invalid { offset: props_start, what: "properties size" });
        }
        let end = match props_start.checked_add(total as usize) {
            Some(e) => e,
            None => {
                return Err(ParseError::UnexpectedEof { offset: props_start, needed: total as usize });
            },
        };
        maps = match parse_maps(r, end) {
            Ok(m) => m,
            Err(_) => Vec::new(),
        };
        r.seek(end)?;
    }
    let ghost mv = maps_view(maps@);
    let out = UserData { text, color, maps };
    assert(out@.maps =~= mv);
    proof {
        let sp = spec_user_data(s, at0);
        assert(sp is Ok);
        assert(sp->Ok_0.1 == r.cursor());
        assert(sp->Ok_0.0.text == out@.text);
        assert(sp->Ok_0.0.color == out@.color);
        assert(sp->Ok_0.0.maps == out@.maps);
    }
    Ok(out)
}

} // verus!
