//! Layer chunk (0x2004) and parent resolution.
use crate::error::ParseError;
use crate::model::{blend_mode_of, BlendMode, Layer, LayerType, LayerV, UserData, UserDataV};
use crate::read::{eof_at, fits, le_u16, le_u32, read_string_at, skip_err, Reader};
use vstd::prelude::*;

verus! {

broadcast use crate::read::lemma_cursor_nonneg;

/// The layer kind and the offset after it, for a stored type read with its
/// trailing fields at `at`.
pub open spec fn layer_kind_at(s: Seq<u8>, ty: u16, at: int, type_offset: int) -> Result<
    (LayerType, int),
    ParseError,
> {
    if ty == 0 {
        Ok((LayerType::Image, at))
    } else if ty == 1 {
        Ok((LayerType::Group, at))
    } else if ty == 2 {
        if !fits(s, at, 4) {
            Err(eof_at(s, at, 4))
        } else {
            Ok((LayerType::Tilemap { tileset_index: le_u32(s, at) }, at + 4))
        }
    } else {
        Err(ParseError::Invalid { offset: type_offset as usize, what: "layer type" })
    }
}

/// Outcome of a layer chunk at `at`. The opacity byte is honored only when
/// the header marks it valid (255 otherwise); a 16-byte UUID follows when
/// the header says so. The parent is left unresolved.
pub open spec fn spec_layer(s: Seq<u8>, at: int, opacity_valid: bool, has_uuid: bool) -> Result<
    (LayerV, int),
    ParseError,
> {
    if !fits(s, at, 2) {
        Err(eof_at(s, at, 2))
    } else if !fits(s, at + 2, 2) {
        Err(eof_at(s, at + 2, 2))
    } else if !fits(s, at + 4, 2) {
        Err(eof_at(s, at + 4, 2))
    } else if !fits(s, at + 6, 4) {
        Err(skip_err(s, at + 6, 4))
    } else if !fits(s, at + 10, 2) {
        Err(eof_at(s, at + 10, 2))
    } else if !fits(s, at + 12, 1) {
        Err(
            if opacity_valid {
                eof_at(s, at + 12, 1)
            } else {
                skip_err(s, at + 12, 1)
            },
        )
    } else if !fits(s, at + 13, 3) {
        Err(skip_err(s, at + 13, 3))
    } else {
        match read_string_at(s, at + 16) {
            Err(e) => Err(e),
            Ok((name, name_end)) => match layer_kind_at(s, le_u16(s, at + 2), name_end, at + 2) {
                Err(e) => Err(e),
                Ok((kind, kind_end)) => if has_uuid && !fits(s, kind_end, 16) {
                    Err(eof_at(s, kind_end, 16))
                } else {
                    Ok(
                        (
                            LayerV {
                                flags: le_u16(s, at),
                                layer_type: kind,
                                child_level: le_u16(s, at + 4),
                                blend_mode: blend_mode_of(le_u16(s, at + 10)),
                                opacity: if opacity_valid {
                                    s[at + 12]
                                } else {
                                    255
                                },
                                name,
                                parent: None,
                                uuid: if has_uuid {
                                    Some(s.subrange(kind_end, kind_end + 16))
                                } else {
                                    None
                                },
                                user_data: UserDataV::empty(),
                            },
                            if has_uuid {
                                kind_end + 16
                            } else {
                                kind_end
                            },
                        ),
                    )
                },
            },
        }
    }
}

/// Parses a layer chunk. `opacity_valid` and `has_uuid` come from the
/// header flags.
pub fn parse_layer(r: &mut Reader, opacity_valid: bool, has_uuid: bool) -> (res: Result<
    Layer,
    ParseError,
>)
    ensures
        final(r).input() == old(r).input(),
        match spec_layer(old(r).input(), old(r).cursor(), opacity_valid, has_uuid) {
            Ok((v, end)) => res matches Ok(l) && l@ == v && final(r).cursor() == end,
            Err(e) => res == Err::<Layer, ParseError>(e),
        },
{
    let flags = r.u16()?;
    let type_offset = r.pos();
    let raw_type = r.u16()?;
    let child_level = r.u16()?;
    r.skip(4)?;
    let blend_mode = BlendMode::from_u16(r.u16()?);
    let opacity = if opacity_valid {
        r.u8()?
    } else {
        r.skip(1)?;
        255u8
    };
    r.skip(3)?;
    let name = r.string()?;
    let layer_type = match raw_type {
        0 => LayerType::Image,
        1 => LayerType::Group,
        2 => LayerType::Tilemap { tileset_index: r.u32()? },
        _ => {
            return Err(ParseError::Invalid { offset: type_offset, what: "layer type" });
        },
    };
    let uuid = if has_uuid {
        let b = r.bytes(16)?;
        let u: [u8; 16] = [
            b[0],
            b[1],
            b[2],
            b[3],
            b[4],
            b[5],
            b[6],
            b[7],
            b[8],
            b[9],
            b[10],
            b[11],
            b[12],
            b[13],
            b[14],
            b[15],
        ];
        assert(u@ =~= b@);
        Some(u)
    } else {
        None
    };
    Ok(
        Layer {
            flags,
            layer_type,
            child_level,
            blend_mode,
            opacity,
            name,
            parent: None,
            uuid,
            user_data: UserData::default(),
        },
    )
}

/// Index of the last layer in `ls` at `level`, if any.
pub open spec fn last_at_level(ls: Seq<LayerV>, level: int) -> Option<int>
    decreases ls.len(),
{
    if ls.len() == 0 {
        None
    } else if ls.last().child_level == level {
        Some(ls.len() - 1)
    } else {
        last_at_level(ls.drop_last(), level)
    }
}

/// The parent of a layer appended after `ls` at `child_level`: the nearest
/// preceding layer one level up; none at level 0.
pub open spec fn parent_of(ls: Seq<LayerV>, child_level: u16) -> Option<usize> {
    if child_level == 0 {
        None
    } else {
        match last_at_level(ls, child_level - 1) {
            Some(i) => Some(i as usize),
            None => None,
        }
    }
}

/// Models of a list of layers.
pub open spec fn layers_view(ls: Seq<Layer>) -> Seq<LayerV> {
    ls.map_values(|l: Layer| l@)
}

/// Derives the parent for a layer appended after `layers` from child
/// levels: the nearest preceding layer one level up.
pub fn resolve_parent(layers: &[Layer], child_level: u16) -> (r: Option<usize>)
    ensures
        r == parent_of(layers_view(layers@), child_level),
        r matches Some(i) ==> i < layers@.len(),
{
    if child_level == 0 {
        return None;
    }
    let ghost ls = layers_view(layers@);
    let mut i = layers.len();
    assert(ls.take(i as int) =~= ls);
    while i > 0
        invariant
            i <= layers@.len(),
            ls == layers_view(layers@),
            child_level > 0,
            last_at_level(ls, child_level - 1) == last_at_level(ls.take(i as int), child_level - 1),
        decreases i,
    {
        assert(ls.take(i as int).drop_last() =~= ls.take(i - 1));
        if layers[i - 1].child_level == child_level - 1 {
            return Some(i - 1);
        }
        i = i - 1;
    }
    None
}

} // verus!
