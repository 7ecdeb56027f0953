use ase_core::model::{BlendMode, ColorDepth, Layer, LayerType, Palette, PropertyValue};
use ase_core::parse::cel::decode_tiles;
use ase_core::parse::chunk::{parse_chunk_header, CEL, LAYER};
use ase_core::parse::frame::parse_frame_header;
use ase_core::parse::header::parse_header;
use ase_core::parse::layer::{parse_layer, resolve_parent};
use ase_core::parse::palette::{apply_new_palette, apply_old_palette};
use ase_core::parse::slice::parse_slice;
use ase_core::parse::user_data::parse_user_data;
use ase_core::parse::{FILE_MAGIC, FRAME_HEADER_SIZE, FRAME_MAGIC, HEADER_SIZE};
use ase_core::read::Reader;
use ase_core::ParseError;

#[test]
fn parses_and_bounds_checks() {
    let mut data = vec![];
    data.extend_from_slice(&10u32.to_le_bytes());
    data.extend_from_slice(&LAYER.to_le_bytes());
    data.extend_from_slice(&[0u8; 4]);
    let mut r = Reader::new(&data);
    let h = parse_chunk_header(&mut r, data.len()).unwrap();
    assert_eq!((h.offset, h.size, h.kind), (0, 10, LAYER));
    assert_eq!(h.end(), 10);
}

#[test]
fn rejects_overrun_and_undersize() {
    let mut data = vec![];
    data.extend_from_slice(&100u32.to_le_bytes());
    data.extend_from_slice(&CEL.to_le_bytes());
    let mut r = Reader::new(&data);
    assert!(parse_chunk_header(&mut r, 6).is_err());

    let mut data = vec![];
    data.extend_from_slice(&5u32.to_le_bytes());
    data.extend_from_slice(&CEL.to_le_bytes());
    let mut r = Reader::new(&data);
    assert!(parse_chunk_header(&mut r, 6).is_err());
}

fn frame_bytes(old: u16, new: u32, duration: u16) -> Vec<u8> {
    let mut f = vec![0u8; FRAME_HEADER_SIZE];
    f[0..4].copy_from_slice(&(FRAME_HEADER_SIZE as u32).to_le_bytes());
    f[4..6].copy_from_slice(&FRAME_MAGIC.to_le_bytes());
    f[6..8].copy_from_slice(&old.to_le_bytes());
    f[8..10].copy_from_slice(&duration.to_le_bytes());
    f[12..16].copy_from_slice(&new.to_le_bytes());
    f
}

#[test]
fn uses_old_count_normally() {
    let bytes = frame_bytes(5, 5, 100);
    let fh = parse_frame_header(&mut Reader::new(&bytes)).unwrap();
    assert_eq!(fh.num_chunks, 5);
    assert_eq!(fh.duration_ms, 100);
}

#[test]
fn overflow_defers_to_new_count() {
    let bytes = frame_bytes(0xFFFF, 70_000, 100);
    let fh = parse_frame_header(&mut Reader::new(&bytes)).unwrap();
    assert_eq!(fh.num_chunks, 70_000);
}

#[test]
fn overflow_with_zero_new_count_keeps_old() {
    // Degenerate old-file case: 0xFFFF chunks written before the new field existed.
    let bytes = frame_bytes(0xFFFF, 0, 100);
    let fh = parse_frame_header(&mut Reader::new(&bytes)).unwrap();
    assert_eq!(fh.num_chunks, 0xFFFF);
}

#[test]
fn frame_rejects_bad_magic() {
    let mut bytes = frame_bytes(1, 1, 50);
    bytes[4..6].copy_from_slice(&0xBEEFu16.to_le_bytes());
    assert!(matches!(
        parse_frame_header(&mut Reader::new(&bytes)),
        Err(ParseError::BadMagic { offset: 4, .. })
    ));
}

/// A minimal valid 128-byte header.
fn header_bytes() -> Vec<u8> {
    let mut h = vec![0u8; HEADER_SIZE];
    h[0..4].copy_from_slice(&(HEADER_SIZE as u32).to_le_bytes()); // file size
    h[4..6].copy_from_slice(&FILE_MAGIC.to_le_bytes());
    h[6..8].copy_from_slice(&3u16.to_le_bytes()); // frames
    h[8..10].copy_from_slice(&64u16.to_le_bytes()); // width
    h[10..12].copy_from_slice(&32u16.to_le_bytes()); // height
    h[12..14].copy_from_slice(&32u16.to_le_bytes()); // bpp RGBA
    h[14..18].copy_from_slice(&1u32.to_le_bytes()); // flags: layer opacity valid
    h[18..20].copy_from_slice(&100u16.to_le_bytes()); // speed
    h[28] = 7; // transparent index (zeroed: not indexed)
    h[32..34].copy_from_slice(&0u16.to_le_bytes()); // ncolors 0 => 256
    h
}

#[test]
fn parses_and_normalizes() {
    let bytes = header_bytes();
    let mut r = Reader::new(&bytes);
    let h = parse_header(&mut r).unwrap();
    assert_eq!(h.frames, 3);
    assert_eq!((h.width, h.height), (64, 32));
    assert_eq!(h.color_depth, ColorDepth::Rgba);
    assert!(h.layer_opacity_valid());
    assert!(!h.group_blend_valid());
    assert_eq!(h.transparent_index, 0, "transparent index zeroed for non-indexed");
    assert_eq!(h.num_colors, 256, "0 colors means 256");
    assert_eq!(h.pixel_ratio, (1, 1));
    assert_eq!(r.pos(), HEADER_SIZE, "reader left at first frame");
}

#[test]
fn keeps_transparent_index_for_indexed() {
    let mut bytes = header_bytes();
    bytes[12..14].copy_from_slice(&8u16.to_le_bytes()); // indexed
    let h = parse_header(&mut Reader::new(&bytes)).unwrap();
    assert_eq!(h.color_depth, ColorDepth::Indexed);
    assert_eq!(h.transparent_index, 7);
}

#[test]
fn header_rejects_bad_magic() {
    let mut bytes = header_bytes();
    bytes[4..6].copy_from_slice(&0xA5E1u16.to_le_bytes());
    let err = parse_header(&mut Reader::new(&bytes)).unwrap_err();
    assert_eq!(err, ParseError::BadMagic { offset: 4, expected: FILE_MAGIC, found: 0xA5E1 });
}

#[test]
fn rejects_unknown_depth() {
    let mut bytes = header_bytes();
    bytes[12..14].copy_from_slice(&24u16.to_le_bytes());
    assert!(matches!(
        parse_header(&mut Reader::new(&bytes)),
        Err(ParseError::Invalid { offset: 12, .. })
    ));
}

#[test]
fn rejects_truncated_header() {
    let bytes = header_bytes();
    let mut r = Reader::new(&bytes[..100]);
    assert!(matches!(parse_header(&mut r), Err(ParseError::UnexpectedEof { .. })));
}

#[test]
fn new_palette_applies_delta_range() {
    // size 4, replace entries 1..=2
    let mut data = vec![];
    data.extend_from_slice(&4u32.to_le_bytes());
    data.extend_from_slice(&1u32.to_le_bytes());
    data.extend_from_slice(&2u32.to_le_bytes());
    data.extend_from_slice(&[0u8; 8]);
    data.extend_from_slice(&[0, 0, 10, 20, 30, 40]); // entry 1, no name
    data.extend_from_slice(&[0, 0, 50, 60, 70, 80]); // entry 2
    let mut pal = Palette { entries: vec![[1, 1, 1, 255]; 3] };
    apply_new_palette(&mut Reader::new(&data), &mut pal).unwrap();
    assert_eq!(pal.entries.len(), 4);
    assert_eq!(pal.entries[0], [1, 1, 1, 255], "outside delta range untouched");
    assert_eq!(pal.entries[1], [10, 20, 30, 40]);
    assert_eq!(pal.entries[2], [50, 60, 70, 80]);
}

#[test]
fn old_palette_scales_six_bit_components() {
    // 1 packet: skip 0, count 1, color (63, 0, 32)
    let data = [1u8, 0, 0, 1, 63, 0, 32];
    let mut pal = Palette::default();
    apply_old_palette(&mut Reader::new(&data[..2]), &mut pal, true).unwrap_err();
    let mut pal = Palette::default();
    apply_old_palette(&mut Reader::new(&data), &mut pal, true).unwrap();
    assert_eq!(pal.entries[0], [255, 0, 130, 255]); // (63<<2)|(63>>4)=255, (32<<2)|(32>>4)=130
}

fn layer_bytes(flags: u16, ty: u16, level: u16, blend: u16, opacity: u8, name: &str) -> Vec<u8> {
    let mut b = vec![];
    b.extend_from_slice(&flags.to_le_bytes());
    b.extend_from_slice(&ty.to_le_bytes());
    b.extend_from_slice(&level.to_le_bytes());
    b.extend_from_slice(&[0u8; 4]); // default w/h
    b.extend_from_slice(&blend.to_le_bytes());
    b.push(opacity);
    b.extend_from_slice(&[0u8; 3]);
    b.extend_from_slice(&(name.len() as u16).to_le_bytes());
    b.extend_from_slice(name.as_bytes());
    b
}

#[test]
fn parses_image_layer() {
    let bytes = layer_bytes(1 | 8, 0, 0, 1, 128, "bg");
    let l = parse_layer(&mut Reader::new(&bytes), true, false).unwrap();
    assert!(l.is_visible() && l.is_background());
    assert_eq!(l.layer_type, LayerType::Image);
    assert_eq!(l.blend_mode, BlendMode::Multiply);
    assert_eq!(l.opacity, 128);
    assert_eq!(l.name, "bg");
}

#[test]
fn opacity_forced_when_header_flag_clear() {
    let bytes = layer_bytes(1, 0, 0, 0, 42, "x");
    let l = parse_layer(&mut Reader::new(&bytes), false, false).unwrap();
    assert_eq!(l.opacity, 255, "opacity invalid without header flag");
}

#[test]
fn tilemap_layer_reads_tileset_index() {
    let mut bytes = layer_bytes(1, 2, 0, 0, 255, "tm");
    bytes.extend_from_slice(&3u32.to_le_bytes());
    let l = parse_layer(&mut Reader::new(&bytes), true, false).unwrap();
    assert_eq!(l.layer_type, LayerType::Tilemap { tileset_index: 3 });
}

#[test]
fn parent_resolution_follows_spec_example() {
    // The example tree: levels 0,1,0,1,2,1
    let levels = [0u16, 1, 0, 1, 2, 1];
    let mut layers: Vec<Layer> = vec![];
    let mut parents = vec![];
    for &level in &levels {
        parents.push(resolve_parent(&layers, level));
        let bytes = layer_bytes(1, if level < 2 { 1 } else { 0 }, level, 0, 255, "l");
        let mut l = parse_layer(&mut Reader::new(&bytes), true, false).unwrap();
        l.parent = *parents.last().unwrap();
        layers.push(l);
    }
    assert_eq!(parents, vec![None, Some(0), None, Some(2), Some(3), Some(2)]);
}

#[test]
fn parses_nine_patch_with_pivot() {
    let mut b = vec![];
    b.extend_from_slice(&1u32.to_le_bytes()); // one key
    b.extend_from_slice(&3u32.to_le_bytes()); // 9-patch + pivot
    b.extend_from_slice(&[0u8; 4]);
    b.extend_from_slice(&2u16.to_le_bytes());
    b.extend_from_slice(b"ui");
    for v in [0i32, -1, 2] {
        b.extend_from_slice(&v.to_le_bytes()); // frame(=0 via u32), x, y
    }
    b.extend_from_slice(&16u32.to_le_bytes()); // w
    b.extend_from_slice(&8u32.to_le_bytes()); // h
    for v in [4i32, 2] {
        b.extend_from_slice(&v.to_le_bytes()); // center x,y
    }
    b.extend_from_slice(&8u32.to_le_bytes()); // center w
    b.extend_from_slice(&4u32.to_le_bytes()); // center h
    b.extend_from_slice(&3i32.to_le_bytes()); // pivot x
    b.extend_from_slice(&5i32.to_le_bytes()); // pivot y

    let s = parse_slice(&mut Reader::new(&b)).unwrap();
    assert_eq!(s.name, "ui");
    let k = s.key_for(7).unwrap();
    assert_eq!((k.x, k.y, k.width, k.height), (-1, 2, 16, 8));
    assert_eq!(k.center, Some((4, 2, 8, 4)));
    assert_eq!(k.pivot, Some((3, 5)));
    assert!(s.key_for(0).is_some());
}

fn str_bytes(s: &str) -> Vec<u8> {
    let mut b = (s.len() as u16).to_le_bytes().to_vec();
    b.extend_from_slice(s.as_bytes());
    b
}

#[test]
fn parses_text_and_color() {
    let mut b = 3u32.to_le_bytes().to_vec(); // flags: text + color
    b.extend_from_slice(&str_bytes("hit"));
    b.extend_from_slice(&[255, 0, 0, 255]);
    let ud = parse_user_data(&mut Reader::new(&b)).unwrap();
    assert_eq!(ud.text.as_deref(), Some("hit"));
    assert_eq!(ud.color, Some([255, 0, 0, 255]));
    assert!(ud.maps.is_empty());
}

#[test]
fn parses_nested_properties() {
    // flags=4; one map (key 0) with: "n" = i32 7, "v" = vector[u8 1, u8 2],
    // "m" = map{"s" = "x"}
    let mut body = vec![];
    body.extend_from_slice(&1u32.to_le_bytes()); // nMaps
    body.extend_from_slice(&0u32.to_le_bytes()); // map key
    body.extend_from_slice(&3u32.to_le_bytes()); // nProps
    body.extend_from_slice(&str_bytes("n"));
    body.extend_from_slice(&0x0006u16.to_le_bytes());
    body.extend_from_slice(&7i32.to_le_bytes());
    body.extend_from_slice(&str_bytes("v"));
    body.extend_from_slice(&0x0011u16.to_le_bytes());
    body.extend_from_slice(&2u32.to_le_bytes()); // nElems
    body.extend_from_slice(&0x0003u16.to_le_bytes()); // homogeneous u8
    body.extend_from_slice(&[1, 2]);
    body.extend_from_slice(&str_bytes("m"));
    body.extend_from_slice(&0x0012u16.to_le_bytes());
    body.extend_from_slice(&1u32.to_le_bytes()); // nested nProps
    body.extend_from_slice(&str_bytes("s"));
    body.extend_from_slice(&0x000Du16.to_le_bytes());
    body.extend_from_slice(&str_bytes("x"));

    let mut b = 4u32.to_le_bytes().to_vec();
    b.extend_from_slice(&((body.len() + 4) as u32).to_le_bytes()); // totalSize
    b.extend_from_slice(&body);

    let ud = parse_user_data(&mut Reader::new(&b)).unwrap();
    let props = &ud.maps[0].properties;
    assert_eq!((props[0].name.as_str(), &props[0].value), ("n", &PropertyValue::I32(7)));
    assert_eq!(
        (props[1].name.as_str(), &props[1].value),
        ("v", &PropertyValue::Vector(vec![PropertyValue::U8(1), PropertyValue::U8(2)]))
    );
    assert_eq!(props[2].name, "m");
    match &props[2].value {
        PropertyValue::PropMap(inner) => {
            assert_eq!(inner.len(), 1);
            assert_eq!(inner[0].name, "s");
            assert_eq!(inner[0].value, PropertyValue::Str("x".to_string()));
        }
        other => panic!("expected a nested map, got {other:?}"),
    }
}

#[test]
fn unknown_property_type_drops_maps_but_survives() {
    // flags=4, totalSize covers a blob whose property type is bogus.
    let mut body = vec![];
    body.extend_from_slice(&1u32.to_le_bytes());
    body.extend_from_slice(&0u32.to_le_bytes());
    body.extend_from_slice(&1u32.to_le_bytes());
    body.extend_from_slice(&str_bytes("x"));
    body.extend_from_slice(&0x00FFu16.to_le_bytes()); // unknown type
    body.extend_from_slice(&[0xAA; 4]);

    let mut b = 4u32.to_le_bytes().to_vec();
    b.extend_from_slice(&((body.len() + 4) as u32).to_le_bytes());
    b.extend_from_slice(&body);
    b.extend_from_slice(&[0xEE]); // trailing byte after the blob

    let mut r = Reader::new(&b);
    let ud = parse_user_data(&mut r).unwrap();
    assert!(ud.maps.is_empty(), "unparseable maps dropped");
    assert_eq!(r.u8().unwrap(), 0xEE, "reader seeked past the blob");
}

/// User data whose single map holds `levels` maps nested inside each other,
/// the innermost holding one u8.
fn nested_maps_blob(levels: usize) -> Vec<u8> {
    let mut body = vec![];
    body.extend_from_slice(&1u32.to_le_bytes()); // nMaps
    body.extend_from_slice(&0u32.to_le_bytes()); // map key
    for _ in 0..levels {
        body.extend_from_slice(&1u32.to_le_bytes()); // nProps
        body.extend_from_slice(&str_bytes("a"));
        body.extend_from_slice(&0x0012u16.to_le_bytes()); // nested map
    }
    body.extend_from_slice(&1u32.to_le_bytes());
    body.extend_from_slice(&str_bytes("z"));
    body.extend_from_slice(&0x0003u16.to_le_bytes());
    body.push(9);

    let mut b = 4u32.to_le_bytes().to_vec();
    b.extend_from_slice(&((body.len() + 4) as u32).to_le_bytes());
    b.extend_from_slice(&body);
    b
}

#[test]
fn property_nesting_is_capped_at_the_limit() {
    let ud = parse_user_data(&mut Reader::new(&nested_maps_blob(128))).unwrap();
    assert_eq!(ud.maps.len(), 1, "128 nested maps are accepted");
    let mut value = &ud.maps[0].properties[0].value;
    let mut depth = 0;
    while let PropertyValue::PropMap(inner) = value {
        depth += 1;
        value = &inner[0].value;
    }
    assert_eq!((depth, value), (128, &PropertyValue::U8(9)));

    let ud = parse_user_data(&mut Reader::new(&nested_maps_blob(129))).unwrap();
    assert!(ud.maps.is_empty(), "a 129th level drops the maps");
}

#[test]
fn oversized_palette_is_rejected() {
    let mut data = vec![];
    data.extend_from_slice(&65_537u32.to_le_bytes());
    data.extend_from_slice(&0u32.to_le_bytes());
    data.extend_from_slice(&0u32.to_le_bytes());
    data.extend_from_slice(&[0u8; 8]);
    let mut pal = Palette::default();
    assert_eq!(
        apply_new_palette(&mut Reader::new(&data), &mut pal),
        Err(ParseError::LimitExceeded { offset: 0, what: "palette size" })
    );
    assert!(pal.entries.is_empty());
}

#[test]
fn tilemap_entries_split_by_masks() {
    // Masks as Aseprite writes them: 29-bit index, then X, Y and diagonal flips.
    let (id, x, y, d) = (0x1FFF_FFFFu32, 0x2000_0000u32, 0x4000_0000u32, 0x8000_0000u32);
    let mut raw = vec![];
    raw.extend_from_slice(&5u32.to_le_bytes());
    raw.extend_from_slice(&(7u32 | x | d).to_le_bytes());
    raw.extend_from_slice(&(y | 1).to_le_bytes());
    raw.push(0xAB); // a trailing partial entry is not a tile
    let tiles = decode_tiles(&raw, id, x, y, d);
    assert_eq!(tiles.len(), 3);
    assert_eq!((tiles[0].index, tiles[0].x_flip, tiles[0].y_flip, tiles[0].d_flip), (5, false, false, false));
    assert_eq!((tiles[1].index, tiles[1].x_flip, tiles[1].y_flip, tiles[1].d_flip), (7, true, false, true));
    assert_eq!((tiles[2].index, tiles[2].x_flip, tiles[2].y_flip, tiles[2].d_flip), (1, false, true, false));

    // An index mask that starts above bit 0 shifts the index down.
    let tiles = decode_tiles(&0x0000_0F00u32.to_le_bytes().to_vec(), 0x0000_FF00, 0, 0, 0);
    assert_eq!(tiles[0].index, 0x0F);
    // No index mask: every index is 0.
    let tiles = decode_tiles(&0xFFFF_FFFFu32.to_le_bytes().to_vec(), 0, 0, 0, 0);
    assert_eq!((tiles[0].index, tiles[0].x_flip), (0, false));
}

#[test]
fn typed_properties_and_extension_maps_parse() {
    let mut body = vec![];
    body.extend_from_slice(&2u32.to_le_bytes()); // nMaps
    // Map key 0: user properties.
    body.extend_from_slice(&0u32.to_le_bytes());
    body.extend_from_slice(&4u32.to_le_bytes());
    body.extend_from_slice(&str_bytes("a"));
    body.extend_from_slice(&0x0001u16.to_le_bytes());
    body.push(1);
    body.extend_from_slice(&str_bytes("b"));
    body.extend_from_slice(&0x0002u16.to_le_bytes());
    body.push(1);
    body.extend_from_slice(&str_bytes("c"));
    body.extend_from_slice(&0x000Du16.to_le_bytes());
    body.extend_from_slice(&str_bytes("hi"));
    body.extend_from_slice(&str_bytes("d"));
    body.extend_from_slice(&0x000Cu16.to_le_bytes());
    body.extend_from_slice(&2.3f64.to_bits().to_le_bytes());
    // Map key 3: extension properties, a vector of strings with per-element types.
    body.extend_from_slice(&3u32.to_le_bytes());
    body.extend_from_slice(&1u32.to_le_bytes());
    body.extend_from_slice(&str_bytes("list"));
    body.extend_from_slice(&0x0011u16.to_le_bytes());
    body.extend_from_slice(&3u32.to_le_bytes());
    body.extend_from_slice(&0u16.to_le_bytes()); // heterogeneous: each element typed
    for s in ["one", "two", "three"] {
        body.extend_from_slice(&0x000Du16.to_le_bytes());
        body.extend_from_slice(&str_bytes(s));
    }

    let mut b = 4u32.to_le_bytes().to_vec();
    b.extend_from_slice(&((body.len() + 4) as u32).to_le_bytes());
    b.extend_from_slice(&body);

    let ud = parse_user_data(&mut Reader::new(&b)).unwrap();
    assert_eq!(ud.maps.len(), 2);
    let user = ud.maps.iter().find(|m| m.key == 0).unwrap();
    let get = |name: &str| &user.properties.iter().find(|p| p.name == name).unwrap().value;
    assert_eq!(get("a"), &PropertyValue::Bool(true));
    assert_eq!(get("b"), &PropertyValue::I8(1));
    assert_eq!(get("c"), &PropertyValue::Str("hi".to_string()));
    assert_eq!(get("d"), &PropertyValue::F64(2.3f64.to_bits()));
    let ext = ud.maps.iter().find(|m| m.key != 0).unwrap();
    assert_eq!(
        ext.properties[0].value,
        PropertyValue::Vector(vec![
            PropertyValue::Str("one".to_string()),
            PropertyValue::Str("two".to_string()),
            PropertyValue::Str("three".to_string()),
        ])
    );
}
