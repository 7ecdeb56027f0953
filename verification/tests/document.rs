use ase_core::composite::blend::Rgb;
use ase_core::composite::render::{render_frame, renderable};
use ase_core::file::AseFile;
use ase_core::limits::{MAX_IMAGE_BYTES, MAX_TOTAL_DECOMPRESSED_BYTES};
use ase_core::model::{AniDir, BlendMode, CelContent, ColorDepth, PropertyValue};
use ase_core::parse::cel::{inflate_exact, parse_cel, InflateBudget};
use ase_core::read::Reader;
use ase_core::ParseError;

fn no_float(_: BlendMode, back: Rgb, _: Rgb) -> Rgb {
    back
}

fn adler32(data: &[u8]) -> u32 {
    let (mut a, mut b) = (1u32, 0u32);
    for &byte in data {
        a = (a + byte as u32) % 65521;
        b = (b + a) % 65521;
    }
    (b << 16) | a
}

/// A zlib stream holding `data` in one stored (uncompressed) block.
fn zlib_stored(data: &[u8]) -> Vec<u8> {
    let mut z = vec![0x78, 0x01, 0x01];
    z.extend_from_slice(&(data.len() as u16).to_le_bytes());
    z.extend_from_slice(&(!(data.len() as u16)).to_le_bytes());
    z.extend_from_slice(data);
    z.extend_from_slice(&adler32(data).to_be_bytes());
    z
}

fn header(frames: u16, width: u16, height: u16) -> Vec<u8> {
    let mut h = Vec::new();
    h.extend_from_slice(&0u32.to_le_bytes());
    h.extend_from_slice(&0xA5E0u16.to_le_bytes());
    h.extend_from_slice(&frames.to_le_bytes());
    h.extend_from_slice(&width.to_le_bytes());
    h.extend_from_slice(&height.to_le_bytes());
    h.extend_from_slice(&32u16.to_le_bytes());
    h.extend_from_slice(&1u32.to_le_bytes()); // layer opacity valid
    h.resize(128, 0);
    h
}

fn frame(chunks: &[Vec<u8>]) -> Vec<u8> {
    let body: Vec<u8> = chunks.concat();
    let mut f = Vec::new();
    f.extend_from_slice(&(16 + body.len() as u32).to_le_bytes());
    f.extend_from_slice(&0xF1FAu16.to_le_bytes());
    f.extend_from_slice(&(chunks.len() as u16).to_le_bytes());
    f.extend_from_slice(&0u16.to_le_bytes()); // duration 0: header default
    f.extend_from_slice(&[0; 2]);
    f.extend_from_slice(&0u32.to_le_bytes());
    f.extend_from_slice(&body);
    f
}

fn chunk(kind: u16, payload: &[u8]) -> Vec<u8> {
    let mut c = Vec::new();
    c.extend_from_slice(&(6 + payload.len() as u32).to_le_bytes());
    c.extend_from_slice(&kind.to_le_bytes());
    c.extend_from_slice(payload);
    c
}

fn layer_chunk(name: &str) -> Vec<u8> {
    let mut p = Vec::new();
    p.extend_from_slice(&1u16.to_le_bytes()); // visible
    p.extend_from_slice(&[0; 10]);
    p.push(255);
    p.extend_from_slice(&[0; 3]);
    p.extend_from_slice(&(name.len() as u16).to_le_bytes());
    p.extend_from_slice(name.as_bytes());
    chunk(0x2004, &p)
}

fn cel_prefix(cel_type: u16) -> Vec<u8> {
    let mut p = Vec::new();
    p.extend_from_slice(&0u16.to_le_bytes()); // layer
    p.extend_from_slice(&0i16.to_le_bytes()); // x
    p.extend_from_slice(&0i16.to_le_bytes()); // y
    p.push(255);
    p.extend_from_slice(&cel_type.to_le_bytes());
    p.extend_from_slice(&[0; 7]);
    p
}

fn compressed_cel(w: u16, h: u16, pixels: &[u8]) -> Vec<u8> {
    let mut p = cel_prefix(2);
    p.extend_from_slice(&w.to_le_bytes());
    p.extend_from_slice(&h.to_le_bytes());
    p.extend_from_slice(&zlib_stored(pixels));
    chunk(0x2005, &p)
}

fn linked_cel(to: u16) -> Vec<u8> {
    let mut p = cel_prefix(1);
    p.extend_from_slice(&to.to_le_bytes());
    chunk(0x2005, &p)
}

fn palette_chunk(first: u32, colors: &[[u8; 4]]) -> Vec<u8> {
    let mut p = Vec::new();
    p.extend_from_slice(&(first + colors.len() as u32).to_le_bytes());
    p.extend_from_slice(&first.to_le_bytes());
    p.extend_from_slice(&(first + colors.len() as u32 - 1).to_le_bytes());
    p.extend_from_slice(&[0; 8]);
    for c in colors {
        p.extend_from_slice(&0u16.to_le_bytes());
        p.extend_from_slice(c);
    }
    chunk(0x2019, &p)
}

fn tags_chunk(name: &str) -> Vec<u8> {
    let mut p = Vec::new();
    p.extend_from_slice(&1u16.to_le_bytes());
    p.extend_from_slice(&[0; 8]);
    p.extend_from_slice(&0u16.to_le_bytes()); // from
    p.extend_from_slice(&1u16.to_le_bytes()); // to
    p.push(2); // ping-pong
    p.extend_from_slice(&0u16.to_le_bytes()); // repeat
    p.extend_from_slice(&[0; 6]);
    p.extend_from_slice(&[1, 2, 3]);
    p.push(0);
    p.extend_from_slice(&(name.len() as u16).to_le_bytes());
    p.extend_from_slice(name.as_bytes());
    chunk(0x2018, &p)
}

fn user_data_text(text: &str) -> Vec<u8> {
    let mut p = Vec::new();
    p.extend_from_slice(&1u32.to_le_bytes());
    p.extend_from_slice(&(text.len() as u16).to_le_bytes());
    p.extend_from_slice(text.as_bytes());
    chunk(0x2020, &p)
}

fn sample() -> Vec<u8> {
    let pixels = [10u8, 20, 30, 255, 40, 50, 60, 128];
    let mut data = header(2, 2, 1);
    data.extend_from_slice(&frame(&[
        user_data_text("sprite"),
        layer_chunk("body"),
        user_data_text("on layer"),
        compressed_cel(2, 1, &pixels),
        palette_chunk(0, &[[9, 9, 9, 255]]),
        user_data_text("on cel"),
        tags_chunk("idle"),
        user_data_text("on tag"),
    ]));
    data.extend_from_slice(&frame(&[linked_cel(0), palette_chunk(1, &[[7, 7, 7, 7]])]));
    data
}

#[test]
fn parses_a_document_with_compressed_and_linked_cels() {
    let data = sample();
    let file = AseFile::parse(&data).expect("valid file");
    assert_eq!(file.frames.len(), 2);
    assert_eq!(file.frames[0].duration_ms, 0, "header speed field left 0");
    match &file.frames[0].cels[0].content {
        CelContent::Image(img) => {
            assert_eq!((img.width, img.height), (2, 1));
            assert_eq!(img.pixels, vec![10, 20, 30, 255, 40, 50, 60, 128]);
        }
        _ => panic!("expected an image cel"),
    }
    assert!(matches!(file.frames[1].cels[0].content, CelContent::Linked(0)));
    assert_eq!(file.user_data.text.as_deref(), Some("sprite"));
    assert_eq!(file.layers[0].user_data.text.as_deref(), Some("on layer"));
    assert_eq!(file.frames[0].cels[0].user_data.text.as_deref(), Some("on cel"));
    assert_eq!(file.tags[0].name, "idle");
    assert_eq!(file.tags[0].direction, AniDir::PingPong);
    assert_eq!(file.tags[0].user_data.text.as_deref(), Some("on tag"));
    // Palette snapshots: frame 0 sees one color, frame 1 two.
    assert_eq!(file.palettes.len(), 2);
    assert_eq!(file.palette_for(0).entries, vec![[9, 9, 9, 255]]);
    assert_eq!(file.palette_for(1).entries, vec![[9, 9, 9, 255], [7, 7, 7, 7]]);
    assert_eq!(file.palette_for(9).entries.len(), 2, "frames past the end use the last palette");
    assert!(file.layer_visible_in_tree(0));
}

#[test]
fn parsed_document_renders_both_frames() {
    let file = AseFile::parse(&sample()).unwrap();
    assert!(renderable(&file));
    let f0 = render_frame(&file, 0, &no_float).unwrap();
    assert_eq!(f0.pixels, vec![10, 20, 30, 255, 40, 50, 60, 128]);
    let f1 = render_frame(&file, 1, &no_float).unwrap();
    assert_eq!(f1.pixels, f0.pixels, "the linked cel draws frame 0's image");
}

#[test]
fn inflate_checks_stream_and_size() {
    let z = zlib_stored(&[1, 2, 3, 4]);
    let mut budget = InflateBudget::default();
    let out = inflate_exact(&mut Reader::new(&z), z.len(), 4, &mut budget).unwrap();
    assert_eq!(out, vec![1, 2, 3, 4]);
    assert_eq!(budget.total, 4);
    let err = inflate_exact(&mut Reader::new(&z), z.len(), 5, &mut InflateBudget::default()).unwrap_err();
    assert_eq!(err, ParseError::Invalid { offset: 0, what: "decompressed size" });
    let mut bad = z.clone();
    let n = bad.len();
    bad[n - 1] ^= 0xFF; // checksum mismatch
    let err = inflate_exact(&mut Reader::new(&bad), bad.len(), 4, &mut InflateBudget::default()).unwrap_err();
    assert_eq!(err, ParseError::Invalid { offset: 0, what: "zlib stream" });
}

#[test]
fn truncated_document_reports_where() {
    let data = sample();
    let err = AseFile::parse(&data[..150]).unwrap_err();
    assert!(matches!(err, ParseError::UnexpectedEof { .. }));
}

fn str_field(s: &str) -> Vec<u8> {
    let mut b = (s.len() as u16).to_le_bytes().to_vec();
    b.extend_from_slice(s.as_bytes());
    b
}

/// A user data chunk carrying only properties maps, each `(key, props)`
/// with `props` already encoded (count included).
fn user_data_props(maps: &[(u32, Vec<u8>)]) -> Vec<u8> {
    let mut body = (maps.len() as u32).to_le_bytes().to_vec();
    for (key, props) in maps {
        body.extend_from_slice(&key.to_le_bytes());
        body.extend_from_slice(props);
    }
    let mut p = 4u32.to_le_bytes().to_vec();
    p.extend_from_slice(&((body.len() + 4) as u32).to_le_bytes());
    p.extend_from_slice(&body);
    chunk(0x2020, &p)
}

fn one_bool_prop(name: &str) -> Vec<u8> {
    let mut p = 1u32.to_le_bytes().to_vec();
    p.extend_from_slice(&str_field(name));
    p.extend_from_slice(&0x0001u16.to_le_bytes());
    p.push(1);
    p
}

fn layer_at(name: &str, layer_type: u16, level: u16) -> Vec<u8> {
    let mut p = Vec::new();
    p.extend_from_slice(&1u16.to_le_bytes());
    p.extend_from_slice(&layer_type.to_le_bytes());
    p.extend_from_slice(&level.to_le_bytes());
    p.extend_from_slice(&[0; 6]);
    p.push(255);
    p.extend_from_slice(&[0; 3]);
    p.extend_from_slice(&str_field(name));
    chunk(0x2004, &p)
}

fn external_files_chunk(id: u32, kind: u8, name: &str) -> Vec<u8> {
    let mut p = 1u32.to_le_bytes().to_vec();
    p.extend_from_slice(&[0; 8]);
    p.extend_from_slice(&id.to_le_bytes());
    p.push(kind);
    p.extend_from_slice(&[0; 7]);
    p.extend_from_slice(&str_field(name));
    chunk(0x2008, &p)
}

fn frame_with_duration(duration: u16, chunks: &[Vec<u8>]) -> Vec<u8> {
    let mut f = frame(chunks);
    f[8..10].copy_from_slice(&duration.to_le_bytes());
    f
}

#[test]
fn parsed_document_carries_typed_and_extension_properties() {
    // Extension map key 3 names the external files entry with id 3.
    let mut ext = 1u32.to_le_bytes().to_vec();
    ext.extend_from_slice(&str_field("list"));
    ext.extend_from_slice(&0x0011u16.to_le_bytes());
    ext.extend_from_slice(&2u32.to_le_bytes());
    ext.extend_from_slice(&0x000Du16.to_le_bytes()); // every element a string
    ext.extend_from_slice(&str_field("one"));
    ext.extend_from_slice(&str_field("two"));

    let mut data = header(2, 1, 1);
    data.extend_from_slice(&frame_with_duration(
        250,
        &[
            external_files_chunk(3, 2, "ext.json"),
            user_data_props(&[(0, one_bool_prop("a")), (3, ext)]),
            layer_at("group", 1, 0),
            layer_at("child", 0, 1),
            user_data_props(&[(0, one_bool_prop("on_layer"))]),
            {
                let mut p = cel_prefix(0);
                p[0..2].copy_from_slice(&1u16.to_le_bytes()); // on the child layer
                p.extend_from_slice(&1u16.to_le_bytes());
                p.extend_from_slice(&1u16.to_le_bytes());
                p.extend_from_slice(&[1, 2, 3, 255]);
                chunk(0x2005, &p)
            },
            user_data_props(&[(0, one_bool_prop("on_cel"))]),
        ],
    ));
    data.extend_from_slice(&frame(&[]));

    let f = AseFile::parse(&data).expect("valid file");
    assert_eq!(f.external_files.len(), 1);
    assert_eq!((f.external_files[0].id, f.external_files[0].kind, f.external_files[0].name.as_str()), (3, 2, "ext.json"));

    let user = f.user_data.maps.iter().find(|m| m.key == 0).unwrap();
    assert_eq!(user.properties[0].value, PropertyValue::Bool(true));
    let ext = f.user_data.maps.iter().find(|m| m.key != 0).unwrap();
    assert!(f.external_files.iter().any(|e| e.id == ext.key));
    assert_eq!(
        ext.properties[0].value,
        PropertyValue::Vector(vec![PropertyValue::Str("one".into()), PropertyValue::Str("two".into())])
    );

    assert!(f.layers[0].user_data.maps.is_empty());
    assert_eq!(f.layers[1].user_data.maps[0].properties[0].name, "on_layer");
    assert_eq!(f.layers[1].parent, Some(0), "level 1 resolves to the group before it");
    assert_eq!(f.frames[0].cels[0].layer_index, 1);
    assert_eq!(f.frames[0].cels[0].user_data.maps[0].properties[0].name, "on_cel");

    assert_eq!(f.frames[0].duration_ms, 250);
    assert_eq!(f.frames[1].duration_ms, f.header.default_frame_duration_ms, "0 takes the header default");
}

/// Cel payload (no chunk header): layer index, cel type, then `rest`.
fn cel_payload(layer: u16, cel_type: u16, rest: &[u8]) -> Vec<u8> {
    let mut p = cel_prefix(cel_type);
    p[0..2].copy_from_slice(&layer.to_le_bytes());
    p.extend_from_slice(rest);
    p
}

#[test]
fn cels_parse_with_a_budget_already_over_the_cap() {
    let over = MAX_TOTAL_DECOMPRESSED_BYTES + 10;

    // A cel naming a layer past the list is skipped without touching the budget.
    let p = cel_payload(3, 0, &[1, 0, 1, 0, 1, 2, 3, 4]);
    let mut budget = InflateBudget { total: over };
    assert!(parse_cel(&mut Reader::new(&p), p.len(), ColorDepth::Rgba, 1, &mut budget).unwrap().is_none());
    assert_eq!(budget.total, over);

    // A zero-sized image is no cel, and charges nothing either.
    let p = cel_payload(0, 0, &[0, 0, 1, 0]);
    assert!(parse_cel(&mut Reader::new(&p), p.len(), ColorDepth::Rgba, 1, &mut budget).unwrap().is_none());
    assert_eq!(budget.total, over);

    // An unknown cel type is invalid at the cel's start.
    let p = cel_payload(0, 9, &[]);
    assert_eq!(
        parse_cel(&mut Reader::new(&p), p.len(), ColorDepth::Rgba, 1, &mut budget).err(),
        Some(ParseError::Invalid { offset: 0, what: "cel type" })
    );

    // A real image must be charged, and the total is over the cap.
    let p = cel_payload(0, 0, &[1, 0, 1, 0, 1, 2, 3, 4]);
    assert_eq!(
        parse_cel(&mut Reader::new(&p), p.len(), ColorDepth::Rgba, 1, &mut budget).err(),
        Some(ParseError::LimitExceeded { offset: 20, what: "total decompressed size" })
    );
    assert_eq!(budget.total, over + 4);
}

#[test]
fn a_refused_charge_leaves_later_charges_refused() {
    let mut budget = InflateBudget { total: MAX_TOTAL_DECOMPRESSED_BYTES - 1 };
    assert!(budget.charge(5, 2).is_err());
    assert_eq!(budget.total, MAX_TOTAL_DECOMPRESSED_BYTES + 1);
    assert_eq!(budget.charge(6, 1), Err(ParseError::LimitExceeded { offset: 6, what: "total decompressed size" }));
    assert_eq!(budget.charge(7, MAX_IMAGE_BYTES + 1), Err(ParseError::LimitExceeded { offset: 7, what: "cel image size" }));
}
