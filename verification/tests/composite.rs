use ase_core::composite::blend::{
    blend, blender_legacy, blender_merge, blender_normal, div_un8, mul_un8, Rgb,
};
use ase_core::composite::render::{render_frame, renderable, RenderError};
use ase_core::file::AseFile;
use ase_core::model::{
    BlendMode, Cel, CelContent, CelImage, CelTilemap, ColorDepth, Frame, Header, Layer, LayerType,
    Palette, Tile, Tileset,
};

/// Stand-in for the floating-point modes: tests here use integer modes.
fn no_float(_: BlendMode, back: Rgb, _: Rgb) -> Rgb {
    back
}

#[test]
fn mul_div_match_pixman_rounding() {
    assert_eq!(mul_un8(255, 255), 255);
    assert_eq!(mul_un8(255, 128), 128);
    assert_eq!(mul_un8(128, 128), 64); // round(128*128/255) = 64.25 -> 64
    assert_eq!(mul_un8(0, 200), 0);
    assert_eq!(div_un8(128, 255), 128);
    assert_eq!(div_un8(64, 128), 128); // round(64*255/128) = 127.5 -> 128
}

#[test]
fn normal_over_transparent_backdrop_keeps_src_rgb() {
    let r = blender_normal([0, 0, 0, 0], [200, 100, 50, 255], 128);
    assert_eq!(r, [200, 100, 50, 128]);
}

#[test]
fn normal_full_opacity_replaces() {
    let r = blender_normal([10, 20, 30, 255], [200, 100, 50, 255], 255);
    assert_eq!(r, [200, 100, 50, 255]);
}

#[test]
fn opaque_backdrop_new_blend_equals_legacy() {
    // With an opaque backdrop the merges collapse to the legacy result.
    let back = [100, 150, 200, 255];
    let src = [50, 60, 70, 200];
    for mode in [BlendMode::Multiply, BlendMode::Screen, BlendMode::Difference] {
        assert_eq!(
            blend(mode, back, src, 255, &no_float),
            blender_legacy(mode, back, src, 255, &no_float),
            "{mode:?}"
        );
    }
}

#[test]
fn multiply_on_opaque_matches_hand_math() {
    let r = blend(BlendMode::Multiply, [100, 100, 100, 255], [128, 255, 0, 255], 255, &no_float);
    assert_eq!(r, [mul_un8(100, 128) as u8, 100, 0, 255]);
}

#[test]
fn mul_un8_handles_negative_differences() {
    // The merge blender multiplies signed differences.
    assert_eq!(mul_un8(-255, 255), -255);
    assert_eq!(mul_un8(-100, 128), -50);
    assert_eq!(mul_un8(-1, 1), 0);
}

#[test]
fn merge_interpolates_every_channel() {
    assert_eq!(blender_merge([0, 0, 0, 255], [255, 255, 255, 255], 128), [128, 128, 128, 255]);
    assert_eq!(blender_merge([0, 0, 0, 0], [0, 0, 0, 0], 255), [0, 0, 0, 0]);
    assert_eq!(blender_merge([0, 0, 0, 0], [10, 20, 30, 255], 255), [10, 20, 30, 255]);
}

#[test]
fn separable_modes_on_opaque_pixels() {
    let back = [200, 100, 0, 255];
    let src = [100, 200, 50, 255];
    let f = &no_float;
    assert_eq!(blend(BlendMode::Addition, back, src, 255, f), [255, 255, 50, 255]);
    assert_eq!(blend(BlendMode::Subtract, back, src, 255, f), [100, 0, 0, 255]);
    assert_eq!(blend(BlendMode::Darken, back, src, 255, f), [100, 100, 0, 255]);
    assert_eq!(blend(BlendMode::Lighten, back, src, 255, f), [200, 200, 50, 255]);
    assert_eq!(blend(BlendMode::Difference, back, src, 255, f), [100, 100, 50, 255]);
    let screen = |b: i32, s: i32| (b + s - mul_un8(b, s)) as u8;
    assert_eq!(blend(BlendMode::Screen, back, src, 255, f), [screen(200, 100), screen(100, 200), 50, 255]);
    assert_eq!(blend(BlendMode::Divide, back, src, 255, f), [255, div_un8(100, 200) as u8, 0, 255]);
    assert_eq!(blend(BlendMode::Unknown(99), back, src, 255, f), [100, 200, 50, 255]);
}

#[test]
fn float_modes_take_their_color_from_the_callable() {
    let red = |_: BlendMode, _: Rgb, _: Rgb| (255u8, 0u8, 0u8);
    let r = blend(BlendMode::HslHue, [10, 20, 30, 255], [40, 50, 60, 255], 255, &red);
    assert_eq!(r, [255, 0, 0, 255]);
    // Over a transparent backdrop every mode is plain "over": no call needed.
    let r = blend(BlendMode::SoftLight, [0, 0, 0, 0], [40, 50, 60, 255], 255, &red);
    assert_eq!(r, [40, 50, 60, 255]);
}

fn header(flags: u32) -> Header {
    Header {
        frames: 1,
        width: 1,
        height: 1,
        color_depth: ColorDepth::Rgba,
        flags,
        default_frame_duration_ms: 100,
        transparent_index: 0,
        num_colors: 256,
        pixel_ratio: (1, 1),
        grid_x: 0,
        grid_y: 0,
        grid_width: 0,
        grid_height: 0,
    }
}

fn layer(layer_type: LayerType, parent: Option<usize>, blend_mode: BlendMode) -> Layer {
    Layer {
        flags: 1, // visible
        layer_type,
        child_level: if parent.is_none() { 0 } else { 1 },
        blend_mode,
        opacity: 255,
        name: String::new(),
        parent,
        uuid: None,
        user_data: Default::default(),
    }
}

fn cel(layer_index: usize) -> Cel {
    Cel {
        layer_index,
        x: 0,
        y: 0,
        opacity: 255,
        z_index: 0,
        content: CelContent::Image(CelImage { width: 1, height: 1, pixels: vec![100, 100, 100, 255] }),
        extra: None,
        user_data: Default::default(),
    }
}

/// 1x1 canvas: base gray(100) layer, plus a group containing one
/// Addition-blend child cel of gray(100).
fn group_file(header_flags: u32) -> AseFile {
    AseFile {
        header: header(header_flags),
        layers: vec![
            layer(LayerType::Image, None, BlendMode::Normal),
            layer(LayerType::Group, None, BlendMode::Normal),
            layer(LayerType::Image, Some(1), BlendMode::Addition),
        ],
        frames: vec![Frame { duration_ms: 100, cels: vec![cel(0), cel(2)] }],
        tags: vec![],
        tilesets: vec![],
        slices: vec![],
        palettes: vec![Palette::default()],
        user_data: Default::default(),
        color_profile: None,
        external_files: vec![],
    }
}

#[test]
fn group_buffer_isolates_child_blend_from_backdrop() {
    // Pass-through (flag clear): the Addition child blends against the base
    // layer -> 100 + 100 = 200.
    let flat = render_frame(&group_file(1), 0, &no_float).unwrap();
    assert_eq!(&flat.pixels, &[200, 200, 200, 255]);

    // Buffered (flag bit 1): the child composites into the group's own
    // transparent buffer (Addition over alpha 0 falls back to normal -> gray
    // 100), then the group blends Normal over the base -> 100.
    let buffered = render_frame(&group_file(1 | 2), 0, &no_float).unwrap();
    assert_eq!(&buffered.pixels, &[100, 100, 100, 255]);
}

#[test]
fn group_blend_and_opacity_apply_to_buffer() {
    // Group set to Addition at half opacity: buffer gray(100) added onto base
    // gray(100) at opacity 128 -> 100 + round(100*128/255) = 150.
    let mut file = group_file(1 | 2);
    file.layers[1].blend_mode = BlendMode::Addition;
    file.layers[1].opacity = 128;
    file.layers[2].blend_mode = BlendMode::Normal;
    let out = render_frame(&file, 0, &no_float).unwrap();
    assert_eq!(&out.pixels, &[150, 150, 150, 255]);
}

#[test]
fn hidden_group_hides_children_in_buffered_mode() {
    let mut file = group_file(1 | 2);
    file.layers[1].flags = 0; // group invisible
    let out = render_frame(&file, 0, &no_float).unwrap();
    assert_eq!(&out.pixels, &[100, 100, 100, 255], "only the base layer");
}

#[test]
fn oversized_tilemap_materialization_is_rejected() {
    let mut file = group_file(1);
    file.layers[0].layer_type = LayerType::Tilemap { tileset_index: 0 };
    file.layers.truncate(1);
    file.tilesets = vec![Tileset {
        id: 0,
        flags: 0,
        num_tiles: 1,
        tile_width: u16::MAX,
        tile_height: u16::MAX,
        base_index: 1,
        name: String::new(),
        pixels: Some(Vec::new()),
        external: None,
        user_data: Default::default(),
        tile_user_data: Vec::new(),
    }];
    file.frames[0].cels = vec![Cel {
        layer_index: 0,
        x: 0,
        y: 0,
        opacity: 255,
        z_index: 0,
        content: CelContent::Tilemap(CelTilemap { width: u16::MAX, height: u16::MAX, tiles: Vec::new() }),
        extra: None,
        user_data: Default::default(),
    }];

    assert!(matches!(
        render_frame(&file, 0, &no_float),
        Err(RenderError::LimitExceeded("materialized tilemap dimensions"))
    ));
}

#[test]
fn bad_frame_and_hidden_layers() {
    let file = group_file(1);
    assert!(renderable(&file));
    assert!(matches!(render_frame(&file, 1, &no_float), Err(RenderError::BadFrame(1))));
    let mut file = group_file(1);
    file.layers[0].flags = 0; // base hidden
    file.layers[2].flags = 0; // child hidden
    let out = render_frame(&file, 0, &no_float).unwrap();
    assert_eq!((out.width, out.height), (1, 1));
    assert_eq!(&out.pixels, &[0, 0, 0, 0]);
}

#[test]
fn z_index_reorders_cels_in_pass_through_mode() {
    // Two Normal layers; the lower one gets z-index 2 and so draws last.
    let mut file = group_file(1);
    file.layers = vec![
        layer(LayerType::Image, None, BlendMode::Normal),
        layer(LayerType::Image, None, BlendMode::Normal),
    ];
    let mut a = cel(0);
    a.z_index = 2;
    a.content = CelContent::Image(CelImage { width: 1, height: 1, pixels: vec![1, 2, 3, 255] });
    let mut b = cel(1);
    b.content = CelContent::Image(CelImage { width: 1, height: 1, pixels: vec![9, 9, 9, 255] });
    file.frames[0].cels = vec![a, b];
    let out = render_frame(&file, 0, &no_float).unwrap();
    assert_eq!(&out.pixels, &[1, 2, 3, 255]);
}

#[test]
fn tilemap_cels_expand_through_flips_and_links_follow() {
    // 2x2 canvas, one 2x1 tileset of 2 tiles (1x1 each): tile 0 red, tile 1 blue.
    let mut file = group_file(1);
    file.header.width = 2;
    file.header.height = 1;
    file.header.frames = 2;
    file.layers = vec![layer(LayerType::Tilemap { tileset_index: 5 }, None, BlendMode::Normal)];
    file.tilesets = vec![Tileset {
        id: 5,
        flags: 0,
        num_tiles: 2,
        tile_width: 1,
        tile_height: 1,
        base_index: 1,
        name: String::new(),
        pixels: Some(vec![255, 0, 0, 255, 0, 0, 255, 255]),
        external: None,
        user_data: Default::default(),
        tile_user_data: Vec::new(),
    }];
    let tile = |index| Tile { index, x_flip: false, y_flip: false, d_flip: false };
    let mut c0 = cel(0);
    c0.content = CelContent::Tilemap(CelTilemap { width: 2, height: 1, tiles: vec![tile(1), tile(0)] });
    let mut c1 = cel(0);
    c1.content = CelContent::Linked(0);
    c1.x = 1;
    file.frames = vec![
        Frame { duration_ms: 100, cels: vec![c0] },
        Frame { duration_ms: 100, cels: vec![c1] },
    ];
    file.palettes = vec![Palette::default(), Palette::default()];
    assert!(renderable(&file));
    let f0 = render_frame(&file, 0, &no_float).unwrap();
    assert_eq!(&f0.pixels, &[0, 0, 255, 255, 255, 0, 0, 255]);
    // The link draws frame 0's tilemap at its own position: shifted right by one.
    let f1 = render_frame(&file, 1, &no_float).unwrap();
    assert_eq!(&f1.pixels, &[0, 0, 0, 0, 0, 0, 255, 255]);
}

#[test]
fn indexed_pixels_use_the_palette_and_transparent_index() {
    let mut file = group_file(1);
    file.header.color_depth = ColorDepth::Indexed;
    file.header.width = 3;
    file.header.transparent_index = 0;
    file.layers = vec![layer(LayerType::Image, None, BlendMode::Normal)];
    let mut c = cel(0);
    c.content = CelContent::Image(CelImage { width: 3, height: 1, pixels: vec![0, 1, 9] });
    file.frames[0].cels = vec![c];
    file.palettes = vec![Palette { entries: vec![[1, 1, 1, 255], [10, 20, 30, 255]] }];
    let out = render_frame(&file, 0, &no_float).unwrap();
    // index 0 is transparent, 1 paints, 9 is past the palette.
    assert_eq!(&out.pixels, &[0, 0, 0, 0, 10, 20, 30, 255, 0, 0, 0, 0]);
}

#[test]
fn renderable_rejects_short_cel_data() {
    let mut file = group_file(1);
    file.frames[0].cels[0].content = CelContent::Image(CelImage { width: 2, height: 2, pixels: vec![0; 4] });
    assert!(!renderable(&file));
    let mut file = group_file(1);
    file.palettes.clear();
    assert!(!renderable(&file));
    let mut file = group_file(1);
    file.frames[0].cels[0].layer_index = 7;
    assert!(!renderable(&file));
}

#[test]
fn render_errors_read_as_sentences() {
    assert_eq!(RenderError::BadFrame(7).message(), "frame 7 out of range");
    assert_eq!(
        RenderError::BrokenLink { frame: 2, layer: 15 }.message(),
        "linked cel resolution failed (frame 2, layer 15)"
    );
    assert_eq!(
        RenderError::MissingTileset { layer: 0 }.message(),
        "tilemap layer 0 references a missing tileset"
    );
    assert_eq!(RenderError::Unsupported("external tileset").message(), "unsupported for rendering: external tileset");
    assert_eq!(
        RenderError::LimitExceeded("materialized tilemap dimensions").message(),
        "safety limit exceeded while rendering: materialized tilemap dimensions"
    );
}
