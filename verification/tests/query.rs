use ase_core::atlas::{frame_region, pack};
use ase_core::composite::render::RgbaImage;
use ase_core::convert::{animation_timeline, animations, Anim};
use ase_core::file::AseFile;
use ase_core::model::{
    AniDir, BlendMode, Cel, CelContent, CelImage, ColorDepth, Frame, Header, Layer, LayerType,
    Palette, Slice, SliceKey, Tag, UserData,
};
use ase_core::query::{frame_duration_ms, layer_names, slices_at, tag_names, tag_range};

fn header(frames: u16) -> Header {
    Header {
        frames,
        width: 4,
        height: 4,
        color_depth: ColorDepth::Rgba,
        flags: 1,
        default_frame_duration_ms: 100,
        transparent_index: 0,
        num_colors: 256,
        pixel_ratio: (1, 1),
        grid_x: 0,
        grid_y: 0,
        grid_width: 0,
        grid_height: 0,
    }
}

fn layer(name: &str) -> Layer {
    Layer {
        flags: 1,
        layer_type: LayerType::Image,
        child_level: 0,
        blend_mode: BlendMode::Normal,
        opacity: 255,
        name: name.to_string(),
        parent: None,
        uuid: None,
        user_data: Default::default(),
    }
}

fn tag(name: &str, from: u16, to: u16) -> Tag {
    Tag {
        from_frame: from,
        to_frame: to,
        direction: AniDir::Forward,
        repeat: 0,
        color: [0, 0, 0],
        name: name.to_string(),
        user_data: Default::default(),
    }
}

fn cel(text: Option<&str>) -> Cel {
    Cel {
        layer_index: 0,
        x: 0,
        y: 0,
        opacity: 255,
        z_index: 0,
        content: CelContent::Image(CelImage { width: 1, height: 1, pixels: vec![1, 2, 3, 255] }),
        extra: None,
        user_data: UserData { text: text.map(|t| t.to_string()), color: None, maps: vec![] },
    }
}

fn key(frame: u32, w: u32, h: u32) -> SliceKey {
    SliceKey { frame, x: 1, y: 2, width: w, height: h, center: None, pivot: Some((1, 1)) }
}

fn doc(durations: &[u16], frame_cels: Vec<Vec<Cel>>, tags: Vec<Tag>, slices: Vec<Slice>) -> AseFile {
    AseFile {
        header: header(durations.len() as u16),
        layers: vec![layer("body"), layer("shadow")],
        frames: durations
            .iter()
            .zip(frame_cels)
            .map(|(&d, cels)| Frame { duration_ms: d, cels })
            .collect(),
        tags,
        tilesets: vec![],
        slices,
        palettes: durations.iter().map(|_| Palette::default()).collect(),
        user_data: Default::default(),
        color_profile: None,
        external_files: vec![],
    }
}

#[test]
fn frame_durations_and_names() {
    let file = doc(&[100, 250], vec![vec![], vec![]], vec![tag("run", 0, 1), tag("idle", 1, 1)], vec![]);
    assert_eq!(frame_duration_ms(&file, 0), 100);
    assert_eq!(frame_duration_ms(&file, 1), 250);
    assert_eq!(frame_duration_ms(&file, 2), 0);
    assert_eq!(layer_names(&file), vec!["body".to_string(), "shadow".to_string()]);
    assert_eq!(tag_names(&file), vec!["run".to_string(), "idle".to_string()]);
}

#[test]
fn tag_range_takes_the_first_tag_of_a_name() {
    let tags = vec![tag("walk", 0, 1), tag("jump", 2, 3), tag("walk", 4, 5)];
    let file = doc(&[100; 6], (0..6).map(|_| vec![]).collect(), tags, vec![]);
    assert_eq!(tag_range(&file, &"walk".to_string()), Some((0, 1)));
    assert_eq!(tag_range(&file, &"jump".to_string()), Some((2, 3)));
    assert_eq!(tag_range(&file, &"swim".to_string()), None);
}

#[test]
fn slices_follow_their_keys_and_hide_at_zero_size() {
    let slices = vec![
        Slice {
            name: "hitbox".to_string(),
            keys: vec![key(0, 10, 10), key(2, 0, 0), key(4, 5, 6)],
            user_data: Default::default(),
        },
        Slice { name: "late".to_string(), keys: vec![key(3, 2, 2)], user_data: Default::default() },
    ];
    let file = doc(&[100; 5], (0..5).map(|_| vec![]).collect(), vec![], slices);
    assert_eq!(slices_at(&file, 0), vec![(0, key(0, 10, 10))]);
    assert_eq!(slices_at(&file, 1), vec![(0, key(0, 10, 10))]);
    assert_eq!(slices_at(&file, 2), vec![]);
    assert_eq!(slices_at(&file, 3), vec![(1, key(3, 2, 2))]);
    assert_eq!(slices_at(&file, 4), vec![(0, key(4, 5, 6)), (1, key(3, 2, 2))]);
}

#[test]
fn timeline_keys_frames_and_cel_text_calls() {
    let file = doc(
        &[100, 50, 200],
        vec![vec![cel(None)], vec![cel(Some("step")), cel(Some("")), cel(Some("dust"))], vec![cel(None)]],
        vec![],
        vec![],
    );
    let anim = Anim { name: "walk".to_string(), order: vec![0, 1, 2, 1], looped: true };
    let t = animation_timeline(&file, &anim);
    assert_eq!(t.length_ms, 400);
    assert_eq!(t.frame_keys, vec![(0, 0), (100, 1), (150, 2), (350, 1)]);
    assert_eq!(
        t.calls,
        vec![
            (100, "step".to_string()),
            (100, "dust".to_string()),
            (350, "step".to_string()),
            (350, "dust".to_string()),
        ]
    );
}

#[test]
fn default_animation_timeline_spans_every_frame() {
    let file = doc(&[30, 40, 50], vec![vec![], vec![], vec![]], vec![], vec![]);
    let anims = animations(&file);
    let t = animation_timeline(&file, &anims[0]);
    assert_eq!(t.length_ms, 120);
    assert_eq!(t.frame_keys, vec![(0, 0), (30, 1), (70, 2)]);
    assert!(t.calls.is_empty());
}

fn img(w: u32, h: u32, rect: (u32, u32, u32, u32)) -> RgbaImage {
    let mut pixels = vec![0u8; (w * h * 4) as usize];
    for y in rect.1..rect.1 + rect.3 {
        for x in rect.0..rect.0 + rect.2 {
            let i = ((y * w + x) * 4) as usize;
            pixels[i..i + 4].copy_from_slice(&[255, 0, 0, 255]);
        }
    }
    RgbaImage { width: w, height: h, pixels }
}

#[test]
fn frame_region_restores_canvas_size_with_margins() {
    let frames = vec![img(16, 16, (3, 5, 4, 2)), img(16, 16, (3, 5, 4, 2))];
    let atlas = pack(&frames, 1, 16384);
    let r = frame_region(&atlas, 1, 16, 16).expect("frame 1 is placed");
    let p = atlas.placements[atlas.frame_to_placement[1]];
    assert_eq!((r.page, r.x, r.y), (p.page, p.x, p.y));
    assert_eq!((r.width, r.height), (4, 2));
    assert_eq!((r.margin_x, r.margin_y), (3, 5));
    assert_eq!((r.margin_width, r.margin_height), (12, 14));
    assert!(frame_region(&atlas, 2, 16, 16).is_none());
}
