use ase_core::convert::{animations, tag_frame_order, tracks_to_keep, ConvertOptions};
use ase_core::file::AseFile;
use ase_core::model::{AniDir, BlendMode, ColorDepth, Frame, Header, Layer, LayerType, Palette, Tag};

#[test]
fn tag_orders_for_every_direction() {
    assert_eq!(tag_frame_order(0, 3, AniDir::Forward), vec![0, 1, 2, 3]);
    assert_eq!(tag_frame_order(0, 3, AniDir::Reverse), vec![3, 2, 1, 0]);
    // 0,1,2,3 -> 0,1,2,3,2,1 (endpoints not doubled when looping)
    assert_eq!(tag_frame_order(0, 3, AniDir::PingPong), vec![0, 1, 2, 3, 2, 1]);
    assert_eq!(tag_frame_order(0, 3, AniDir::PingPongReverse), vec![3, 2, 1, 0, 1, 2]);
    assert_eq!(tag_frame_order(2, 3, AniDir::PingPong), vec![2, 3]);
    assert_eq!(tag_frame_order(4, 4, AniDir::PingPong), vec![4]);
    assert_eq!(tag_frame_order(5, 4, AniDir::Forward), Vec::<usize>::new());
}

fn doc(tags: Vec<Tag>, frames: usize) -> AseFile {
    AseFile {
        header: Header {
            frames: frames as u16,
            width: 1,
            height: 1,
            color_depth: ColorDepth::Rgba,
            flags: 1,
            default_frame_duration_ms: 100,
            transparent_index: 0,
            num_colors: 256,
            pixel_ratio: (1, 1),
            grid_x: 0,
            grid_y: 0,
            grid_width: 0,
            grid_height: 0,
        },
        layers: vec![
            Layer {
                flags: 0,
                layer_type: LayerType::Image,
                child_level: 0,
                blend_mode: BlendMode::Normal,
                opacity: 255,
                name: "shadow fx".to_string(),
                parent: None,
                uuid: None,
                user_data: Default::default(),
            },
            Layer {
                flags: 1,
                layer_type: LayerType::Image,
                child_level: 0,
                blend_mode: BlendMode::Normal,
                opacity: 255,
                name: "body".to_string(),
                parent: None,
                uuid: None,
                user_data: Default::default(),
            },
        ],
        frames: (0..frames).map(|_| Frame { duration_ms: 100, cels: vec![] }).collect(),
        tags,
        tilesets: vec![],
        slices: vec![],
        palettes: (0..frames).map(|_| Palette::default()).collect(),
        user_data: Default::default(),
        color_profile: None,
        external_files: vec![],
    }
}

fn tag(name: &str, from: u16, to: u16, direction: AniDir, repeat: u16) -> Tag {
    Tag {
        from_frame: from,
        to_frame: to,
        direction,
        repeat,
        color: [0, 0, 0],
        name: name.to_string(),
        user_data: Default::default(),
    }
}

#[test]
fn untagged_file_is_one_default_animation() {
    let anims = animations(&doc(vec![], 3));
    assert_eq!(anims.len(), 1);
    assert_eq!(anims[0].name, "default");
    assert_eq!(anims[0].order, vec![0, 1, 2]);
    assert!(anims[0].looped);
}

#[test]
fn tags_become_animations_clamped_to_the_frames() {
    let anims = animations(&doc(
        vec![tag("walk", 0, 9, AniDir::PingPong, 0), tag("hit", 1, 1, AniDir::Forward, 2)],
        4,
    ));
    assert_eq!(anims.len(), 2);
    assert_eq!(anims[0].name, "walk");
    assert_eq!(anims[0].order, vec![0, 1, 2, 3, 2, 1]);
    assert!(anims[0].looped);
    assert_eq!(anims[1].name, "hit");
    assert_eq!(anims[1].order, vec![1]);
    assert!(!anims[1].looped);
}

#[test]
fn options_adjust_layer_visibility() {
    let opts = ConvertOptions { exclude_layers: "fx".to_string(), include_hidden_layers: true };
    let out = opts.apply(doc(vec![], 1));
    // Hidden "shadow fx" would be shown, but its name matches the exclusion.
    assert_eq!(out.layers[0].flags & 1, 0);
    assert_eq!(out.layers[1].flags & 1, 1);

    let opts = ConvertOptions { exclude_layers: String::new(), include_hidden_layers: true };
    let out = opts.apply(doc(vec![], 1));
    assert_eq!(out.layers[0].flags & 1, 1, "hidden layers included");

    let opts = ConvertOptions { exclude_layers: "bod".to_string(), include_hidden_layers: false };
    let out = opts.apply(doc(vec![], 1));
    assert_eq!(out.layers[0].flags & 1, 0);
    assert_eq!(out.layers[1].flags & 1, 0, "case-sensitive substring hides the layer");
    assert_eq!(out.frames.len(), 1);
}

#[test]
fn reimport_keeps_only_hand_made_tracks() {
    let existing: Vec<String> =
        ["Sprite2D:texture", "Camera:offset", "Sprite2D", "Audio:playing"].iter().map(|s| s.to_string()).collect();
    let generated: Vec<String> = ["Sprite2D:texture", "Sprite2D"].iter().map(|s| s.to_string()).collect();
    assert_eq!(tracks_to_keep(&existing, &generated), vec![1, 3]);
    assert_eq!(tracks_to_keep(&existing, &vec![]), vec![0, 1, 2, 3]);
    assert_eq!(tracks_to_keep(&vec![], &generated), Vec::<usize>::new());
}
