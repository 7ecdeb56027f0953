use ase_core::atlas::{pack, trim};
use ase_core::composite::render::RgbaImage;

fn img(w: u32, h: u32, rect: (u32, u32, u32, u32)) -> RgbaImage {
    let mut pixels = vec![0u8; (w * h * 4) as usize];
    for y in rect.1..rect.1 + rect.3 {
        for x in rect.0..rect.0 + rect.2 {
            let i = ((y * w + x) * 4) as usize;
            pixels[i..i + 4].copy_from_slice(&[255, 0, 0, 255]);
        }
    }
    RgbaImage { width: w, height: h, pixels }
}

#[test]
fn trims_to_content_and_keeps_offset() {
    let t = trim(&img(16, 16, (3, 5, 4, 2)));
    assert_eq!((t.width, t.height), (4, 2));
    assert_eq!((t.offset_x, t.offset_y), (3, 5));
}

#[test]
fn empty_frame_becomes_1x1() {
    let t = trim(&img(8, 8, (0, 0, 0, 0)));
    assert_eq!((t.width, t.height, t.pixels.len()), (1, 1, 4));
}

#[test]
fn identical_frames_dedup() {
    let frames = vec![img(16, 16, (2, 2, 4, 4)), img(16, 16, (2, 2, 4, 4)), img(16, 16, (8, 8, 2, 2))];
    let atlas = pack(&frames, 1, 16384);
    assert_eq!(atlas.placements.len(), 2, "two unique images");
    assert_eq!(atlas.frame_to_placement, vec![0, 0, 1]);
}

#[test]
fn packing_is_deterministic_and_lossless() {
    let frames: Vec<RgbaImage> = (0..6).map(|i| img(32, 32, (i, i, 5 + i, 3 + i))).collect();
    let a = pack(&frames, 1, 16384);
    let b = pack(&frames, 1, 16384);
    assert_eq!(a.pages[0].pixels, b.pages[0].pixels);
    assert_eq!(a.pages[0].width, b.pages[0].width);
    // Every placement's pixels must match its trimmed source.
    for (f, &pi) in a.frame_to_placement.iter().enumerate() {
        let p = &a.placements[pi];
        let t = trim(&frames[f]);
        let a = &a.pages[p.page];
        for row in 0..p.height as usize {
            let atlas_row = &a.pixels[((p.y as usize + row) * a.width as usize + p.x as usize) * 4..]
                [..p.width as usize * 4];
            let src_row = &t.pixels[row * t.width as usize * 4..][..t.width as usize * 4];
            assert_eq!(atlas_row, src_row);
        }
    }
}

#[test]
fn splits_pages_at_dimension_cap() {
    // Six 10x10 solid frames, max_dim 24: pages hold at most 2 columns x 2
    // shelves = 4 tiles, so 6 distinct frames need 2 pages.
    let frames: Vec<RgbaImage> = (0..6)
        .map(|i| {
            let mut f = img(10, 10, (0, 0, 10, 10));
            f.pixels[0] = i as u8; // make each frame unique
            f
        })
        .collect();
    let atlas = pack(&frames, 1, 24);
    assert!(atlas.pages.len() > 1, "expected a page split");
    for page in &atlas.pages {
        assert!(page.width <= 24 && page.height <= 24);
    }
    // Every frame still maps to a valid placement on some page.
    for &pi in &atlas.frame_to_placement {
        let p = &atlas.placements[pi];
        assert!(p.page < atlas.pages.len());
    }
}

#[test]
fn shelf_layout_of_known_sizes() {
    // Three distinct solid images: 4x4, 2x2, 4x2; total padded area with
    // padding 1: 25 + 9 + 15 = 49 -> sqrt 7 -> rounded up to 8.
    let frames = vec![img(4, 4, (0, 0, 4, 4)), img(2, 2, (0, 0, 2, 2)), img(4, 2, (0, 0, 4, 2))];
    let a = pack(&frames, 1, 16384);
    assert_eq!(a.pages.len(), 1);
    // Tallest first: 4x4 at (0,0); then 4x2 does not fit beside it in width
    // 8 (5 + 4 > 8), so a new shelf at y 5; then 2x2 beside it.
    let p0 = a.placements[0];
    let p2 = a.placements[2];
    let p1 = a.placements[1];
    assert_eq!((p0.x, p0.y), (0, 0));
    assert_eq!((p2.x, p2.y), (0, 5));
    assert_eq!((p1.x, p1.y), (5, 5));
    assert_eq!((a.pages[0].width, a.pages[0].height), (7, 7));
}

#[test]
fn no_frames_give_one_blank_page() {
    let a = pack(&[], 1, 16384);
    assert_eq!(a.pages.len(), 1);
    assert_eq!((a.pages[0].width, a.pages[0].height), (1, 1));
    assert_eq!(a.pages[0].pixels, vec![0, 0, 0, 0]);
    assert!(a.placements.is_empty());
}

#[test]
fn many_tiny_frames_share_one_placement() {
    let frames: Vec<RgbaImage> =
        (0..300_000).map(|_| RgbaImage { width: 1, height: 1, pixels: vec![9, 8, 7, 255] }).collect();
    let a = pack(&frames, 1, 16384);
    assert_eq!(a.placements.len(), 1);
    assert_eq!(a.frame_to_placement.len(), 300_000);
    assert!(a.frame_to_placement.iter().all(|&p| p == 0));
    assert_eq!((a.pages[0].width, a.pages[0].height), (1, 1));
    assert_eq!(a.pages[0].pixels, vec![9, 8, 7, 255]);
}

#[test]
fn large_padding_starts_new_pages() {
    let frames = vec![img(8, 8, (0, 0, 4, 4)), img(8, 8, (0, 0, 3, 3))];
    let a = pack(&frames, 100_000, 16384);
    assert_eq!(a.placements.len(), 2);
    assert_eq!(a.pages.len(), 2, "a shelf below a 100000 px gap does not fit under 16384");
    for p in &a.placements {
        assert_eq!((p.x, p.y), (0, 0));
        let page = &a.pages[p.page];
        assert_eq!((page.width, page.height), (p.width, p.height));
    }
}

#[test]
fn frames_wider_than_16_bits_are_packed() {
    let frames = vec![img(70_000, 1, (5, 0, 69_990, 1))];
    let a = pack(&frames, 1, 16384);
    let p = a.placements[0];
    assert_eq!((p.width, p.height, p.offset_x), (69_990, 1, 5));
    let page = &a.pages[p.page];
    assert_eq!((page.width, page.height), (69_990, 1));
    assert!(page.pixels.chunks(4).all(|px| px == [255, 0, 0, 255]));
}

#[test]
fn placements_keep_padding_apart_on_a_clear_background() {
    let frames = vec![
        img(16, 16, (0, 0, 3, 5)),
        img(16, 16, (1, 1, 6, 2)),
        img(16, 16, (0, 0, 3, 5)),
        img(16, 16, (2, 0, 4, 4)),
    ];
    let padding = 2;
    let a = pack(&frames, padding, 64);
    assert!(!a.pages.is_empty());
    // First-seen numbering: frame 2 repeats frame 0.
    assert_eq!(a.frame_to_placement, vec![0, 1, 0, 2]);
    assert_eq!(a.placements.len(), 3);
    for (f, frame) in frames.iter().enumerate() {
        let t = trim(frame);
        let p = &a.placements[a.frame_to_placement[f]];
        assert_eq!((p.width, p.height, p.offset_x, p.offset_y), (t.width, t.height, t.offset_x, t.offset_y));
    }
    for p in &a.placements {
        let page = &a.pages[p.page];
        assert!(p.x + p.width <= page.width && p.y + p.height <= page.height);
    }
    for (i, p) in a.placements.iter().enumerate() {
        for q in a.placements.iter().skip(i + 1) {
            assert!(
                p.page != q.page
                    || p.x + p.width + padding <= q.x
                    || q.x + q.width + padding <= p.x
                    || p.y + p.height + padding <= q.y
                    || q.y + q.height + padding <= p.y
            );
        }
    }
    for (j, page) in a.pages.iter().enumerate() {
        assert!(page.width >= 1 && page.height >= 1 && page.width <= 64 && page.height <= 64);
        assert_eq!(page.pixels.len(), (page.width * page.height * 4) as usize);
        for y in 0..page.height {
            for x in 0..page.width {
                let covered = a.placements.iter().any(|p| {
                    p.page == j && p.x <= x && x < p.x + p.width && p.y <= y && y < p.y + p.height
                });
                if !covered {
                    let k = ((y * page.width + x) * 4) as usize;
                    assert_eq!(&page.pixels[k..k + 4], &[0, 0, 0, 0]);
                }
            }
        }
    }
}
