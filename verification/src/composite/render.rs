//! Frame flattening: cel ordering, opacity, visibility, blending, tilemap
//! materialization and group buffers.
//!
//! Two composition paths: when the header says group blend modes are valid
//! (flag bit 1), each group is composited into its own buffer and blended
//! onto the backdrop with the group's mode and opacity; otherwise groups are
//! pass-through folders and cels composite flat.
use crate::composite::blend::{
    blend, blend_px, float_ok, float_oracle, lemma_mul8_rounds, mul8, mul_un8, FloatBlender, Rgb,
    Rgba,
};
use crate::file::{palette_index, parents_precede, visible_in_tree, AseFile, AseFileV};
use crate::limits::{MAX_CANVAS_DIM, MAX_IMAGE_BYTES};
use crate::model::{
    BlendMode, Cel, CelContent, CelContentV, CelImage, CelTilemap, CelV, ColorDepth, Header,
    LayerType, LayerV, Palette, Tile, TilesetV,
};
use vstd::arithmetic::div_mod::{lemma_fundamental_div_mod, lemma_fundamental_div_mod_converse};
use crate::text::{dec_chars, into_text, push_dec, push_text};
use vstd::prelude::*;
use vstd::utf8::encode_utf8;

verus! {

/// Why a frame could not be flattened.
#[derive(Debug, Clone, PartialEq, Eq)]
pub enum RenderError {
    BadFrame(usize),
    BrokenLink { frame: usize, layer: usize },
    MissingTileset { layer: usize },
    /// Construct not composited (currently: external tilesets).
    Unsupported(&'static str),
    /// A safety limit was exceeded while compositing (a materialized tilemap
    /// larger than any legitimate sprite).
    LimitExceeded(&'static str),
}

/// The sentence describing a render error.
pub open spec fn render_error_text(e: RenderError) -> Seq<char> {
    match e {
        RenderError::BadFrame(i) => "frame "@ + dec_chars(i as nat) + " out of range"@,
        RenderError::BrokenLink { frame, layer } => "linked cel resolution failed (frame "@
            + dec_chars(frame as nat) + ", layer "@ + dec_chars(layer as nat) + ")"@,
        RenderError::MissingTileset { layer } => "tilemap layer "@ + dec_chars(layer as nat)
            + " references a missing tileset"@,
        RenderError::Unsupported(what) => "unsupported for rendering: "@ + what@,
        RenderError::LimitExceeded(what) => "safety limit exceeded while rendering: "@ + what@,
    }
}

impl RenderError {
    /// The error as a sentence.
    pub fn message(&self) -> (r: String)
        ensures
            r@ == render_error_text(*self),
    {
        let mut b: Vec<u8> = Vec::new();
        let ghost mut g = Seq::<char>::empty();
        assert(b@ =~= encode_utf8(g));
        match self {
            RenderError::BadFrame(i) => {
                let l1 = "frame ";
                let l2 = " out of range";
                push_text(&mut b, Ghost(g), l1);
                proof { g = g + l1@; }
                push_dec(&mut b, Ghost(g), *i);
                proof { g = g + dec_chars(*i as nat); }
                push_text(&mut b, Ghost(g), l2);
                proof { g = g + l2@; }
            },
            RenderError::BrokenLink { frame, layer } => {
                let l1 = "linked cel resolution failed (frame ";
                let l2 = ", layer ";
                let l3 = ")";
                push_text(&mut b, Ghost(g), l1);
                proof { g = g + l1@; }
                push_dec(&mut b, Ghost(g), *frame);
                proof { g = g + dec_chars(*frame as nat); }
                push_text(&mut b, Ghost(g), l2);
                proof { g = g + l2@; }
                push_dec(&mut b, Ghost(g), *layer);
                proof { g = g + dec_chars(*layer as nat); }
                push_text(&mut b, Ghost(g), l3);
                proof { g = g + l3@; }
            },
            RenderError::MissingTileset { layer } => {
                let l1 = "tilemap layer ";
                let l2 = " references a missing tileset";
                push_text(&mut b, Ghost(g), l1);
                proof { g = g + l1@; }
                push_dec(&mut b, Ghost(g), *layer);
                proof { g = g + dec_chars(*layer as nat); }
                push_text(&mut b, Ghost(g), l2);
                proof { g = g + l2@; }
            },
            RenderError::Unsupported(what) => {
                let l1 = "unsupported for rendering: ";
                push_text(&mut b, Ghost(g), l1);
                proof { g = g + l1@; }
                push_text(&mut b, Ghost(g), what);
                proof { g = g + what@; }
            },
            RenderError::LimitExceeded(what) => {
                let l1 = "safety limit exceeded while rendering: ";
                push_text(&mut b, Ghost(g), l1);
                proof { g = g + l1@; }
                push_text(&mut b, Ghost(g), what);
                proof { g = g + what@; }
            },
        }
        assert(g =~= render_error_text(*self));
        into_text(b, Ghost(g))
    }
}

/// A flattened frame: straight-alpha RGBA, row-major, canvas-sized.
pub struct RgbaImage {
    pub width: u32,
    pub height: u32,
    pub pixels: Vec<u8>,
}

/// Decoded image: width, height, pixel bytes.
pub type ImageV = (u16, u16, Seq<u8>);

/// RGBA of one cel pixel `px` (the pixel's bytes) in `depth`; `None` for a
/// pixel transparent by definition: the transparent index off a background
/// layer, or an index past the palette. On a background layer every palette
/// color paints opaque.
pub open spec fn px_rgba(depth: ColorDepth, palette: Seq<[u8; 4]>, transparent_index: u8, on_background: bool, px: Seq<u8>) -> Option<Seq<u8>> {
    match depth {
        ColorDepth::Rgba => Some(seq![px[0], px[1], px[2], px[3]]),
        ColorDepth::Grayscale => Some(seq![px[0], px[0], px[0], px[1]]),
        ColorDepth::Indexed => {
            let idx = px[0];
            if idx == transparent_index && !on_background {
                None
            } else if (idx as int) < palette.len() {
                let e = palette[idx as int];
                if on_background {
                    Some(seq![e[0], e[1], e[2], 255u8])
                } else {
                    Some(e@)
                }
            } else {
                None
            }
        },
    }
}

pub open spec fn opt_px(o: Option<Rgba>) -> Option<Seq<u8>> {
    match o {
        Some(p) => Some(p@),
        None => None,
    }
}

/// Converts the cel pixel at `at` in `pixels` to RGBA.
fn pixel_to_rgba(
    depth: ColorDepth,
    palette: &Palette,
    transparent_index: u8,
    on_background: bool,
    pixels: &Vec<u8>,
    at: usize,
) -> (r: Option<Rgba>)
    requires
        at + depth.bpp_bytes() <= pixels.len(),
    ensures
        opt_px(r) == px_rgba(
            depth,
            palette@,
            transparent_index,
            on_background,
            pixels@.subrange(at as int, at + depth.bpp_bytes()),
        ),
{
    let ghost px = pixels@.subrange(at as int, at + depth.bpp_bytes());
    match depth {
        ColorDepth::Rgba => {
            let r = [pixels[at], pixels[at + 1], pixels[at + 2], pixels[at + 3]];
            assert(r@ =~= seq![px[0], px[1], px[2], px[3]]);
            Some(r)
        },
        ColorDepth::Grayscale => {
            let r = [pixels[at], pixels[at], pixels[at], pixels[at + 1]];
            assert(r@ =~= seq![px[0], px[0], px[0], px[1]]);
            Some(r)
        },
        ColorDepth::Indexed => {
            let idx = pixels[at];
            if idx == transparent_index && !on_background {
                return None;
            }
            if (idx as usize) < palette.entries.len() {
                let e = palette.entries[idx as usize];
                if on_background {
                    let r = [e[0], e[1], e[2], 255u8];
                    assert(r@ =~= seq![e[0], e[1], e[2], 255u8]);
                    Some(r)
                } else {
                    Some(e)
                }
            } else {
                None
            }
        },
    }
}

/// Index of the first tileset with `id` at or after `i`.
pub open spec fn first_tileset(ts: Seq<TilesetV>, id: u32, i: int) -> Option<int>
    decreases ts.len() - i,
{
    if i < 0 || i >= ts.len() {
        None
    } else if ts[i].id == id {
        Some(i)
    } else {
        first_tileset(ts, id, i + 1)
    }
}

/// Index of the first cel of `layer` at or after `i`.
pub open spec fn first_cel(cels: Seq<CelV>, layer: usize, i: int) -> Option<int>
    decreases cels.len() - i,
{
    if i < 0 || i >= cels.len() {
        None
    } else if cels[i].layer_index == layer {
        Some(i)
    } else {
        first_cel(cels, layer, i + 1)
    }
}

/// Byte `c` of materialized pixel (`px`, `py`): the tile whose cell covers
/// it, read through its flips (transpose, then X, then Y); `fill` where the
/// cell has no tile, the tile is the empty tile 0, or its index is out of
/// range.
pub open spec fn tile_byte(
    grid_w: int,
    tiles: Seq<Tile>,
    ts: TilesetV,
    strip: Seq<u8>,
    bpp: int,
    fill: u8,
    px: int,
    py: int,
    c: int,
) -> u8 {
    let tw = ts.tile_width as int;
    let th = ts.tile_height as int;
    let i = (py / th) * grid_w + px / tw;
    if i >= tiles.len() {
        fill
    } else {
        let t = tiles[i];
        if (ts.zero_empty() && t.index == 0) || t.index >= ts.num_tiles {
            fill
        } else {
            let x = px % tw;
            let y = py % th;
            let sx0 = if t.d_flip {
                if y < tw - 1 { y } else { tw - 1 }
            } else {
                x
            };
            let sy0 = if t.d_flip {
                if x < th - 1 { x } else { th - 1 }
            } else {
                y
            };
            let sx = if t.x_flip { tw - 1 - sx0 } else { sx0 };
            let sy = if t.y_flip { th - 1 - sy0 } else { sy0 };
            strip[((t.index * th + sy) * tw + sx) * bpp + c]
        }
    }
}

/// Byte `k` of a materialized image `w` pixels wide.
pub open spec fn mat_byte(
    grid_w: int,
    tiles: Seq<Tile>,
    ts: TilesetV,
    strip: Seq<u8>,
    bpp: int,
    fill: u8,
    w: int,
    k: int,
) -> u8 {
    tile_byte(grid_w, tiles, ts, strip, bpp, fill, (k / bpp) % w, (k / bpp) / w, k % bpp)
}

/// Byte that fills empty tilemap cells: the transparent index for indexed
/// sprites, 0 otherwise.
pub open spec fn fill_byte(h: Header) -> u8 {
    match h.color_depth {
        ColorDepth::Indexed => h.transparent_index,
        _ => 0,
    }
}

/// The image a tilemap cel of layer `layer` expands to, or why it cannot.
pub open spec fn materialize(f: AseFileV, layer: int, grid_w: u16, grid_h: u16, tiles: Seq<Tile>) -> Result<ImageV, RenderError> {
    match f.layers[layer].layer_type {
        LayerType::Tilemap { tileset_index } => match first_tileset(f.tilesets, tileset_index, 0) {
            None => Err(RenderError::MissingTileset { layer: layer as usize }),
            Some(ti) => {
                let ts = f.tilesets[ti];
                match ts.pixels {
                    None => Err(RenderError::Unsupported("external tileset")),
                    Some(strip) => {
                        let bpp = f.header.color_depth.bpp_bytes();
                        let w = grid_w * ts.tile_width;
                        let h = grid_h * ts.tile_height;
                        if w > MAX_CANVAS_DIM || h > MAX_CANVAS_DIM {
                            Err(RenderError::LimitExceeded("materialized tilemap dimensions"))
                        } else if w * h * bpp > MAX_IMAGE_BYTES {
                            Err(RenderError::LimitExceeded("materialized tilemap size"))
                        } else {
                            Ok(
                                (
                                    w as u16,
                                    h as u16,
                                    Seq::new(
                                        (w * h * bpp) as nat,
                                        |k: int|
                                            mat_byte(
                                                grid_w as int,
                                                tiles,
                                                ts,
                                                strip,
                                                bpp,
                                                fill_byte(f.header),
                                                w as int,
                                                k,
                                            ),
                                    ),
                                ),
                            )
                        }
                    },
                }
            },
        },
        _ => Err(RenderError::MissingTileset { layer: layer as usize }),
    }
}


/// Every tileset strip holds all its tiles.
pub open spec fn tilesets_ready(f: AseFileV) -> bool {
    forall|i: int|
        0 <= i < f.tilesets.len() ==> ((#[trigger] f.tilesets[i]).pixels matches Some(p) ==> p.len()
            >= f.tilesets[i].num_tiles * f.tilesets[i].tile_height * f.tilesets[i].tile_width
            * f.header.color_depth.bpp_bytes())
}

proof fn lemma_mixed_radix(q: int, qn: int, d: int, r: int)
    requires
        0 <= q < qn,
        0 <= r < d,
    ensures
        0 <= q * d + r < qn * d,
        q * d + d <= qn * d,
{
    assert(0 <= q * d) by (nonlinear_arith)
        requires
            0 <= q,
            0 < d,
    ;
    assert((q + 1) * d <= qn * d) by (nonlinear_arith)
        requires
            q + 1 <= qn,
            0 < d,
    ;
    assert((q + 1) * d == q * d + d) by (nonlinear_arith);
}

proof fn lemma_le_mul(x: int, d: int)
    requires
        0 <= x,
        1 <= d,
    ensures
        x <= x * d,
{
    assert(x <= x * d) by (nonlinear_arith)
        requires
            0 <= x,
            1 <= d,
    ;
}

proof fn lemma_u16_product(a: u16, b: u16)
    ensures
        0 <= a * b <= 65535 * 65535,
{
    assert(0 <= a * b <= 65535 * 65535) by (nonlinear_arith)
        requires
            a <= 65535,
            b <= 65535,
    ;
}

/// Position `(q, r)` of `q * d + r` in radix `d`.
proof fn lemma_split(q: int, d: int, r: int)
    requires
        0 < d,
        0 <= r < d,
    ensures
        (q * d + r) / d == q,
        (q * d + r) % d == r,
{
    lemma_fundamental_div_mod_converse(q * d + r, d, q, r);
}

/// Where in the strip the bytes of materialized pixel (`px`, `py`) start,
/// or `None` when the pixel takes the fill byte. `cell` is the index of the
/// grid cell covering the pixel.
fn tile_source(
    tiles: &Vec<Tile>,
    ts: &crate::model::Tileset,
    strip: &Vec<u8>,
    bpp: usize,
    fill: u8,
    grid_w: usize,
    cell: usize,
    px: usize,
    py: usize,
) -> (r: Option<usize>)
    requires
        ts.tile_width > 0,
        ts.tile_height > 0,
        1 <= bpp <= 4,
        ts@.pixels == Some(strip@),
        strip@.len() >= ts.num_tiles * ts.tile_height * ts.tile_width * bpp,
        cell == (py as int / ts.tile_height as int) * grid_w + px as int / ts.tile_width as int,
    ensures
        match r {
            Some(base) => base + bpp <= strip@.len() && forall|j: int|
                0 <= j < bpp ==> tile_byte(grid_w as int, tiles@, ts@, strip@, bpp as int, fill, px as int, py as int, j)
                    == strip@[base + j],
            None => forall|j: int|
                0 <= j < bpp ==> tile_byte(grid_w as int, tiles@, ts@, strip@, bpp as int, fill, px as int, py as int, j)
                    == fill,
        },
{
    let tw = ts.tile_width as usize;
    let th = ts.tile_height as usize;
    let _strip_len = strip.len();
    if cell >= tiles.len() {
        return None;
    }
    let t = tiles[cell];
    if (ts.zero_is_empty() && t.index == 0) || t.index >= ts.num_tiles {
        return None;
    }
    let x = px % tw;
    let y = py % th;
    let sx0 = if t.d_flip {
        if y < tw - 1 { y } else { tw - 1 }
    } else {
        x
    };
    let sy0 = if t.d_flip {
        if x < th - 1 { x } else { th - 1 }
    } else {
        y
    };
    let sx = if t.x_flip { tw - 1 - sx0 } else { sx0 };
    let sy = if t.y_flip { th - 1 - sy0 } else { sy0 };
    proof {
        let n = ts.num_tiles as int;
        lemma_mixed_radix(t.index as int, n, th as int, sy as int);
        lemma_mixed_radix((t.index * th + sy) as int, n * th, tw as int, sx as int);
        lemma_mixed_radix(((t.index * th + sy) * tw + sx) as int, n * th * tw, bpp as int, 0);
        lemma_le_mul((t.index * th + sy) as int, tw as int);
        lemma_le_mul(((t.index * th + sy) * tw + sx) as int, bpp as int);
        lemma_le_mul(t.index as int, th as int);
    }
    Some(((t.index as usize * th + sy) * tw + sx) * bpp)
}

/// Expands a tilemap cel into a flat pixel buffer, pixel by pixel from the
/// covering tile of the tileset strip, applying flips.
fn materialize_tilemap(file: &AseFile, layer_index: usize, tm: &CelTilemap) -> (r: Result<
    CelImage,
    RenderError,
>)
    requires
        layer_index < file.layers.len(),
        tilesets_ready(file@),
    ensures
        match materialize(file@, layer_index as int, tm.width, tm.height, tm.tiles@) {
            Ok(img) => r matches Ok(c) && (c.width, c.height, c.pixels@) == img,
            Err(e) => r == Err::<CelImage, RenderError>(e),
        },
{
    let ghost fv = file@;
    assert(fv.layers[layer_index as int] == file.layers[layer_index as int]@);
    let tileset_index = match file.layers[layer_index].layer_type {
        LayerType::Tilemap { tileset_index } => tileset_index,
        _ => return Err(RenderError::MissingTileset { layer: layer_index }),
    };
    let mut ti: usize = 0;
    while ti < file.tilesets.len() && file.tilesets[ti].id != tileset_index
        invariant
            ti <= file.tilesets.len(),
            fv == file@,
            first_tileset(fv.tilesets, tileset_index, 0) == first_tileset(fv.tilesets, tileset_index, ti as int),
        decreases file.tilesets.len() - ti,
    {
        assert(fv.tilesets[ti as int] == file.tilesets[ti as int]@);
        ti = ti + 1;
    }
    if ti == file.tilesets.len() {
        return Err(RenderError::MissingTileset { layer: layer_index });
    }
    let ts = &file.tilesets[ti];
    assert(fv.tilesets[ti as int] == ts@);
    let strip = match &ts.pixels {
        Some(p) => p,
        None => return Err(RenderError::Unsupported("external tileset")),
    };
    let bpp = file.header.color_depth.bytes_per_pixel();
    let tw = ts.tile_width as usize;
    let th = ts.tile_height as usize;
    proof {
        lemma_u16_product(tm.width, ts.tile_width);
        lemma_u16_product(tm.height, ts.tile_height);
    }
    let w64 = tm.width as u64 * ts.tile_width as u64;
    let h64 = tm.height as u64 * ts.tile_height as u64;
    if w64 > MAX_CANVAS_DIM as u64 || h64 > MAX_CANVAS_DIM as u64 {
        return Err(RenderError::LimitExceeded("materialized tilemap dimensions"));
    }
    assert(w64 * h64 <= 65535 * 65535) by (nonlinear_arith)
        requires
            w64 <= 65535,
            h64 <= 65535,
    ;
    assert(w64 * h64 * bpp <= 65535 * 65535 * 4) by (nonlinear_arith)
        requires
            w64 * h64 <= 65535 * 65535,
            bpp <= 4,
    ;
    if w64 * h64 * bpp as u64 > MAX_IMAGE_BYTES as u64 {
        return Err(RenderError::LimitExceeded("materialized tilemap size"));
    }
    let fill = match file.header.color_depth {
        ColorDepth::Indexed => file.header.transparent_index,
        _ => 0,
    };
    let w = w64 as usize;
    let h = h64 as usize;
    assert(w * h <= MAX_IMAGE_BYTES) by (nonlinear_arith)
        requires
            w * h * bpp <= MAX_IMAGE_BYTES,
            bpp >= 1,
    ;
    let gw = tm.width as usize;
    let zero_empty = ts.zero_is_empty();
    let ghost grid_w = tm.width as int;
    let ghost tiles = tm.tiles@;
    let ghost tsv = ts@;
    let ghost sv = strip@;
    let strip_len = strip.len();
    let mut out: Vec<u8> = Vec::new();
    let mut py: usize = 0;
    while py < h
        invariant
            py <= h,
            w * h * bpp <= MAX_IMAGE_BYTES,
            w == tm.width * tw,
            h == tm.height * th,
            tw == tsv.tile_width,
            th == tsv.tile_height,
            gw == grid_w,
            tiles == tm.tiles@,
            tsv == ts@,
            sv == strip@,
            bpp == file.header.color_depth.bpp_bytes(),
            1 <= bpp <= 4,
            zero_empty == tsv.zero_empty(),
            tsv.pixels == Some(sv),
            sv.len() >= tsv.num_tiles * th * tw * bpp,
            sv.len() == strip_len,
            fill == fill_byte(file.header),
            grid_w == tm.width,
            out.len() == py * w * bpp,
            forall|k: int|
                0 <= k < out.len() ==> out@[k] == mat_byte(
                    grid_w,
                    tiles,
                    tsv,
                    sv,
                    bpp as int,
                    fill,
                    w as int,
                    k,
                ),
        decreases h - py,
    {
        let mut px: usize = 0;
        assert(th > 0) by (nonlinear_arith)
            requires
                h == tm.height * th,
                py < h,
        ;
        while px < w
            invariant
                px <= w,
                py < h,
                th > 0,
                w * h * bpp <= MAX_IMAGE_BYTES,
                w == tm.width * tw,
                h == tm.height * th,
                tw == tsv.tile_width,
                th == tsv.tile_height,
                gw == grid_w,
                tiles == tm.tiles@,
                tsv == ts@,
                sv == strip@,
                bpp == file.header.color_depth.bpp_bytes(),
                1 <= bpp <= 4,
                zero_empty == tsv.zero_empty(),
                tsv.pixels == Some(sv),
                sv.len() >= tsv.num_tiles * th * tw * bpp,
                sv.len() == strip_len,
            sv.len() == strip_len,
                fill == fill_byte(file.header),
                grid_w == tm.width,
                out.len() == (py * w + px) * bpp,
                forall|k: int|
                    0 <= k < out.len() ==> out@[k] == mat_byte(
                        grid_w,
                        tiles,
                        tsv,
                        sv,
                        bpp as int,
                        fill,
                        w as int,
                        k,
                    ),
            decreases w - px,
        {
            assert(tw > 0) by (nonlinear_arith)
                requires
                    w == tm.width * tw,
                    px < w,
            ;
            proof {
                lemma_mixed_radix(py as int, h as int, w as int, px as int);
                lemma_mixed_radix((py * w + px) as int, (w * h) as int, bpp as int, 0);
                lemma_split(py as int, w as int, px as int);
                lemma_split(py as int / th as int, th as int, py as int % th as int);
                lemma_fundamental_div_mod(py as int, th as int);
                lemma_fundamental_div_mod(px as int, tw as int);
                assert(py / th < tm.height) by (nonlinear_arith)
                    requires
                        py < h,
                        h == tm.height * th,
                        th > 0,
                ;
                assert(px / tw < tm.width) by (nonlinear_arith)
                    requires
                        px < w,
                        w == tm.width * tw,
                        tw > 0,
                ;
                lemma_mixed_radix((py / th) as int, tm.height as int, gw as int, (px / tw) as int);
                assert(tm.height * gw <= w * h) by (nonlinear_arith)
                    requires
                        w == tm.width * tw,
                        h == tm.height * th,
                        gw == tm.width,
                        tw > 0,
                        th > 0,
                ;
            }
            let cell = (py / th) * gw + px / tw;
            let src = tile_source(&tm.tiles, ts, strip, bpp, fill, gw, cell, px, py);
            let mut c: usize = 0;
            while c < bpp
                invariant
                    c <= bpp,
                    px < w,
                    py < h,
                    th > 0,
                    tw > 0,
                    w * h * bpp <= MAX_IMAGE_BYTES,
                    w == tm.width * tw,
                    h == tm.height * th,
                    tw == tsv.tile_width,
                    th == tsv.tile_height,
                    gw == grid_w,
                    tiles == tm.tiles@,
                    tsv == ts@,
                    sv == strip@,
                    sv.len() == strip_len,
                    bpp == file.header.color_depth.bpp_bytes(),
                    1 <= bpp <= 4,
                    zero_empty == tsv.zero_empty(),
                    fill == fill_byte(file.header),
                    (py * w + px) * bpp + bpp <= w * h * bpp,
                    cell == (py / th) * grid_w + px / tw,
                    (py * w + px) % (w as int) == px,
                    (py * w + px) / (w as int) == py,
                    match src {
                        Some(base) => base + bpp <= sv.len() && forall|j: int|
                            0 <= j < bpp ==> tile_byte(grid_w, tiles, tsv, sv, bpp as int, fill, px as int, py as int, j)
                                == sv[base + j],
                        None => forall|j: int|
                            0 <= j < bpp ==> tile_byte(grid_w, tiles, tsv, sv, bpp as int, fill, px as int, py as int, j)
                                == fill,
                    },
                    out.len() == (py * w + px) * bpp + c,
                    forall|k: int|
                        0 <= k < out.len() ==> out@[k] == mat_byte(
                            grid_w,
                            tiles,
                            tsv,
                            sv,
                            bpp as int,
                            fill,
                            w as int,
                            k,
                        ),
                decreases bpp - c,
            {
                let b = match src {
                    Some(base) => strip[base + c],
                    None => fill,
                };
                proof {
                    lemma_split((py * w + px) as int, bpp as int, c as int);
                }
                out.push(b);
                c = c + 1;
            }
            px = px + 1;
        }
        assert((py * w + w) * bpp == (py + 1) * w * bpp) by (nonlinear_arith);
        py = py + 1;
    }
    assert(h * w * bpp == w * h * bpp) by (nonlinear_arith);
    assert(out@ =~= Seq::new(
        (w * h * bpp) as nat,
        |k: int| mat_byte(grid_w, tiles, tsv, sv, bpp as int, fill, w as int, k),
    ));
    Ok(CelImage { width: w as u16, height: h as u16, pixels: out })
}


/// The image a cel content of `layer` draws in frame `frame`, following
/// links (each link costs one step of `fuel`; running out means a broken
/// chain): `None` for a link to a frame without a cel on that layer.
pub open spec fn resolve_content(f: AseFileV, frame: int, layer: usize, content: CelContentV, fuel: nat) -> Result<
    Option<ImageV>,
    RenderError,
>
    decreases fuel,
{
    if fuel == 0 {
        Err(RenderError::BrokenLink { frame: frame as usize, layer })
    } else {
        match content {
            CelContentV::Image { width, height, pixels } => Ok(Some((width, height, pixels))),
            CelContentV::Tilemap { width, height, tiles } => match materialize(f, layer as int, width, height, tiles) {
                Ok(img) => Ok(Some(img)),
                Err(e) => Err(e),
            },
            CelContentV::Linked(t) => if t >= f.frames.len() {
                Err(RenderError::BrokenLink { frame: frame as usize, layer })
            } else {
                match first_cel(f.frames[t as int].cels, layer, 0) {
                    None => Ok(None),
                    Some(ci) => resolve_content(f, frame, layer, f.frames[t as int].cels[ci].content, (fuel - 1) as nat),
                }
            },
        }
    }
}

/// The drawable pixels of a cel: borrowed from the document, or
/// materialized from a tilemap.
enum Pixels<'a> {
    Borrowed(&'a CelImage),
    Owned(CelImage),
}

impl<'a> Pixels<'a> {
    spec fn image(&self) -> ImageV {
        match self {
            Pixels::Borrowed(img) => (img.width, img.height, img.pixels@),
            Pixels::Owned(img) => (img.width, img.height, img.pixels@),
        }
    }

    fn get(&self) -> (r: &CelImage)
        ensures
            (r.width, r.height, r.pixels@) == self.image(),
    {
        match self {
            Pixels::Borrowed(img) => img,
            Pixels::Owned(img) => img,
        }
    }
}

pub open spec fn cels_view(cels: Seq<Cel>) -> Seq<CelV> {
    cels.map_values(|c: Cel| c@)
}

/// Index of the first cel of `layer` in `cels`.
fn find_cel(cels: &Vec<Cel>, layer: usize) -> (r: Option<usize>)
    ensures
        match r {
            Some(i) => first_cel(cels_view(cels@), layer, 0) == Some(i as int),
            None => first_cel(cels_view(cels@), layer, 0) is None,
        },
        r matches Some(i) ==> i < cels.len() && cels[i as int].layer_index == layer,
{
    let ghost cv = cels_view(cels@);
    let mut i: usize = 0;
    while i < cels.len()
        invariant
            i <= cels.len(),
            cv == cels_view(cels@),
            first_cel(cv, layer, 0) == first_cel(cv, layer, i as int),
        decreases cels.len() - i,
    {
        assert(cv[i as int] == cels[i as int]@);
        if cels[i].layer_index == layer {
            return Some(i);
        }
        i = i + 1;
    }
    None
}

/// Resolves a cel to drawable pixels: follows linked cels to their content
/// (the link keeps its own position and opacity), materializes tilemaps.
/// `None` for a link to a frame without a cel on that layer.
fn resolve_pixels<'a>(file: &'a AseFile, frame_index: usize, cel: &'a Cel) -> (r: Result<
    Option<Pixels<'a>>,
    RenderError,
>)
    requires
        cel.layer_index < file.layers.len(),
        tilesets_ready(file@),
    ensures
        match resolve_content(file@, frame_index as int, cel.layer_index, cel@.content, (frame_index + 1) as nat) {
            Ok(Some(img)) => r matches Ok(Some(p)) && p.image() == img,
            Ok(None) => r matches Ok(None),
            Err(e) => r matches Err(e2) && e2 == e,
        },
{
    let ghost fv = file@;
    let ghost goal = resolve_content(fv, frame_index as int, cel.layer_index, cel@.content, (frame_index + 1) as nat);
    let layer = cel.layer_index;
    let mut content = &cel.content;
    let mut fuel = frame_index;
    loop
        invariant
            fv == file@,
            layer == cel.layer_index,
            layer < file.layers.len(),
            tilesets_ready(fv),
            goal == resolve_content(fv, frame_index as int, layer, content@, (fuel + 1) as nat),
            goal == resolve_content(fv, frame_index as int, cel.layer_index, cel@.content, (frame_index + 1) as nat),
        decreases fuel,
    {
        match content {
            CelContent::Image(img) => return Ok(Some(Pixels::Borrowed(img))),
            CelContent::Tilemap(tm) => {
                return match materialize_tilemap(file, layer, tm) {
                    Ok(img) => Ok(Some(Pixels::Owned(img))),
                    Err(e) => Err(e),
                };
            },
            CelContent::Linked(target) => {
                let ghost old = content@;
                assert(old == CelContentV::Linked(*target));
                let t = *target as usize;
                if t >= file.frames.len() {
                    return Err(RenderError::BrokenLink { frame: frame_index, layer });
                }
                let frame = &file.frames[t];
                assert(fv.frames[t as int] == frame@);
                assert(fv.frames[t as int].cels =~= cels_view(frame.cels@));
                match find_cel(&frame.cels, layer) {
                    None => return Ok(None),
                    Some(ci) => {
                        assert(fv.frames[t as int].cels[ci as int] == frame.cels[ci as int]@);
                        assert(first_cel(fv.frames[t as int].cels, layer, 0) == Some(ci as int));
                        assert(goal == resolve_content(fv, frame_index as int, layer, fv.frames[t as int].cels[ci as int].content, fuel as nat));
                        content = &frame.cels[ci].content;
                    },
                }
            },
        }
        if fuel == 0 {
            return Err(RenderError::BrokenLink { frame: frame_index, layer });
        }
        fuel = fuel - 1;
    }
}


/// Blend mode and opacity a cel draws with: background layers ignore both
/// the mode and the opacities.
pub open spec fn cel_blend(layer: LayerV, cel: CelV) -> (BlendMode, int) {
    if layer.background() {
        (BlendMode::Normal, 255)
    } else {
        (layer.blend_mode, mul8(layer.opacity as int, cel.opacity as int))
    }
}

/// Canvas byte `k` (canvas `w` pixels wide) after drawing `img` at the
/// cel's position onto `buf`: canvas pixels the image covers take the blend
/// of the image pixel over them, unless that pixel is transparent by
/// definition; all others keep their bytes.
pub open spec fn drawn_byte(
    h: Header,
    palette: Seq<[u8; 4]>,
    layer: LayerV,
    cel: CelV,
    img: ImageV,
    buf: Seq<u8>,
    w: int,
    fl: FloatBlender,
    k: int,
) -> u8 {
    let p = k / 4;
    let row = p / w - cel.y;
    let col = p % w - cel.x;
    if 0 <= row < img.1 && 0 <= col < img.0 {
        let bpp = h.color_depth.bpp_bytes();
        let at = (row * img.0 + col) * bpp;
        match px_rgba(h.color_depth, palette, h.transparent_index, layer.background(), img.2.subrange(at, at + bpp)) {
            Some(src) => blend_px(
                cel_blend(layer, cel).0,
                buf.subrange(4 * p, 4 * p + 4),
                src,
                cel_blend(layer, cel).1,
                fl,
            )[k % 4],
            None => buf[k],
        }
    } else {
        buf[k]
    }
}

/// `buf` after drawing `cel` of frame `frame` with `palette`, or why the cel
/// cannot be drawn.
pub open spec fn draw_cel_spec(
    f: AseFileV,
    frame: int,
    palette: Seq<[u8; 4]>,
    cel: CelV,
    buf: Seq<u8>,
    w: int,
    fl: FloatBlender,
) -> Result<Seq<u8>, RenderError> {
    match resolve_content(f, frame, cel.layer_index, cel.content, (frame + 1) as nat) {
        Err(e) => Err(e),
        Ok(None) => Ok(buf),
        Ok(Some(img)) => Ok(
            Seq::new(
                buf.len(),
                |k: int| drawn_byte(f.header, palette, f.layers[cel.layer_index as int], cel, img, buf, w, fl, k),
            ),
        ),
    }
}

/// A cel on a layer that is not a background layer draws at the product of
/// the layer's and the cel's opacities, `round(layer * cel / 255)`: drawn
/// onto a fully transparent canvas pixel, an opaque pixel of an RGBA cel
/// image keeps its color and takes that product as its alpha (a cel at
/// opacity 128 on an opaque layer gives alpha 128).
pub proof fn lemma_cel_opacity_scales_layer_opacity(
    f: AseFileV,
    frame: int,
    palette: Seq<[u8; 4]>,
    cel: CelV,
    buf: Seq<u8>,
    w: int,
    fl: FloatBlender,
    k: int,
)
    requires
        0 <= frame,
        cel.layer_index < f.layers.len(),
        (f.layers[cel.layer_index as int].flags / 8) % 2 == 0,
        f.header.color_depth == ColorDepth::Rgba,
        cel.content is Image,
        cel.content->Image_pixels.len() >= cel.content->Image_width * cel.content->Image_height * 4,
        0 < w,
        buf.len() % 4 == 0,
        0 <= k < buf.len(),
        0 <= (k / 4) / w - cel.y < cel.content->Image_height,
        0 <= (k / 4) % w - cel.x < cel.content->Image_width,
        cel.content->Image_pixels[(((k / 4) / w - cel.y) * cel.content->Image_width + (k / 4) % w - cel.x) * 4 + 3]
            == 255,
        buf[(k / 4) * 4 + 3] == 0,
    ensures
        draw_cel_spec(f, frame, palette, cel, buf, w, fl) matches Ok(b) && b.len() == buf.len() && b[k] == (if k
            % 4 == 3 {
            (2 * (f.layers[cel.layer_index as int].opacity * cel.opacity) + 255) / 510
        } else {
            cel.content->Image_pixels[(((k / 4) / w - cel.y) * cel.content->Image_width + (k / 4) % w - cel.x) * 4
                + k % 4] as int
        }),
{
    let layer = f.layers[cel.layer_index as int];
    let iw = cel.content->Image_width as int;
    let ih = cel.content->Image_height as int;
    let px = cel.content->Image_pixels;
    let p = k / 4;
    let row = p / w - cel.y;
    let col = p % w - cel.x;
    let at = (row * iw + col) * 4;
    assert(resolve_content(f, frame, cel.layer_index, cel.content, (frame + 1) as nat) == Ok::<
        Option<ImageV>,
        RenderError,
    >(Some((cel.content->Image_width, cel.content->Image_height, px))));
    assert(0 <= row * iw + col < iw * ih) by (nonlinear_arith)
        requires
            0 <= row < ih,
            0 <= col < iw,
    {
        assert(row * iw + col < (row + 1) * iw) by (nonlinear_arith)
            requires
                col < iw,
        ;
        assert((row + 1) * iw <= ih * iw) by (nonlinear_arith)
            requires
                row + 1 <= ih,
                0 <= iw,
        ;
    }
    assert(at + 4 <= px.len());
    assert(!layer.background());
    let op = mul8(layer.opacity as int, cel.opacity as int);
    lemma_mul8_rounds(layer.opacity as int, cel.opacity as int);
    lemma_mul8_rounds(255, op);
    assert(cel_blend(layer, cel) == (layer.blend_mode, op));
    let back = buf.subrange(4 * p, 4 * p + 4);
    assert(4 * p + 4 <= buf.len());
    assert(back[3] == 0);
    let src = seq![px[at], px[at + 1], px[at + 2], px[at + 3]];
    assert(px.subrange(at, at + 4) =~= src);
    assert(blend_px(layer.blend_mode, back, src, op, fl) == seq![src[0], src[1], src[2], mul8(255, op) as u8]);
}

/// A cel content holds all the pixels its size calls for.
pub open spec fn content_ok(c: CelContentV, bpp: int) -> bool {
    match c {
        CelContentV::Image { width, height, pixels } => pixels.len() >= width * height * bpp,
        _ => true,
    }
}

proof fn lemma_resolved_image_ok(f: AseFileV, frame: int, layer: usize, content: CelContentV, fuel: nat)
    requires
        content_ok(content, f.header.color_depth.bpp_bytes()),
        forall|t: int, c: int|
            0 <= t < f.frames.len() && 0 <= c < f.frames[t].cels.len() ==> content_ok(
                #[trigger] f.frames[t].cels[c].content,
                f.header.color_depth.bpp_bytes(),
            ),
        0 <= layer < f.layers.len(),
    ensures
        resolve_content(f, frame, layer, content, fuel) matches Ok(Some(img)) ==> img.2.len() >= img.0 * img.1
            * f.header.color_depth.bpp_bytes(),
    decreases fuel,
{
    if fuel > 0 {
        match content {
            CelContentV::Linked(t) => {
                if t < f.frames.len() {
                    lemma_first_cel_in_range(f.frames[t as int].cels, layer, 0);
                    match first_cel(f.frames[t as int].cels, layer, 0) {
                        Some(ci) => lemma_resolved_image_ok(
                            f,
                            frame,
                            layer,
                            f.frames[t as int].cels[ci].content,
                            (fuel - 1) as nat,
                        ),
                        None => {},
                    }
                }
            },
            CelContentV::Tilemap { width, height, tiles } => {
                if let Ok(img) = materialize(f, layer as int, width, height, tiles) {
                    let ts = f.tilesets[first_tileset(f.tilesets, f.layers[layer as int].layer_type->tileset_index, 0)->0];
                    let w = width * ts.tile_width;
                    let h = height * ts.tile_height;
                    assert(img.0 == w && img.1 == h);
                }
            },
            _ => {},
        }
    }
}

proof fn lemma_first_cel_in_range(cels: Seq<CelV>, layer: usize, i: int)
    ensures
        first_cel(cels, layer, i) matches Some(c) ==> 0 <= c < cels.len() && cels[c].layer_index == layer,
    decreases cels.len() - i,
{
    if 0 <= i < cels.len() && cels[i].layer_index != layer {
        lemma_first_cel_in_range(cels, layer, i + 1);
    }
}

proof fn lemma_first_tileset_in_range(ts: Seq<TilesetV>, id: u32, i: int)
    ensures
        first_tileset(ts, id, i) matches Some(c) ==> 0 <= c < ts.len() && ts[c].id == id,
    decreases ts.len() - i,
{
    if 0 <= i < ts.len() && ts[i].id != id {
        lemma_first_tileset_in_range(ts, id, i + 1);
    }
}


/// Overwrites the four bytes of the pixel starting at `di`.
fn put_px(buf: &mut Vec<u8>, di: usize, px: Rgba)
    requires
        di + 4 <= old(buf).len(),
    ensures
        final(buf)@.len() == old(buf)@.len(),
        forall|k: int|
            0 <= k < old(buf)@.len() ==> #[trigger] final(buf)@[k] == if di <= k < di + 4 {
                px@[k - di]
            } else {
                old(buf)@[k]
            },
{
    buf.set(di, px[0]);
    buf.set(di + 1, px[1]);
    buf.set(di + 2, px[2]);
    buf.set(di + 3, px[3]);
}

/// Canvas pixel `p` of a canvas `w` wide sits at row `p / w`, column
/// `p % w`, and no other pixel does.
proof fn lemma_pixel_at(p: int, w: int, dx: int, dy: int)
    requires
        0 < w,
        0 <= dx < w,
        0 <= p,
    ensures
        (p / w == dy && p % w == dx) <==> p == dy * w + dx,
{
    lemma_fundamental_div_mod(p, w);
    if p == dy * w + dx {
        lemma_split(dy, w, dx);
    }
    assert(w * (p / w) == (p / w) * w) by (nonlinear_arith);
}

/// Row, relative to a cel at height `y`, of the canvas pixel holding byte
/// `k` of a canvas `w` pixels wide.
pub open spec fn rel_row(k: int, w: int, y: int) -> int {
    (k / 4) / w - y
}

/// Column, relative to a cel at `x`, of the canvas pixel holding byte `k`.
pub open spec fn rel_col(k: int, w: int, x: int) -> int {
    (k / 4) % w - x
}

/// Whether byte `k` of the canvas lies under an image `iw` by `ih` drawn at
/// (`x`, `y`).
pub open spec fn under(k: int, w: int, x: int, y: int, iw: int, ih: int) -> bool {
    0 <= rel_row(k, w, y) < ih && 0 <= rel_col(k, w, x) < iw
}

/// Every cel of the document names a layer and holds its pixels; every
/// tileset strip holds its tiles; layers' parents precede them; a document
/// with frames has a palette; and the canvas fits in memory.
pub open spec fn render_ready(f: AseFileV) -> bool {
    &&& (f.frames.len() > 0 ==> f.palettes.len() > 0)
    &&& parents_precede(f.layers)
    &&& tilesets_ready(f)
    &&& f.header.width * f.header.height * 4 <= usize::MAX
    &&& forall|t: int, c: int|
        0 <= t < f.frames.len() && 0 <= c < f.frames[t].cels.len() ==> cel_ready(f, #[trigger] f.frames[t].cels[c])
}

/// A cel names a layer of the document and holds its pixels.
pub open spec fn cel_ready(f: AseFileV, c: CelV) -> bool {
    &&& c.layer_index < f.layers.len()
    &&& content_ok(c.content, f.header.color_depth.bpp_bytes())
}

proof fn lemma_row_below(p: int, w: int, h: int)
    requires
        0 < w,
        0 <= p < w * h,
    ensures
        0 <= p / w < h,
{
    lemma_fundamental_div_mod(p, w);
    assert(0 <= p / w < h) by (nonlinear_arith)
        requires
            0 < w,
            0 <= p < w * h,
            p == w * (p / w) + p % w,
            0 <= p % w < w,
    ;
}


/// `buf` is `orig` with the pixels of `img` drawn for `cel` up to, not
/// including, image pixel (`row`, `col`) in row-major order.
#[verifier::opaque]
pub open spec fn drawn_upto(
    buf: Seq<u8>,
    orig: Seq<u8>,
    f: AseFileV,
    palette: Seq<[u8; 4]>,
    cel: CelV,
    img: ImageV,
    w: int,
    fl: FloatBlender,
    row: int,
    col: int,
) -> bool {
    &&& buf.len() == orig.len()
    &&& forall|k: int|
        0 <= k < orig.len() ==> #[trigger] buf[k] == if under(k, w, cel.x as int, cel.y as int, img.0 as int, img.1 as int)
            && (rel_row(k, w, cel.y as int) < row || (rel_row(k, w, cel.y as int) == row && rel_col(
            k,
            w,
            cel.x as int,
        ) < col)) {
            drawn_byte(f.header, palette, f.layers[cel.layer_index as int], cel, img, orig, w, fl, k)
        } else {
            orig[k]
        }
}

/// The pixel the drawing loop stands at is still untouched.
proof fn lemma_current_untouched(
    buf: Seq<u8>,
    orig: Seq<u8>,
    f: AseFileV,
    palette: Seq<[u8; 4]>,
    cel: CelV,
    img: ImageV,
    w: int,
    h: int,
    fl: FloatBlender,
    row: int,
    col: int,
)
    requires
        drawn_upto(buf, orig, f, palette, cel, img, w, fl, row, col),
        0 <= cel.x + col < w,
        0 <= cel.y + row < h,
        orig.len() == w * h * 4,
    ensures
        ({
            let p0 = (cel.y + row) * w + cel.x + col;
            &&& 0 <= 4 * p0
            &&& 4 * p0 + 4 <= orig.len()
            &&& buf.len() == orig.len()
            &&& buf.subrange(4 * p0, 4 * p0 + 4) == orig.subrange(4 * p0, 4 * p0 + 4)
        }),
{
    reveal(drawn_upto);
    let dx = cel.x + col;
    let dy = cel.y + row;
    let p0 = dy * w + dx;
    lemma_mixed_radix(dy, h, w, dx);
    lemma_mixed_radix(p0, h * w, 4, 0);
    assert(h * w * 4 == w * h * 4) by (nonlinear_arith);
    assert forall|k: int| 4 * p0 <= k < 4 * p0 + 4 implies #[trigger] buf[k] == orig[k] by {
        lemma_split(p0, 4, k - 4 * p0);
        lemma_pixel_at(p0, w, dx, dy);
    }
    assert(buf.subrange(4 * p0, 4 * p0 + 4) =~= orig.subrange(4 * p0, 4 * p0 + 4));
}

/// What drawing puts in the bytes of the canvas pixel under image pixel
/// (`row`, `col`).
proof fn lemma_drawn_at_pixel(
    f: AseFileV,
    palette: Seq<[u8; 4]>,
    cel: CelV,
    img: ImageV,
    orig: Seq<u8>,
    w: int,
    h: int,
    fl: FloatBlender,
    row: int,
    col: int,
)
    requires
        0 <= row < img.1,
        0 <= col < img.0,
        0 <= cel.x + col < w,
        0 <= cel.y + row < h,
    ensures
        ({
            let p0 = (cel.y + row) * w + cel.x + col;
            let layer = f.layers[cel.layer_index as int];
            let bpp = f.header.color_depth.bpp_bytes();
            let at = (row * img.0 + col) * bpp;
            forall|k: int|
                4 * p0 <= k < 4 * p0 + 4 ==> #[trigger] drawn_byte(f.header, palette, layer, cel, img, orig, w, fl, k)
                    == match px_rgba(
                    f.header.color_depth,
                    palette,
                    f.header.transparent_index,
                    layer.background(),
                    img.2.subrange(at, at + bpp),
                ) {
                    Some(src) => blend_px(
                        cel_blend(layer, cel).0,
                        orig.subrange(4 * p0, 4 * p0 + 4),
                        src,
                        cel_blend(layer, cel).1,
                        fl,
                    )[k - 4 * p0],
                    None => orig[k],
                }
        }),
{
    let dx = cel.x + col;
    let dy = cel.y + row;
    let p0 = dy * w + dx;
    let layer = f.layers[cel.layer_index as int];
    assert forall|k: int| 4 * p0 <= k < 4 * p0 + 4 implies #[trigger] drawn_byte(f.header, palette, layer, cel, img, orig, w, fl, k)
        == match px_rgba(
        f.header.color_depth,
        palette,
        f.header.transparent_index,
        layer.background(),
        img.2.subrange((row * img.0 + col) * f.header.color_depth.bpp_bytes(), (row * img.0 + col) * f.header.color_depth.bpp_bytes() + f.header.color_depth.bpp_bytes()),
    ) {
        Some(src) => blend_px(
            cel_blend(layer, cel).0,
            orig.subrange(4 * p0, 4 * p0 + 4),
            src,
            cel_blend(layer, cel).1,
            fl,
        )[k - 4 * p0],
        None => orig[k],
    } by {
        lemma_split(p0, 4, k - 4 * p0);
        lemma_split(dy, w, dx);
    }
}

/// Drawing moves past an image pixel: its canvas pixel, if any, takes `out`
/// when the image pixel has a color, and keeps its bytes otherwise.
proof fn lemma_step(
    buf: Seq<u8>,
    after: Seq<u8>,
    orig: Seq<u8>,
    f: AseFileV,
    palette: Seq<[u8; 4]>,
    cel: CelV,
    img: ImageV,
    w: int,
    h: int,
    fl: FloatBlender,
    row: int,
    col: int,
    out: Option<Seq<u8>>,
)
    requires
        drawn_upto(buf, orig, f, palette, cel, img, w, fl, row, col),
        0 <= row < img.1,
        0 <= col < img.0,
        0 <= cel.y + row < h,
        orig.len() == w * h * 4,
        after.len() == buf.len(),
        0 <= cel.x + col < w ==> {
            let p0 = (cel.y + row) * w + cel.x + col;
            &&& forall|k: int|
                0 <= k < buf.len() ==> #[trigger] after[k] == match out {
                    Some(o) => if 4 * p0 <= k < 4 * p0 + 4 {
                        o[k - 4 * p0]
                    } else {
                        buf[k]
                    },
                    None => buf[k],
                }
            &&& forall|k: int|
                4 * p0 <= k < 4 * p0 + 4 ==> #[trigger] drawn_byte(
                    f.header,
                    palette,
                    f.layers[cel.layer_index as int],
                    cel,
                    img,
                    orig,
                    w,
                    fl,
                    k,
                ) == match out {
                    Some(o) => o[k - 4 * p0],
                    None => orig[k],
                }
        },
        !(0 <= cel.x + col < w) ==> after == buf,
    ensures
        drawn_upto(after, orig, f, palette, cel, img, w, fl, row, col + 1),
{
    reveal(drawn_upto);
    let dx = cel.x + col;
    let dy = cel.y + row;
    let p0 = dy * w + dx;
    let x = cel.x as int;
    let y = cel.y as int;
    assert forall|k: int| 0 <= k < orig.len() implies #[trigger] after[k] == if under(
        k,
        w,
        x,
        y,
        img.0 as int,
        img.1 as int,
    ) && (rel_row(k, w, y) < row || (rel_row(k, w, y) == row && rel_col(k, w, x) < col + 1)) {
        drawn_byte(f.header, palette, f.layers[cel.layer_index as int], cel, img, orig, w, fl, k)
    } else {
        orig[k]
    } by {
        assert(w > 0) by (nonlinear_arith)
            requires
                0 <= k < orig.len(),
                orig.len() == w * h * 4,
                0 <= y + row < h,
        ;
        lemma_fundamental_div_mod(k / 4, w);
        if 0 <= dx < w {
            lemma_pixel_at(k / 4, w, dx, dy);
            lemma_fundamental_div_mod(k, 4);
            if 4 * p0 <= k < 4 * p0 + 4 {
                lemma_split(p0, 4, k - 4 * p0);
            }
        }
    }
}

/// Drawing moves past a row of the image: after its last pixel, or at once
/// when the row lies off the canvas.
proof fn lemma_row_done(
    buf: Seq<u8>,
    orig: Seq<u8>,
    f: AseFileV,
    palette: Seq<[u8; 4]>,
    cel: CelV,
    img: ImageV,
    w: int,
    h: int,
    fl: FloatBlender,
    row: int,
    off_canvas: bool,
)
    requires
        off_canvas ==> drawn_upto(buf, orig, f, palette, cel, img, w, fl, row, 0),
        !off_canvas ==> drawn_upto(buf, orig, f, palette, cel, img, w, fl, row, img.0 as int),
        off_canvas ==> !(0 <= cel.y + row < h),
        orig.len() == w * h * 4,
        0 <= w,
        0 <= h,
    ensures
        drawn_upto(buf, orig, f, palette, cel, img, w, fl, row + 1, 0),
{
    reveal(drawn_upto);
    assert forall|k: int| 0 <= k < orig.len() implies #[trigger] buf[k] == if under(
        k,
        w,
        cel.x as int,
        cel.y as int,
        img.0 as int,
        img.1 as int,
    ) && (rel_row(k, w, cel.y as int) < row + 1 || (rel_row(k, w, cel.y as int) == row + 1 && rel_col(
        k,
        w,
        cel.x as int,
    ) < 0)) {
        drawn_byte(f.header, palette, f.layers[cel.layer_index as int], cel, img, orig, w, fl, k)
    } else {
        orig[k]
    } by {
        if off_canvas {
            assert(w > 0) by (nonlinear_arith)
                requires
                    0 <= k < orig.len(),
                    orig.len() == w * h * 4,
                    0 <= w,
                    0 <= h,
            ;
            assert(k < 4 * (w * h)) by (nonlinear_arith)
                requires
                    k < orig.len(),
                    orig.len() == w * h * 4,
            ;
            lemma_row_below(k, 4, w * h);
            lemma_row_below(k / 4, w, h);
        }
    }
}

/// Draws image pixel (`row`, `col`) of a cel whose row lies on the canvas.
fn draw_px<F: Fn(BlendMode, Rgb, Rgb) -> Rgb>(
    file: &AseFile,
    palette: &Palette,
    cel: &Cel,
    img: &CelImage,
    mode: BlendMode,
    opacity: i32,
    buf: &mut Vec<u8>,
    w: usize,
    h: usize,
    row: usize,
    col: usize,
    float_rgb: &F,
    Ghost(orig): Ghost<Seq<u8>>,
)
    requires
        cel.layer_index < file.layers.len(),
        (mode, opacity as int) == cel_blend(file@.layers[cel.layer_index as int], cel@),
        0 <= opacity <= 255,
        float_ok(*float_rgb),
        row < img.height,
        col < img.width,
        0 <= cel.y + row < h,
        w <= 0xffff,
        h <= 0xffff,
        img.pixels@.len() >= img.width * img.height * file.header.color_depth.bpp_bytes(),
        orig.len() == w * h * 4,
        drawn_upto(old(buf)@, orig, file@, palette@, cel@, (img.width, img.height, img.pixels@), w as int, float_oracle(*float_rgb), row as int, col as int),
    ensures
        drawn_upto(final(buf)@, orig, file@, palette@, cel@, (img.width, img.height, img.pixels@), w as int, float_oracle(*float_rgb), row as int, col + 1),
{
    let ghost fv = file@;
    let ghost fl = float_oracle(*float_rgb);
    let ghost imgv = (img.width, img.height, img.pixels@);
    let ghost before = buf@;
    assert(file.layers[cel.layer_index as int]@ == fv.layers[cel.layer_index as int]);
    let dx = cel.x as i64 + col as i64;
    let dy = cel.y as i64 + row as i64;
    if dx < 0 || dx >= w as i64 {
        proof {
            lemma_step(before, buf@, orig, fv, palette@, cel@, imgv, w as int, h as int, fl, row as int, col as int, None);
        }
        return;
    }
    let depth = file.header.color_depth;
    let bpp = depth.bytes_per_pixel();
    let iw = img.width as usize;
    let ih = img.height as usize;
    let _plen = img.pixels.len();
    let _blen = buf.len();
    proof {
        lemma_mixed_radix(row as int, ih as int, iw as int, col as int);
        lemma_mixed_radix((row * iw + col) as int, (ih * iw) as int, bpp as int, 0);
        assert(ih * iw * bpp == iw * ih * bpp) by (nonlinear_arith);
        lemma_current_untouched(before, orig, fv, palette@, cel@, imgv, w as int, h as int, fl, row as int, col as int);
    }
    let at = (row * iw + col) * bpp;
    let background = file.layers[cel.layer_index].is_background();
    let conv = pixel_to_rgba(depth, palette, file.header.transparent_index, background, &img.pixels, at);
    let ghost p0 = dy * w + dx;
    proof {
        lemma_drawn_at_pixel(fv, palette@, cel@, imgv, orig, w as int, h as int, fl, row as int, col as int);
    }
    if let Some(src) = conv {
        let di = (dy as usize * w + dx as usize) * 4;
        let back = [buf[di], buf[di + 1], buf[di + 2], buf[di + 3]];
        assert(back@ =~= before.subrange(4 * p0, 4 * p0 + 4));
        let out = blend(mode, back, src, opacity, float_rgb);
        put_px(buf, di, out);
        proof {
            lemma_step(before, buf@, orig, fv, palette@, cel@, imgv, w as int, h as int, fl, row as int, col as int, Some(out@));
        }
    } else {
        proof {
            lemma_step(before, buf@, orig, fv, palette@, cel@, imgv, w as int, h as int, fl, row as int, col as int, None);
        }
    }
}

/// Composites one cel onto `buf`, a canvas `w` by `h` of RGBA pixels.
fn draw_cel<F: Fn(BlendMode, Rgb, Rgb) -> Rgb>(
    file: &AseFile,
    frame_index: usize,
    palette: &Palette,
    cel: &Cel,
    buf: &mut Vec<u8>,
    w: usize,
    h: usize,
    float_rgb: &F,
)
    -> (r: Result<(), RenderError>)
    requires
        render_ready(file@),
        cel.layer_index < file.layers.len(),
        content_ok(cel@.content, file.header.color_depth.bpp_bytes()),
        old(buf)@.len() == w * h * 4,
        w <= 0xffff,
        h <= 0xffff,
        float_ok(*float_rgb),
    ensures
        match draw_cel_spec(file@, frame_index as int, palette@, cel@, old(buf)@, w as int, float_oracle(*float_rgb)) {
            Ok(b) => r is Ok && final(buf)@ == b,
            Err(e) => r == Err::<(), RenderError>(e) && final(buf)@ == old(buf)@,
        },
        final(buf)@.len() == old(buf)@.len(),
{
    let ghost fv = file@;
    let ghost fl = float_oracle(*float_rgb);
    let ghost orig = buf@;
    let layer = &file.layers[cel.layer_index];
    assert(fv.layers[cel.layer_index as int] == layer@);
    proof {
        lemma_resolved_image_ok(fv, frame_index as int, cel.layer_index, cel@.content, (frame_index + 1) as nat);
    }
    let pix = match resolve_pixels(file, frame_index, cel) {
        Err(e) => return Err(e),
        Ok(None) => {
            assert(buf@ =~= orig);
            return Ok(());
        },
        Ok(Some(p)) => p,
    };
    let img = pix.get();
    let ghost imgv = pix.image();
    proof {
        lemma_mul8_rounds(layer.opacity as int, cel.opacity as int);
    }
    let (mode, opacity) = if layer.is_background() {
        (BlendMode::Normal, 255i32)
    } else {
        (layer.blend_mode, mul_un8(layer.opacity as i32, cel.opacity as i32))
    };
    let ih = img.height as usize;
    let iw = img.width as usize;
    let ghost x = cel.x as int;
    let ghost y = cel.y as int;
    proof {
        reveal(drawn_upto);
    }
    let mut row: usize = 0;
    while row < ih
        invariant
            row <= ih,
            ih == imgv.1,
            iw == imgv.0,
            imgv == (img.width, img.height, img.pixels@),
            img.pixels@.len() >= img.width * img.height * file.header.color_depth.bpp_bytes(),
            fv == file@,
            fl == float_oracle(*float_rgb),
            float_ok(*float_rgb),
            cel.layer_index < file.layers.len(),
            (mode, opacity as int) == cel_blend(fv.layers[cel.layer_index as int], cel@),
            0 <= opacity <= 255,
            x == cel.x,
            y == cel.y,
            orig.len() == w * h * 4,
            w <= 0xffff,
            h <= 0xffff,
            drawn_upto(buf@, orig, fv, palette@, cel@, imgv, w as int, fl, row as int, 0),
        decreases ih - row,
    {
        let dy = cel.y as i64 + row as i64;
        if dy >= 0 && dy < h as i64 {
            let mut col: usize = 0;
            while col < iw
                invariant
                    col <= iw,
                    row < ih,
                    0 <= y + row < h,
                    ih == imgv.1,
                    iw == imgv.0,
                    imgv == (img.width, img.height, img.pixels@),
                    img.pixels@.len() >= img.width * img.height * file.header.color_depth.bpp_bytes(),
                    fv == file@,
                    fl == float_oracle(*float_rgb),
                    float_ok(*float_rgb),
                    cel.layer_index < file.layers.len(),
                    (mode, opacity as int) == cel_blend(fv.layers[cel.layer_index as int], cel@),
                    0 <= opacity <= 255,
                    x == cel.x,
                    y == cel.y,
                    orig.len() == w * h * 4,
                    w <= 0xffff,
                    h <= 0xffff,
                    drawn_upto(buf@, orig, fv, palette@, cel@, imgv, w as int, fl, row as int, col as int),
                decreases iw - col,
            {
                draw_px(file, palette, cel, img, mode, opacity, buf, w, h, row, col, float_rgb, Ghost(orig));
                col = col + 1;
            }
            proof {
                lemma_row_done(buf@, orig, fv, palette@, cel@, imgv, w as int, h as int, fl, row as int, false);
            }
        } else {
            proof {
                lemma_row_done(buf@, orig, fv, palette@, cel@, imgv, w as int, h as int, fl, row as int, true);
            }
        }
        row = row + 1;
    }
    proof {
        reveal(drawn_upto);
        assert(buf@ =~= Seq::new(
            orig.len(),
            |k: int| drawn_byte(fv.header, palette@, fv.layers[cel.layer_index as int], cel@, imgv, orig, w as int, fl, k),
        ));
    }
    Ok(())
}


/// A draw-order entry: sort key, tie-breaking z-index, and what to draw.
pub type Item = (i128, i16, usize);

/// Draw order: by key, then by z-index.
pub open spec fn item_lt(a: Item, b: Item) -> bool {
    a.0 < b.0 || (a.0 == b.0 && a.1 < b.1)
}

/// `s` with `x` inserted after every entry not greater than it.
pub open spec fn insert_item(s: Seq<Item>, x: Item) -> Seq<Item>
    decreases s.len(),
{
    if s.len() == 0 {
        seq![x]
    } else if item_lt(x, s.last()) {
        insert_item(s.drop_last(), x).push(s.last())
    } else {
        s.push(x)
    }
}

/// Stable sort of draw-order entries: entries that compare equal keep their
/// order.
pub open spec fn sort_items(s: Seq<Item>) -> Seq<Item>
    decreases s.len(),
{
    if s.len() == 0 {
        s
    } else {
        insert_item(sort_items(s.drop_last()), s.last())
    }
}

proof fn lemma_insert_at(s: Seq<Item>, x: Item, j: int)
    requires
        0 <= j <= s.len(),
        forall|i: int| j <= i < s.len() ==> item_lt(x, #[trigger] s[i]),
        j > 0 ==> !item_lt(x, s[j - 1]),
    ensures
        insert_item(s, x) == s.take(j).push(x) + s.skip(j),
    decreases s.len(),
{
    if s.len() == 0 {
        assert(s.take(j).push(x) + s.skip(j) =~= seq![x]);
    } else if j == s.len() {
        assert(s.take(j).push(x) + s.skip(j) =~= s.push(x));
    } else {
        lemma_insert_at(s.drop_last(), x, j);
        assert(s.drop_last().take(j).push(x) + s.drop_last().skip(j) + seq![s.last()] =~= s.take(j).push(x)
            + s.skip(j));
    }
}

/// Inserts `x` into draw order after every entry not greater than it.
fn insert_sorted(v: &mut Vec<Item>, x: Item)
    ensures
        final(v)@ == insert_item(old(v)@, x),
{
    let ghost s = v@;
    let mut j = v.len();
    while j > 0 && (x.0 < v[j - 1].0 || (x.0 == v[j - 1].0 && x.1 < v[j - 1].1))
        invariant
            j <= v.len(),
            v@ == s,
            forall|i: int| j <= i < s.len() ==> item_lt(x, #[trigger] s[i]),
        decreases j,
    {
        j = j - 1;
    }
    proof {
        lemma_insert_at(s, x, j as int);
    }
    v.insert(j, x);
    assert(v@ =~= s.take(j as int).push(x) + s.skip(j as int));
}

/// Stable sort of draw-order entries.
fn sort_draw_order(items: &Vec<Item>) -> (r: Vec<Item>)
    ensures
        r@ == sort_items(items@),
{
    let mut out: Vec<Item> = Vec::new();
    let mut i: usize = 0;
    while i < items.len()
        invariant
            i <= items.len(),
            out@ == sort_items(items@.take(i as int)),
        decreases items.len() - i,
    {
        assert(items@.take(i + 1).drop_last() =~= items@.take(i as int));
        insert_sorted(&mut out, items[i]);
        i = i + 1;
    }
    assert(items@.take(i as int) =~= items@);
    out
}


proof fn lemma_insert_keeps(s: Seq<Item>, x: Item, p: spec_fn(Item) -> bool)
    requires
        forall|i: int| 0 <= i < s.len() ==> p(#[trigger] s[i]),
        p(x),
    ensures
        insert_item(s, x).len() == s.len() + 1,
        forall|i: int| 0 <= i < insert_item(s, x).len() ==> p(#[trigger] insert_item(s, x)[i]),
    decreases s.len(),
{
    if s.len() > 0 && item_lt(x, s.last()) {
        lemma_insert_keeps(s.drop_last(), x, p);
        let t = insert_item(s.drop_last(), x);
        assert forall|i: int| 0 <= i < t.push(s.last()).len() implies p(#[trigger] t.push(s.last())[i]) by {
            if i < t.len() {
                assert(t.push(s.last())[i] == t[i]);
            }
        }
    }
}

/// Sorting keeps the entries: every property all of them have, the sorted
/// ones have too.
proof fn lemma_sort_keeps(s: Seq<Item>, p: spec_fn(Item) -> bool)
    requires
        forall|i: int| 0 <= i < s.len() ==> p(#[trigger] s[i]),
    ensures
        sort_items(s).len() == s.len(),
        forall|i: int| 0 <= i < sort_items(s).len() ==> p(#[trigger] sort_items(s)[i]),
    decreases s.len(),
{
    if s.len() > 0 {
        lemma_sort_keeps(s.drop_last(), p);
        lemma_insert_keeps(sort_items(s.drop_last()), s.last(), p);
    }
}

/// Whether a cel draws in pass-through mode: not on a group layer, not on
/// a reference layer, and its layer visible with all its ancestors.
pub open spec fn flat_drawn(f: AseFileV, cel: CelV) -> bool {
    let layer = f.layers[cel.layer_index as int];
    &&& !(layer.layer_type is Group)
    &&& !layer.reference()
    &&& visible_in_tree(f.layers, cel.layer_index as int)
}

/// Draw-order entries of the first `n` cels in pass-through mode: key
/// layer index plus z-index, then z-index, then the cel's position.
pub open spec fn flat_items(f: AseFileV, cels: Seq<CelV>, n: int) -> Seq<Item>
    decreases n,
{
    if n <= 0 {
        Seq::empty()
    } else {
        let prev = flat_items(f, cels, n - 1);
        let c = cels[n - 1];
        if flat_drawn(f, c) {
            prev.push(((c.layer_index + c.z_index) as i128, c.z_index, (n - 1) as usize))
        } else {
            prev
        }
    }
}

/// `buf` after drawing the cels the entries name, in order; the first
/// failure stops the drawing.
pub open spec fn draw_items(
    f: AseFileV,
    frame: int,
    palette: Seq<[u8; 4]>,
    cels: Seq<CelV>,
    items: Seq<Item>,
    buf: Seq<u8>,
    w: int,
    fl: FloatBlender,
) -> Result<Seq<u8>, RenderError>
    decreases items.len(),
{
    if items.len() == 0 {
        Ok(buf)
    } else {
        match draw_cel_spec(f, frame, palette, cels[items[0].2 as int], buf, w, fl) {
            Err(e) => Err(e),
            Ok(b) => draw_items(f, frame, palette, cels, items.drop_first(), b, w, fl),
        }
    }
}

proof fn lemma_flat_items_index(f: AseFileV, cels: Seq<CelV>, n: int)
    requires
        0 <= n <= cels.len(),
        cels.len() <= usize::MAX,
    ensures
        forall|i: int| 0 <= i < flat_items(f, cels, n).len() ==> (#[trigger] flat_items(f, cels, n)[i]).2 < n,
    decreases n,
{
    if n > 0 {
        lemma_flat_items_index(f, cels, n - 1);
        let prev = flat_items(f, cels, n - 1);
        assert forall|i: int| 0 <= i < flat_items(f, cels, n).len() implies (#[trigger] flat_items(f, cels, n)[i]).2 < n by {
            if i < prev.len() {
                assert(flat_items(f, cels, n)[i] == prev[i]);
            }
        }
    }
}

/// Pass-through compositing: every drawable cel of the frame, ordered by
/// layer index plus z-index, ties broken by z-index.
fn render_flat<F: Fn(BlendMode, Rgb, Rgb) -> Rgb>(
    file: &AseFile,
    frame_index: usize,
    palette: &Palette,
    buf: &mut Vec<u8>,
    w: usize,
    h: usize,
    float_rgb: &F,
) -> (r: Result<(), RenderError>)
    requires
        render_ready(file@),
        frame_index < file.frames.len(),
        old(buf)@.len() == w * h * 4,
        w <= 0xffff,
        h <= 0xffff,
        float_ok(*float_rgb),
    ensures
        ({
            let cels = file@.frames[frame_index as int].cels;
            match draw_items(
                file@,
                frame_index as int,
                palette@,
                cels,
                sort_items(flat_items(file@, cels, cels.len() as int)),
                old(buf)@,
                w as int,
                float_oracle(*float_rgb),
            ) {
                Ok(b) => r is Ok && final(buf)@ == b,
                Err(e) => r == Err::<(), RenderError>(e),
            }
        }),
        r is Ok ==> final(buf)@.len() == old(buf)@.len(),
{
    let ghost fv = file@;
    let ghost fl = float_oracle(*float_rgb);
    let frame = &file.frames[frame_index];
    let ghost cels = fv.frames[frame_index as int].cels;
    assert(cels =~= cels_view(frame.cels@));
    let mut items: Vec<Item> = Vec::new();
    let mut i: usize = 0;
    while i < frame.cels.len()
        invariant
            i <= frame.cels.len(),
            fv == file@,
            render_ready(fv),
            frame_index < fv.frames.len(),
            frame@ == fv.frames[frame_index as int],
            cels == fv.frames[frame_index as int].cels,
            cels =~= cels_view(frame.cels@),
            items@ == flat_items(fv, cels, i as int),
        decreases frame.cels.len() - i,
    {
        let c = &frame.cels[i];
        assert(cels[i as int] == c@);
        assert(c.layer_index < fv.layers.len());
        let layer = &file.layers[c.layer_index];
        assert(fv.layers[c.layer_index as int] == layer@);
        let is_group = match layer.layer_type {
            LayerType::Group => true,
            _ => false,
        };
        if !is_group && !layer.is_reference() && file.layer_visible_in_tree(c.layer_index) {
            items.push((c.layer_index as i128 + c.z_index as i128, c.z_index, i));
        }
        i = i + 1;
    }
    let order = sort_draw_order(&items);
    let _n = frame.cels.len();
    proof {
        assert(items@ == flat_items(fv, cels, cels.len() as int));
        lemma_flat_items_index(fv, cels, cels.len() as int);
        lemma_sort_keeps(items@, |it: Item| it.2 < cels.len());
    }
    let ghost goal = draw_items(fv, frame_index as int, palette@, cels, order@, buf@, w as int, fl);
    assert(order@.skip(0) =~= order@);
    let mut j: usize = 0;
    while j < order.len()
        invariant
            j <= order.len(),
            fv == file@,
            fl == float_oracle(*float_rgb),
            float_ok(*float_rgb),
            render_ready(fv),
            frame_index < fv.frames.len(),
            frame@ == fv.frames[frame_index as int],
            cels == fv.frames[frame_index as int].cels,
            cels =~= cels_view(frame.cels@),
            forall|k: int| 0 <= k < order@.len() ==> (#[trigger] order@[k]).2 < cels.len(),
            buf@.len() == w * h * 4,
            w <= 0xffff,
            h <= 0xffff,
            goal == draw_items(fv, frame_index as int, palette@, cels, order@.skip(j as int), buf@, w as int, fl),
            goal == draw_items(
                fv,
                frame_index as int,
                palette@,
                cels,
                sort_items(flat_items(fv, cels, cels.len() as int)),
                old(buf)@,
                w as int,
                fl,
            ),
        decreases order.len() - j,
    {
        let ci = order[j].2;
        assert(order@.skip(j as int)[0] == order@[j as int]);
        assert(order@.skip(j as int).drop_first() =~= order@.skip(j + 1));
        let cel = &frame.cels[ci];
        assert(cels[ci as int] == cel@);
        match draw_cel(file, frame_index, palette, cel, buf, w, h, float_rgb) {
            Err(e) => return Err(e),
            Ok(()) => {},
        }
        j = j + 1;
    }
    Ok(())
}


/// `buf` with a group's flattened buffer `scratch` blended over it in
/// `mode` at `opacity`; fully transparent group pixels leave `buf` alone.
#[verifier::opaque]
pub open spec fn composite_group(buf: Seq<u8>, scratch: Seq<u8>, mode: BlendMode, opacity: int, fl: FloatBlender) -> Seq<u8> {
    Seq::new(
        buf.len(),
        |k: int|
            {
                let p = k / 4;
                if scratch[4 * p + 3] == 0 {
                    buf[k]
                } else {
                    blend_px(mode, buf.subrange(4 * p, 4 * p + 4), scratch.subrange(4 * p, 4 * p + 4), opacity, fl)[k % 4]
                }
            },
    )
}

proof fn lemma_composite_at(buf: Seq<u8>, scratch: Seq<u8>, mode: BlendMode, opacity: int, fl: FloatBlender, p: int)
    requires
        0 <= p,
        4 * p + 4 <= buf.len(),
    ensures
        composite_group(buf, scratch, mode, opacity, fl).len() == buf.len(),
        forall|k: int|
            4 * p <= k < 4 * p + 4 ==> #[trigger] composite_group(buf, scratch, mode, opacity, fl)[k] == if scratch[4
                * p + 3] == 0 {
                buf[k]
            } else {
                blend_px(mode, buf.subrange(4 * p, 4 * p + 4), scratch.subrange(4 * p, 4 * p + 4), opacity, fl)[k - 4
                    * p]
            },
{
    reveal(composite_group);
    assert forall|k: int| 4 * p <= k < 4 * p + 4 implies #[trigger] composite_group(buf, scratch, mode, opacity, fl)[k]
        == if scratch[4 * p + 3] == 0 {
        buf[k]
    } else {
        blend_px(mode, buf.subrange(4 * p, 4 * p + 4), scratch.subrange(4 * p, 4 * p + 4), opacity, fl)[k - 4 * p]
    } by {
        lemma_split(p, 4, k - 4 * p);
    }
}

/// Blends a group's flattened buffer over `buf`, pixel by pixel.
fn composite_group_into<F: Fn(BlendMode, Rgb, Rgb) -> Rgb>(
    buf: &mut Vec<u8>,
    scratch: &Vec<u8>,
    npx: usize,
    mode: BlendMode,
    opacity: i32,
    float_rgb: &F,
)
    requires
        old(buf)@.len() == npx * 4,
        scratch@.len() == npx * 4,
        0 <= opacity <= 255,
        float_ok(*float_rgb),
    ensures
        final(buf)@ == composite_group(old(buf)@, scratch@, mode, opacity as int, float_oracle(*float_rgb)),
        final(buf)@.len() == old(buf)@.len(),
{
    let ghost orig = buf@;
    let ghost fl = float_oracle(*float_rgb);
    let ghost goal = composite_group(orig, scratch@, mode, opacity as int, fl);
    let _len = buf.len();
    proof {
        reveal(composite_group);
    }
    let mut p: usize = 0;
    while p < npx
        invariant
            p <= npx,
            npx * 4 <= usize::MAX,
            goal.len() == orig.len(),
            orig.len() == npx * 4,
            scratch@.len() == npx * 4,
            buf@.len() == orig.len(),
            0 <= opacity <= 255,
            float_ok(*float_rgb),
            fl == float_oracle(*float_rgb),
            goal == composite_group(orig, scratch@, mode, opacity as int, fl),
            forall|k: int| 0 <= k < orig.len() ==> #[trigger] buf@[k] == if k / 4 < p { goal[k] } else { orig[k] },
        decreases npx - p,
    {
        let di = p * 4;
        proof {
            lemma_composite_at(orig, scratch@, mode, opacity as int, fl, p as int);
        }
        if scratch[di + 3] != 0 {
            let back = [buf[di], buf[di + 1], buf[di + 2], buf[di + 3]];
            let src = [scratch[di], scratch[di + 1], scratch[di + 2], scratch[di + 3]];
            proof {
                assert forall|j: int| 0 <= j < 4 implies #[trigger] back@[j] == orig[di + j] by {
                    lemma_split(p as int, 4, j);
                }
            }
            assert(back@ =~= orig.subrange(4 * p, 4 * p + 4));
            assert(src@ =~= scratch@.subrange(4 * p, 4 * p + 4));
            let out = blend(mode, back, src, opacity, float_rgb);
            put_px(buf, di, out);
        }
        proof {
            assert forall|k: int| 0 <= k < orig.len() implies #[trigger] buf@[k] == if k / 4 < p + 1 {
                goal[k]
            } else {
                orig[k]
            } by {
                lemma_fundamental_div_mod(k, 4);
                if di <= k < di + 4 {
                    lemma_split(p as int, 4, k - di);
                }
            }
        }
        p = p + 1;
    }
    assert forall|k: int| 0 <= k < orig.len() implies #[trigger] buf@[k] == goal[k] by {
        lemma_fundamental_div_mod(k, 4);
    }
    assert(buf@ =~= goal);
}

/// Draw-order entries of the children of `parent` among the first `n`
/// layers: visible, non-reference groups keyed by their index, other layers
/// by index plus their cel's z-index (layers without a cel in the frame
/// left out).
pub open spec fn group_items(f: AseFileV, frame: int, parent: Option<usize>, n: int) -> Seq<Item>
    decreases n,
{
    if n <= 0 {
        Seq::empty()
    } else {
        let prev = group_items(f, frame, parent, n - 1);
        let i = n - 1;
        let layer = f.layers[i];
        if layer.parent != parent || !layer.visible() || layer.reference() {
            prev
        } else if layer.layer_type is Group {
            prev.push((i as i128, 0i16, i as usize))
        } else {
            match first_cel(f.frames[frame].cels, i as usize, 0) {
                Some(ci) => {
                    let z = f.frames[frame].cels[ci].z_index;
                    prev.push(((i + z) as i128, z, i as usize))
                },
                None => prev,
            }
        }
    }
}

/// Composites the children of `parent` onto `buf`, in order; each child
/// group is flattened into a transparent buffer of its own first, then
/// blended with the group's mode and opacity. `fuel` bounds the nesting.
pub open spec fn render_children_spec(
    f: AseFileV,
    frame: int,
    palette: Seq<[u8; 4]>,
    parent: Option<usize>,
    buf: Seq<u8>,
    w: int,
    fl: FloatBlender,
    fuel: nat,
) -> Result<Seq<u8>, RenderError>
    decreases fuel + 1, 0int,
{
    fold_children(f, frame, palette, sort_items(group_items(f, frame, parent, f.layers.len() as int)), buf, w, fl, fuel)
}

/// `buf` after compositing the layers the entries name, in order.
pub open spec fn fold_children(
    f: AseFileV,
    frame: int,
    palette: Seq<[u8; 4]>,
    items: Seq<Item>,
    buf: Seq<u8>,
    w: int,
    fl: FloatBlender,
    fuel: nat,
) -> Result<Seq<u8>, RenderError>
    decreases fuel, items.len(),
{
    if items.len() == 0 {
        Ok(buf)
    } else {
        let idx = items[0].2;
        let layer = f.layers[idx as int];
        if layer.layer_type is Group {
            if fuel == 0 {
                Ok(buf)
            } else {
                match render_children_spec(
                    f,
                    frame,
                    palette,
                    Some(idx),
                    Seq::new(buf.len(), |k: int| 0u8),
                    w,
                    fl,
                    (fuel - 1) as nat,
                ) {
                    Err(e) => Err(e),
                    Ok(scratch) => fold_children(
                        f,
                        frame,
                        palette,
                        items.drop_first(),
                        composite_group(buf, scratch, layer.blend_mode, layer.opacity as int, fl),
                        w,
                        fl,
                        fuel,
                    ),
                }
            }
        } else {
            match first_cel(f.frames[frame].cels, idx, 0) {
                Some(ci) => match draw_cel_spec(f, frame, palette, f.frames[frame].cels[ci], buf, w, fl) {
                    Err(e) => Err(e),
                    Ok(b) => fold_children(f, frame, palette, items.drop_first(), b, w, fl, fuel),
                },
                None => fold_children(f, frame, palette, items.drop_first(), buf, w, fl, fuel),
            }
        }
    }
}


/// Bound on the group nesting below `parent` among `n` layers whose
/// parents precede them.
pub open spec fn depth_bound(parent: Option<usize>, n: int) -> int {
    match parent {
        Some(p) => n - p,
        None => n + 1,
    }
}

proof fn lemma_group_items_index(f: AseFileV, frame: int, parent: Option<usize>, n: int)
    requires
        0 <= n <= f.layers.len(),
        f.layers.len() <= usize::MAX,
    ensures
        forall|i: int|
            0 <= i < group_items(f, frame, parent, n).len() ==> {
                let it = #[trigger] group_items(f, frame, parent, n)[i];
                &&& it.2 < n
                &&& f.layers[it.2 as int].parent == parent
            },
    decreases n,
{
    if n > 0 {
        lemma_group_items_index(f, frame, parent, n - 1);
        let prev = group_items(f, frame, parent, n - 1);
        assert forall|i: int| 0 <= i < group_items(f, frame, parent, n).len() implies {
            let it = #[trigger] group_items(f, frame, parent, n)[i];
            &&& it.2 < n
            &&& f.layers[it.2 as int].parent == parent
        } by {
            if i < prev.len() {
                assert(group_items(f, frame, parent, n)[i] == prev[i]);
            }
        }
    }
}

/// Composites the children of `parent` in order; each child group is
/// flattened into its own transparent buffer, then blended with the group's
/// mode and opacity. Cel z-indices reorder siblings within their group.
fn render_children<F: Fn(BlendMode, Rgb, Rgb) -> Rgb>(
    file: &AseFile,
    frame_index: usize,
    palette: &Palette,
    parent: Option<usize>,
    buf: &mut Vec<u8>,
    w: usize,
    h: usize,
    float_rgb: &F,
    Ghost(fuel): Ghost<nat>,
) -> (r: Result<(), RenderError>)
    requires
        render_ready(file@),
        frame_index < file.frames.len(),
        old(buf)@.len() == w * h * 4,
        w <= 0xffff,
        h <= 0xffff,
        float_ok(*float_rgb),
        parent matches Some(p) ==> p < file.layers.len(),
        fuel >= depth_bound(parent, file.layers.len() as int),
    ensures
        match render_children_spec(file@, frame_index as int, palette@, parent, old(buf)@, w as int, float_oracle(*float_rgb), fuel) {
            Ok(b) => r is Ok && final(buf)@ == b,
            Err(e) => r == Err::<(), RenderError>(e),
        },
        final(buf)@.len() == old(buf)@.len(),
    decreases fuel,
{
    let ghost fv = file@;
    let ghost fl = float_oracle(*float_rgb);
    let _blen = buf.len();
    let frame = &file.frames[frame_index];
    let ghost cels = fv.frames[frame_index as int].cels;
    assert(cels =~= cels_view(frame.cels@));
    let mut items: Vec<Item> = Vec::new();
    let mut i: usize = 0;
    while i < file.layers.len()
        invariant
            i <= file.layers.len(),
            fv == file@,
            render_ready(fv),
            frame_index < fv.frames.len(),
            frame@ == fv.frames[frame_index as int],
            cels == fv.frames[frame_index as int].cels,
            cels =~= cels_view(frame.cels@),
            items@ == group_items(fv, frame_index as int, parent, i as int),
        decreases file.layers.len() - i,
    {
        let layer = &file.layers[i];
        assert(fv.layers[i as int] == layer@);
        if layer.parent == parent && layer.is_visible() && !layer.is_reference() {
            match layer.layer_type {
                LayerType::Group => items.push((i as i128, 0i16, i)),
                _ => match find_cel(&frame.cels, i) {
                    Some(ci) => {
                        assert(cels[ci as int] == frame.cels[ci as int]@);
                        let z = frame.cels[ci].z_index;
                        items.push((i as i128 + z as i128, z, i));
                    },
                    None => {},
                },
            }
        }
        i = i + 1;
    }
    let order = sort_draw_order(&items);
    proof {
        lemma_group_items_index(fv, frame_index as int, parent, fv.layers.len() as int);
        lemma_sort_keeps(
            items@,
            |it: Item| it.2 < fv.layers.len() && fv.layers[it.2 as int].parent == parent,
        );
    }
    let ghost goal = fold_children(fv, frame_index as int, palette@, order@, buf@, w as int, fl, fuel);
    assert(order@.skip(0) =~= order@);
    let mut j: usize = 0;
    while j < order.len()
        invariant
            j <= order.len(),
            fv == file@,
            fl == float_oracle(*float_rgb),
            float_ok(*float_rgb),
            render_ready(fv),
            frame_index < fv.frames.len(),
            frame@ == fv.frames[frame_index as int],
            cels == fv.frames[frame_index as int].cels,
            cels =~= cels_view(frame.cels@),
            forall|k: int|
                0 <= k < order@.len() ==> {
                    let it = #[trigger] order@[k];
                    &&& it.2 < fv.layers.len()
                    &&& fv.layers[it.2 as int].parent == parent
                },
            parent matches Some(p) ==> p < file.layers.len(),
            fuel >= depth_bound(parent, file.layers.len() as int),
            buf@.len() == w * h * 4,
            old(buf)@.len() == w * h * 4,
            w * h * 4 <= usize::MAX,
            w <= 0xffff,
            h <= 0xffff,
            goal == fold_children(fv, frame_index as int, palette@, order@.skip(j as int), buf@, w as int, fl, fuel),
            goal == render_children_spec(fv, frame_index as int, palette@, parent, old(buf)@, w as int, fl, fuel),
        decreases order.len() - j,
    {
        let idx = order[j].2;
        assert(order@.skip(j as int)[0] == order@[j as int]);
        assert(order@.skip(j as int).drop_first() =~= order@.skip(j + 1));
        let layer = &file.layers[idx];
        assert(fv.layers[idx as int] == layer@);
        match layer.layer_type {
            LayerType::Group => {
                proof {
                    match parent {
                        Some(p) => {
                            assert(fv.layers[idx as int].parent == Some(p));
                            assert(parents_precede(fv.layers));
                            assert(p < idx);
                        },
                        None => {},
                    }
                }
                let npx = w * h;
                let mut scratch: Vec<u8> = vec![0u8; npx * 4];
                assert(scratch@ =~= Seq::new(buf@.len(), |k: int| 0u8));
                match render_children(
                    file,
                    frame_index,
                    palette,
                    Some(idx),
                    &mut scratch,
                    w,
                    h,
                    float_rgb,
                    Ghost((fuel - 1) as nat),
                ) {
                    Err(e) => return Err(e),
                    Ok(()) => {},
                }
                composite_group_into(buf, &scratch, npx, layer.blend_mode, layer.opacity as i32, float_rgb);
            },
            _ => match find_cel(&frame.cels, idx) {
                Some(ci) => {
                    assert(cels[ci as int] == frame.cels[ci as int]@);
                    match draw_cel(file, frame_index, palette, &frame.cels[ci], buf, w, h, float_rgb) {
                        Err(e) => return Err(e),
                        Ok(()) => {},
                    }
                },
                None => {},
            },
        }
        j = j + 1;
    }
    Ok(())
}


/// A transparent canvas of `n` bytes.
pub open spec fn blank(n: int) -> Seq<u8> {
    Seq::new(n as nat, |k: int| 0u8)
}

/// The flattened RGBA bytes of frame `frame`, or why it cannot be rendered.
/// With group blending valid (header flag bit 1) groups composite through
/// buffers of their own; otherwise every drawable cel draws flat, ordered by
/// layer index plus z-index, ties broken by z-index.
pub open spec fn render_spec(f: AseFileV, frame: int, fl: FloatBlender) -> Result<Seq<u8>, RenderError> {
    if frame < 0 || frame >= f.frames.len() {
        Err(RenderError::BadFrame(frame as usize))
    } else {
        let palette = f.palettes[palette_index(f.palettes.len() as int, frame)];
        let w = f.header.width as int;
        let h = f.header.height as int;
        let buf = blank(w * h * 4);
        if f.header.group_blend_flag() {
            render_children_spec(f, frame, palette, None, buf, w, fl, (f.layers.len() + 1) as nat)
        } else {
            let cels = f.frames[frame].cels;
            draw_items(f, frame, palette, cels, sort_items(flat_items(f, cels, cels.len() as int)), buf, w, fl)
        }
    }
}

/// Flattens one frame to canvas-sized RGBA. `float_rgb` computes the
/// blend modes Aseprite computes in floating point (soft light and the HSL
/// modes).
pub fn render_frame<F: Fn(BlendMode, Rgb, Rgb) -> Rgb>(file: &AseFile, frame_index: usize, float_rgb: &F) -> (r: Result<
    RgbaImage,
    RenderError,
>)
    requires
        render_ready(file@),
        float_ok(*float_rgb),
    ensures
        match render_spec(file@, frame_index as int, float_oracle(*float_rgb)) {
            Ok(px) => r matches Ok(img) && img.width == file.header.width && img.height == file.header.height
                && img.pixels@ == px,
            Err(e) => r matches Err(e2) && e2 == e,
        },
        r matches Ok(img) ==> img.pixels@.len() == file.header.width * file.header.height * 4,
{
    if frame_index >= file.frames.len() {
        return Err(RenderError::BadFrame(frame_index));
    }
    let palette = file.palette_for(frame_index);
    let w = file.header.width as usize;
    let h = file.header.height as usize;
    let mut buf: Vec<u8> = vec![0u8; w * h * 4];
    assert(buf@ =~= blank(w * h * 4));
    if file.header.group_blend_valid() {
        match render_children(file, frame_index, palette, None, &mut buf, w, h, float_rgb, Ghost((file.layers.len() + 1) as nat)) {
            Err(e) => return Err(e),
            Ok(()) => {},
        }
    } else {
        match render_flat(file, frame_index, palette, &mut buf, w, h, float_rgb) {
            Err(e) => return Err(e),
            Ok(()) => {},
        }
    }
    Ok(RgbaImage { width: w as u32, height: h as u32, pixels: buf })
}

/// Whether a document meets what [`render_frame`] needs of it (see
/// [`render_ready`]); every document [`AseFile::parse`] returns does when
/// its canvas fits in memory.
pub fn renderable(file: &AseFile) -> (r: bool)
    ensures
        r == render_ready(file@),
{
    let ghost fv = file@;
    if file.frames.len() > 0 && file.palettes.len() == 0 {
        return false;
    }
    proof {
        lemma_u16_product(file.header.width, file.header.height);
    }
    if file.header.width as u64 * file.header.height as u64 * 4 > usize::MAX as u64 {
        return false;
    }
    let mut i: usize = 0;
    while i < file.layers.len()
        invariant
            i <= file.layers.len(),
            fv == file@,
            forall|j: int| 0 <= j < i ==> ((#[trigger] fv.layers[j]).parent matches Some(p) ==> p < j),
        decreases file.layers.len() - i,
    {
        assert(fv.layers[i as int] == file.layers[i as int]@);
        match file.layers[i].parent {
            Some(p) => if p >= i {
                return false;
            },
            None => {},
        }
        i = i + 1;
    }
    let bpp = file.header.color_depth.bytes_per_pixel();
    let mut t: usize = 0;
    while t < file.tilesets.len()
        invariant
            t <= file.tilesets.len(),
            fv == file@,
            bpp == fv.header.color_depth.bpp_bytes(),
            forall|j: int|
                0 <= j < t ==> ((#[trigger] fv.tilesets[j]).pixels matches Some(p) ==> p.len() >= fv.tilesets[j].num_tiles
                    * fv.tilesets[j].tile_height * fv.tilesets[j].tile_width * bpp),
        decreases file.tilesets.len() - t,
    {
        let ts = &file.tilesets[t];
        assert(fv.tilesets[t as int] == ts@);
        if let Some(p) = &ts.pixels {
            assert(ts.num_tiles * ts.tile_height <= 0xffff_ffff * 0xffff) by (nonlinear_arith)
                requires
                    ts.num_tiles <= 0xffff_ffff,
                    ts.tile_height <= 0xffff,
            ;
            assert(ts.num_tiles * ts.tile_height * ts.tile_width <= 0xffff_ffff * 0xffff * 0xffff) by (nonlinear_arith)
                requires
                    ts.num_tiles * ts.tile_height <= 0xffff_ffff * 0xffff,
                    ts.tile_width <= 0xffff,
            ;
            assert(ts.num_tiles * ts.tile_height * ts.tile_width * bpp <= 0xffff_ffff * 0xffff * 0xffff * 4) by (nonlinear_arith)
                requires
                    ts.num_tiles * ts.tile_height * ts.tile_width <= 0xffff_ffff * 0xffff * 0xffff,
                    bpp <= 4,
            ;
            let need = ts.num_tiles as u128 * ts.tile_height as u128 * ts.tile_width as u128 * bpp as u128;
            if (p.len() as u128) < need {
                return false;
            }
        }
        t = t + 1;
    }
    let mut fi: usize = 0;
    while fi < file.frames.len()
        invariant
            fi <= file.frames.len(),
            fv == file@,
            bpp == fv.header.color_depth.bpp_bytes(),
            forall|a: int, c: int|
                0 <= a < fi && 0 <= c < fv.frames[a].cels.len() ==> cel_ready(fv, #[trigger] fv.frames[a].cels[c]),
        decreases file.frames.len() - fi,
    {
        let frame = &file.frames[fi];
        assert(fv.frames[fi as int] == frame@);
        let mut c: usize = 0;
        while c < frame.cels.len()
            invariant
                c <= frame.cels.len(),
                fi < file.frames.len(),
                fv == file@,
                frame@ == fv.frames[fi as int],
                bpp == fv.header.color_depth.bpp_bytes(),
                forall|a: int, k: int|
                    0 <= a < fi && 0 <= k < fv.frames[a].cels.len() ==> cel_ready(fv, #[trigger] fv.frames[a].cels[k]),
                forall|k: int| 0 <= k < c ==> cel_ready(fv, #[trigger] fv.frames[fi as int].cels[k]),
            decreases frame.cels.len() - c,
        {
            let cel = &frame.cels[c];
            assert(fv.frames[fi as int].cels[c as int] == cel@);
            if cel.layer_index >= file.layers.len() {
                return false;
            }
            if let CelContent::Image(img) = &cel.content {
                proof {
                    lemma_u16_product(img.width, img.height);
                }
                assert(img.width * img.height * bpp <= 0xffff * 0xffff * 4) by (nonlinear_arith)
                    requires
                        img.width * img.height <= 0xffff * 0xffff,
                        bpp <= 4,
                ;
                let need = img.width as u64 * img.height as u64 * bpp as u64;
                if (img.pixels.len() as u64) < need {
                    return false;
                }
            }
            c = c + 1;
        }
        fi = fi + 1;
    }
    true
}

} // verus!
