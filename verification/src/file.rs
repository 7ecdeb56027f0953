//! Whole-file parsing: assembles the document model by walking frames and
//! dispatching chunks. Unknown chunk types are skipped.
use crate::composite::render::{cel_ready, content_ok, render_ready};
use crate::error::ParseError;
use crate::limits::{
    MAX_IMAGE_BYTES, MAX_PALETTE_ENTRIES, MAX_PROPERTY_DEPTH, MAX_TILESET_TILES,
    MAX_TOTAL_DECOMPRESSED_BYTES,
};
use crate::model::{
    user_data_nests_within, Cel, CelContentV, CelV, ColorDepth, ColorProfile, ColorProfileV,
    ExternalFile, Frame, FrameV, Header, Layer, LayerV, Palette, Slice, SliceV, Tag, TagV, Tileset,
    TilesetV, UserData, UserDataV,
};
use crate::parse::cel::{parse_cel, spec_cel, InflateBudget};
use crate::parse::chunk::{parse_chunk_header, spec_chunk_header, ChunkHeader};
use crate::parse::frame::{parse_frame_header, spec_frame_header};
use crate::parse::header::{header_at, header_error, parse_header};
use crate::parse::layer::{last_at_level, layers_view, parent_of, parse_layer, resolve_parent, spec_layer};
use crate::parse::misc::{
    files_view, parse_cel_extra, parse_color_profile, parse_external_files, spec_cel_extra,
    spec_color_profile, spec_external_files,
};
use crate::parse::palette::{apply_new_palette, apply_old_palette, spec_new_palette, spec_old_palette};
use crate::parse::slice::{parse_slice, spec_slice};
use crate::parse::tags::{lemma_tag_entries_plain, parse_tags, spec_tags, tags_view};
use crate::parse::tileset::{parse_tileset, spec_tileset};
use crate::parse::user_data::{lemma_user_data_nest, parse_user_data, spec_user_data};
use crate::parse::{chunk, HEADER_SIZE};
use crate::read::{le_u16, Reader};
use vstd::prelude::*;

verus! {

broadcast use crate::read::lemma_cursor_nonneg;

/// A fully parsed Aseprite document.
#[derive(Debug)]
pub struct AseFile {
    pub header: Header,
    /// Flat, in file order; the index is the layer index cels reference.
    pub layers: Vec<Layer>,
    pub frames: Vec<Frame>,
    pub tags: Vec<Tag>,
    pub tilesets: Vec<Tileset>,
    pub slices: Vec<Slice>,
    /// Per-frame palette snapshots: a palette chunk in frame N changes the
    /// palette from frame N onward. Same length as `frames`.
    pub palettes: Vec<Palette>,
    /// Sprite-level user data: a user data chunk read before any other
    /// object.
    pub user_data: UserData,
    pub color_profile: Option<ColorProfile>,
    pub external_files: Vec<ExternalFile>,
}

/// Mathematical model of an [`AseFile`].
pub struct AseFileV {
    pub header: Header,
    pub layers: Seq<LayerV>,
    pub frames: Seq<FrameV>,
    pub tags: Seq<TagV>,
    pub tilesets: Seq<TilesetV>,
    pub slices: Seq<SliceV>,
    pub palettes: Seq<Seq<[u8; 4]>>,
    pub user_data: UserDataV,
    pub color_profile: Option<ColorProfileV>,
    pub external_files: Seq<(u32, u8, Seq<char>)>,
}

/// Model of an optional color profile.
pub open spec fn profile_view(p: Option<ColorProfile>) -> Option<ColorProfileV> {
    match p {
        Some(q) => Some(q@),
        None => None,
    }
}

impl View for AseFile {
    type V = AseFileV;

    open spec fn view(&self) -> AseFileV {
        AseFileV {
            header: self.header,
            layers: layers_view(self.layers@),
            frames: self.frames@.map_values(|f: Frame| f@),
            tags: tags_view(self.tags@),
            tilesets: self.tilesets@.map_values(|t: Tileset| t@),
            slices: self.slices@.map_values(|s: Slice| s@),
            palettes: self.palettes@.map_values(|p: Palette| p@),
            user_data: self.user_data@,
            color_profile: profile_view(self.color_profile),
            external_files: files_view(self.external_files@),
        }
    }
}

/// Every layer's parent precedes it.
pub open spec fn parents_precede(layers: Seq<LayerV>) -> bool {
    forall|i: int|
        0 <= i < layers.len() ==> ((#[trigger] layers[i]).parent matches Some(p) ==> p < i)
}

/// What the next user data chunk attaches to. Palette, old palette, color
/// profile and unknown chunks do not change it.
#[derive(Debug, Clone, Copy, PartialEq, Eq, Structural)]
pub enum UdTarget {
    Sprite,
    Layer(usize),
    /// Index into the current frame's cels.
    Cel(usize),
    Slice(usize),
    /// Next tag to receive user data, and the end of the tag run.
    Tags { next: usize, end: usize },
    /// The tileset itself first, then per-tile user data in tile order.
    Tileset { index: usize, next_tile: Option<usize> },
    /// The preceding object was skipped: user data is dropped.
    Nothing,
}

/// State of the file walk between chunks.
pub struct WalkV {
    pub layers: Seq<LayerV>,
    pub frames: Seq<FrameV>,
    pub cels: Seq<CelV>,
    pub last_cel: Option<usize>,
    pub tags: Seq<TagV>,
    pub tilesets: Seq<TilesetV>,
    pub slices: Seq<SliceV>,
    pub palette: Seq<[u8; 4]>,
    pub palettes: Seq<Seq<[u8; 4]>>,
    pub user_data: UserDataV,
    pub color_profile: Option<ColorProfileV>,
    pub external_files: Seq<(u32, u8, Seq<char>)>,
    pub total: int,
    pub seen_new_palette: bool,
    pub target: UdTarget,
}

/// The walk state before the first frame.
pub open spec fn initial_walk() -> WalkV {
    WalkV {
        layers: Seq::empty(),
        frames: Seq::empty(),
        cels: Seq::empty(),
        last_cel: None,
        tags: Seq::empty(),
        tilesets: Seq::empty(),
        slices: Seq::empty(),
        palette: Seq::empty(),
        palettes: Seq::empty(),
        user_data: UserDataV::empty(),
        color_profile: None,
        external_files: Seq::empty(),
        total: 0,
        seen_new_palette: false,
        target: UdTarget::Sprite,
    }
}

/// Indices held by the walk state point at existing objects.
pub open spec fn walk_wf(w: WalkV) -> bool {
    &&& parents_precede(w.layers)
    &&& (w.last_cel matches Some(i) ==> i < w.cels.len())
    &&& 0 <= w.total <= MAX_TOTAL_DECOMPRESSED_BYTES
    &&& match w.target {
        UdTarget::Layer(i) => i < w.layers.len(),
        UdTarget::Cel(i) => i < w.cels.len(),
        UdTarget::Slice(i) => i < w.slices.len(),
        UdTarget::Tags { next, end } => next < end <= w.tags.len(),
        UdTarget::Tileset { index, .. } => index < w.tilesets.len(),
        _ => true,
    }
}

/// `w` with user data `ud` attached to the current target (and the target
/// advanced through a tag run or a tileset's tiles).
pub open spec fn attach(w: WalkV, ud: UserDataV) -> WalkV {
    match w.target {
        UdTarget::Sprite => WalkV { user_data: ud, ..w },
        UdTarget::Layer(i) => WalkV {
            layers: w.layers.update(i as int, LayerV { user_data: ud, ..w.layers[i as int] }),
            ..w
        },
        UdTarget::Cel(i) => WalkV {
            cels: w.cels.update(i as int, CelV { user_data: ud, ..w.cels[i as int] }),
            ..w
        },
        UdTarget::Slice(i) => WalkV {
            slices: w.slices.update(i as int, SliceV { user_data: ud, ..w.slices[i as int] }),
            ..w
        },
        UdTarget::Tags { next, end } => WalkV {
            tags: w.tags.update(next as int, TagV { user_data: ud, ..w.tags[next as int] }),
            target: if next + 1 == end {
                UdTarget::Nothing
            } else {
                UdTarget::Tags { next: (next + 1) as usize, end }
            },
            ..w
        },
        UdTarget::Tileset { index, next_tile } => match next_tile {
            None => WalkV {
                tilesets: w.tilesets.update(
                    index as int,
                    TilesetV {
                        user_data: ud,
                        tile_user_data: Seq::new(
                            w.tilesets[index as int].num_tiles as nat,
                            |k: int| UserDataV::empty(),
                        ),
                        ..w.tilesets[index as int]
                    },
                ),
                target: UdTarget::Tileset { index, next_tile: Some(0) },
                ..w
            },
            Some(k) => if k < w.tilesets[index as int].tile_user_data.len() {
                WalkV {
                    tilesets: w.tilesets.update(
                        index as int,
                        TilesetV {
                            tile_user_data: w.tilesets[index as int].tile_user_data.update(
                                k as int,
                                ud,
                            ),
                            ..w.tilesets[index as int]
                        },
                    ),
                    target: UdTarget::Tileset { index, next_tile: Some((k + 1) as usize) },
                    ..w
                }
            } else {
                WalkV { target: UdTarget::Nothing, ..w }
            },
        },
        UdTarget::Nothing => w,
    }
}

/// A layer chunk at `at`: the layer gets its parent from child levels and
/// becomes the user-data target.
pub open spec fn layer_effect(s: Seq<u8>, h: Header, w: WalkV, at: int) -> Result<WalkV, ParseError> {
    match spec_layer(s, at, h.opacity_flag(), h.uuid_flag()) {
        Err(e) => Err(e),
        Ok((l, _)) => Ok(
            WalkV {
                layers: w.layers.push(LayerV { parent: parent_of(w.layers, l.child_level), ..l }),
                target: UdTarget::Layer(w.layers.len() as usize),
                ..w
            },
        ),
    }
}

/// A cel chunk at `at` ending at `end`: a parsed cel joins the frame and
/// becomes the target of cel extra and user data chunks; a skipped cel
/// orphans them.
pub open spec fn cel_effect(s: Seq<u8>, h: Header, w: WalkV, at: int, end: int) -> Result<
    WalkV,
    ParseError,
> {
    let (t2, c) = spec_cel(s, at, end, h.color_depth, w.layers.len() as int, w.total);
    match c {
        Err(e) => Err(e),
        Ok(Some(cel)) => Ok(
            WalkV {
                cels: w.cels.push(cel),
                last_cel: Some(w.cels.len() as usize),
                target: UdTarget::Cel(w.cels.len() as usize),
                total: t2,
                ..w
            },
        ),
        Ok(None) => Ok(WalkV { last_cel: None, target: UdTarget::Nothing, total: t2, ..w }),
    }
}

/// A cel extra chunk at `at`: applies to the last parsed cel of the frame,
/// if any (otherwise it is not read).
pub open spec fn extra_effect(s: Seq<u8>, w: WalkV, at: int) -> Result<WalkV, ParseError> {
    match w.last_cel {
        None => Ok(w),
        Some(i) => match spec_cel_extra(s, at) {
            Err(e) => Err(e),
            Ok(x) => Ok(WalkV { cels: w.cels.update(i as int, CelV { extra: x, ..w.cels[i as int] }), ..w }),
        },
    }
}

/// A tags chunk at `at`: the tags are appended and the following user data
/// chunks go to them in order; an empty run leaves the target unchanged.
pub open spec fn tags_effect(s: Seq<u8>, w: WalkV, at: int) -> Result<WalkV, ParseError> {
    match spec_tags(s, at) {
        Err(e) => Err(e),
        Ok((ts, _)) => Ok(
            WalkV {
                tags: w.tags + ts,
                target: if ts.len() == 0 {
                    w.target
                } else {
                    UdTarget::Tags {
                        next: w.tags.len() as usize,
                        end: (w.tags.len() + ts.len()) as usize,
                    }
                },
                ..w
            },
        ),
    }
}

/// A new palette chunk at `at`; from then on old palette chunks are ignored.
pub open spec fn palette_effect(s: Seq<u8>, w: WalkV, at: int) -> Result<WalkV, ParseError> {
    let (p, r) = spec_new_palette(s, at, w.palette);
    match r {
        Err(e) => Err(e),
        Ok(_) => Ok(WalkV { palette: p, seen_new_palette: true, ..w }),
    }
}

/// An old palette chunk at `at`.
pub open spec fn old_palette_effect(s: Seq<u8>, w: WalkV, at: int, six_bit: bool) -> Result<
    WalkV,
    ParseError,
> {
    let (p, r) = spec_old_palette(s, at, w.palette, six_bit);
    match r {
        Err(e) => Err(e),
        Ok(_) => Ok(WalkV { palette: p, ..w }),
    }
}

/// A tileset chunk at `at`: the tileset is appended and becomes the target.
pub open spec fn tileset_effect(s: Seq<u8>, h: Header, w: WalkV, at: int) -> Result<
    WalkV,
    ParseError,
> {
    let (t2, r) = spec_tileset(s, at, h.color_depth, w.total);
    match r {
        Err(e) => Err(e),
        Ok((ts, _)) => Ok(
            WalkV {
                tilesets: w.tilesets.push(ts),
                target: UdTarget::Tileset { index: w.tilesets.len() as usize, next_tile: None },
                total: t2,
                ..w
            },
        ),
    }
}

/// A slice chunk at `at`: the slice is appended and becomes the target.
pub open spec fn slice_effect(s: Seq<u8>, w: WalkV, at: int) -> Result<WalkV, ParseError> {
    match spec_slice(s, at) {
        Err(e) => Err(e),
        Ok((sl, _)) => Ok(
            WalkV { slices: w.slices.push(sl), target: UdTarget::Slice(w.slices.len() as usize), ..w },
        ),
    }
}

/// A color profile chunk at `at`.
pub open spec fn profile_effect(s: Seq<u8>, w: WalkV, at: int) -> Result<WalkV, ParseError> {
    match spec_color_profile(s, at) {
        Err(e) => Err(e),
        Ok((p, _)) => Ok(WalkV { color_profile: Some(p), ..w }),
    }
}

/// An external files chunk at `at`; it replaces any earlier list.
pub open spec fn files_effect(s: Seq<u8>, w: WalkV, at: int) -> Result<WalkV, ParseError> {
    match spec_external_files(s, at) {
        Err(e) => Err(e),
        Ok((v, _)) => Ok(WalkV { external_files: v, ..w }),
    }
}

/// A user data chunk at `at`, attached to the current target.
pub open spec fn user_data_effect(s: Seq<u8>, w: WalkV, at: int) -> Result<WalkV, ParseError> {
    match spec_user_data(s, at) {
        Err(e) => Err(e),
        Ok((ud, _)) => Ok(attach(w, ud)),
    }
}

/// The walk state after the chunk `ch` (its payload starting right after
/// its 6-byte header), under header `h`. Other chunk kinds change nothing.
#[verifier::opaque]
pub open spec fn chunk_effect(s: Seq<u8>, h: Header, w: WalkV, ch: ChunkHeader) -> Result<
    WalkV,
    ParseError,
> {
    let at = ch.offset + 6;
    let kind = ch.kind;
    if kind == chunk::LAYER {
        layer_effect(s, h, w, at)
    } else if kind == chunk::CEL {
        cel_effect(s, h, w, at, ch.spec_end())
    } else if kind == chunk::CEL_EXTRA {
        extra_effect(s, w, at)
    } else if kind == chunk::TAGS {
        tags_effect(s, w, at)
    } else if kind == chunk::PALETTE {
        palette_effect(s, w, at)
    } else if kind == chunk::OLD_PALETTE_8 && !w.seen_new_palette {
        old_palette_effect(s, w, at, false)
    } else if kind == chunk::OLD_PALETTE_6 && !w.seen_new_palette {
        old_palette_effect(s, w, at, true)
    } else if kind == chunk::TILESET {
        tileset_effect(s, h, w, at)
    } else if kind == chunk::SLICE {
        slice_effect(s, w, at)
    } else if kind == chunk::COLOR_PROFILE {
        profile_effect(s, w, at)
    } else if kind == chunk::EXTERNAL_FILES {
        files_effect(s, w, at)
    } else if kind == chunk::USER_DATA {
        user_data_effect(s, w, at)
    } else {
        Ok(w)
    }
}

/// `k` chunks of a frame ending at `frame_end`, the next one at `at`. After
/// each chunk the walk seeks to its declared end.
#[verifier::opaque]
pub open spec fn walk_chunks(s: Seq<u8>, h: Header, w: WalkV, at: int, k: int, frame_end: int) -> Result<
    WalkV,
    ParseError,
>
    decreases k,
{
    if k <= 0 {
        Ok(w)
    } else {
        match spec_chunk_header(s, at, frame_end) {
            Err(e) => Err(e),
            Ok(ch) => match chunk_effect(s, h, w, ch) {
                Err(e) => Err(e),
                Ok(w2) => if ch.spec_end() > s.len() {
                    Err(
                        ParseError::UnexpectedEof {
                            offset: s.len() as usize,
                            needed: (ch.spec_end() - s.len()) as usize,
                        },
                    )
                } else {
                    walk_chunks(s, h, w2, ch.spec_end(), k - 1, frame_end)
                },
            },
        }
    }
}

/// The walk state after a frame's chunks: the frame is recorded with its
/// duration (the header default when stored as 0) and its cels, the
/// palette in effect is snapshotted for it, and the next frame starts with
/// no cels (a user-data target naming a cel of this frame is dropped).
pub open spec fn finish_frame(w: WalkV, duration_ms: u16, h: Header) -> WalkV {
    WalkV {
        frames: w.frames.push(
            FrameV {
                duration_ms: if duration_ms == 0 {
                    h.default_frame_duration_ms
                } else {
                    duration_ms
                },
                cels: w.cels,
            },
        ),
        palettes: w.palettes.push(w.palette),
        cels: Seq::empty(),
        last_cel: None,
        target: if w.target is Cel {
            UdTarget::Nothing
        } else {
            w.target
        },
        ..w
    }
}

/// One frame at `at`: the walk state after it and the offset of the next
/// frame.
#[verifier::opaque]
pub open spec fn frame_step(s: Seq<u8>, h: Header, w: WalkV, at: int) -> Result<
    (WalkV, int),
    ParseError,
> {
    if at > s.len() {
        Err(ParseError::UnexpectedEof { offset: s.len() as usize, needed: (at - s.len()) as usize })
    } else {
        match spec_frame_header(s, at) {
            Err(e) => Err(e),
            Ok(fh) => if at + fh.frame_bytes > usize::MAX {
                Err(ParseError::UnexpectedEof { offset: at as usize, needed: fh.frame_bytes as usize })
            } else {
                match walk_chunks(
                    s,
                    h,
                    w,
                    at + 16,
                    fh.num_chunks as int,
                    at + fh.frame_bytes,
                ) {
                    Err(e) => Err(e),
                    Ok(w2) => Ok((finish_frame(w2, fh.duration_ms, h), at + fh.frame_bytes)),
                }
            },
        }
    }
}

/// `n` frames, the next one starting at `at`.
#[verifier::opaque]
pub open spec fn walk_frames(s: Seq<u8>, h: Header, w: WalkV, at: int, n: int) -> Result<
    WalkV,
    ParseError,
>
    decreases n,
{
    if n <= 0 {
        Ok(w)
    } else {
        match frame_step(s, h, w, at) {
            Err(e) => Err(e),
            Ok((w2, next)) => walk_frames(s, h, w2, next, n - 1),
        }
    }
}

/// The document `s` encodes, or the first error met decoding it.
pub open spec fn spec_parse_file(s: Seq<u8>) -> Result<AseFileV, ParseError> {
    match header_error(s, 0) {
        Some(e) => Err(e),
        None => {
            let h = header_at(s, 0);
            match walk_frames(s, h, initial_walk(), HEADER_SIZE as int, h.frames as int) {
                Err(e) => Err(e),
                Ok(w) => Ok(
                    AseFileV {
                        header: h,
                        layers: w.layers,
                        frames: w.frames,
                        tags: w.tags,
                        tilesets: w.tilesets,
                        slices: w.slices,
                        palettes: w.palettes,
                        user_data: w.user_data,
                        color_profile: w.color_profile,
                        external_files: w.external_files,
                    },
                ),
            }
        },
    }
}

/// Pixel bytes a cel holds: an image's pixels, four bytes per tile of a
/// tilemap, nothing for a link.
pub open spec fn content_bytes(c: CelContentV) -> int {
    match c {
        CelContentV::Image { pixels, .. } => pixels.len() as int,
        CelContentV::Tilemap { tiles, .. } => 4 * tiles.len() as int,
        CelContentV::Linked(_) => 0,
    }
}

/// Pixel bytes held by a list of cels.
pub open spec fn cels_bytes(cels: Seq<CelV>) -> int
    decreases cels.len(),
{
    if cels.len() == 0 {
        0
    } else {
        cels_bytes(cels.drop_last()) + content_bytes(cels.last().content)
    }
}

/// Pixel bytes held by the cels of a list of frames.
pub open spec fn frames_bytes(frames: Seq<FrameV>) -> int
    decreases frames.len(),
{
    if frames.len() == 0 {
        0
    } else {
        frames_bytes(frames.drop_last()) + cels_bytes(frames.last().cels)
    }
}

/// Pixel bytes embedded in a tileset.
pub open spec fn tileset_bytes(t: TilesetV) -> int {
    match t.pixels {
        Some(p) => p.len() as int,
        None => 0,
    }
}

/// Pixel bytes embedded in a list of tilesets.
pub open spec fn tilesets_bytes(ts: Seq<TilesetV>) -> int
    decreases ts.len(),
{
    if ts.len() == 0 {
        0
    } else {
        tilesets_bytes(ts.drop_last()) + tileset_bytes(ts.last())
    }
}

/// User data whose property maps nest at most `MAX_PROPERTY_DEPTH` levels.
pub open spec fn props_capped(u: UserDataV) -> bool {
    user_data_nests_within(u, MAX_PROPERTY_DEPTH as int)
}

/// Every user data record of a document keeps to the nesting cap.
pub open spec fn user_data_capped(f: AseFileV) -> bool {
    &&& props_capped(f.user_data)
    &&& forall|i: int| 0 <= i < f.layers.len() ==> props_capped((#[trigger] f.layers[i]).user_data)
    &&& forall|t: int, c: int|
        0 <= t < f.frames.len() && 0 <= c < f.frames[t].cels.len() ==> props_capped(
            (#[trigger] f.frames[t].cels[c]).user_data,
        )
    &&& forall|i: int| 0 <= i < f.tags.len() ==> props_capped((#[trigger] f.tags[i]).user_data)
    &&& forall|i: int| 0 <= i < f.slices.len() ==> props_capped((#[trigger] f.slices[i]).user_data)
    &&& forall|i: int| 0 <= i < f.tilesets.len() ==> tileset_props_capped(#[trigger] f.tilesets[i])
}

/// A tileset's own and per-tile user data keep to the nesting cap.
pub open spec fn tileset_props_capped(t: TilesetV) -> bool {
    props_capped(t.user_data) && forall|k: int|
        0 <= k < t.tile_user_data.len() ==> props_capped(#[trigger] t.tile_user_data[k])
}

/// A document within the parser's caps: palettes of at most
/// `MAX_PALETTE_ENTRIES` entries, tilesets of at most `MAX_TILESET_TILES`
/// tiles, no image over `MAX_IMAGE_BYTES`, and at most
/// `MAX_TOTAL_DECOMPRESSED_BYTES` of pixel data in all, and property maps
/// nested at most `MAX_PROPERTY_DEPTH` levels.
pub open spec fn within_limits(f: AseFileV) -> bool {
    &&& user_data_capped(f)
    &&& forall|i: int| 0 <= i < f.palettes.len() ==> (#[trigger] f.palettes[i]).len() <= MAX_PALETTE_ENTRIES
    &&& forall|i: int|
        0 <= i < f.tilesets.len() ==> (#[trigger] f.tilesets[i]).num_tiles <= MAX_TILESET_TILES
            && tileset_bytes(f.tilesets[i]) <= MAX_IMAGE_BYTES
    &&& forall|t: int, c: int|
        0 <= t < f.frames.len() && 0 <= c < f.frames[t].cels.len() ==> content_bytes(
            (#[trigger] f.frames[t].cels[c]).content,
        ) <= MAX_IMAGE_BYTES
    &&& frames_bytes(f.frames) + tilesets_bytes(f.tilesets) <= MAX_TOTAL_DECOMPRESSED_BYTES
}

/// The walk state keeps to the caps, and its budget counts exactly the pixel
/// bytes it holds.
spec fn walk_capped(w: WalkV) -> bool {
    &&& w.palette.len() <= MAX_PALETTE_ENTRIES
    &&& forall|i: int| 0 <= i < w.palettes.len() ==> (#[trigger] w.palettes[i]).len() <= MAX_PALETTE_ENTRIES
    &&& forall|i: int|
        0 <= i < w.tilesets.len() ==> (#[trigger] w.tilesets[i]).num_tiles <= MAX_TILESET_TILES
            && tileset_bytes(w.tilesets[i]) <= MAX_IMAGE_BYTES
    &&& forall|i: int| 0 <= i < w.cels.len() ==> content_bytes((#[trigger] w.cels[i]).content) <= MAX_IMAGE_BYTES
    &&& forall|t: int, c: int|
        0 <= t < w.frames.len() && 0 <= c < w.frames[t].cels.len() ==> content_bytes(
            (#[trigger] w.frames[t].cels[c]).content,
        ) <= MAX_IMAGE_BYTES
    &&& frames_bytes(w.frames) + cels_bytes(w.cels) + tilesets_bytes(w.tilesets) == w.total
    &&& walk_props_capped(w)
}

/// Every user data record of the walk keeps to the nesting cap.
spec fn walk_props_capped(w: WalkV) -> bool {
    &&& props_capped(w.user_data)
    &&& forall|i: int| 0 <= i < w.layers.len() ==> props_capped((#[trigger] w.layers[i]).user_data)
    &&& forall|i: int| 0 <= i < w.cels.len() ==> props_capped((#[trigger] w.cels[i]).user_data)
    &&& forall|t: int, c: int|
        0 <= t < w.frames.len() && 0 <= c < w.frames[t].cels.len() ==> props_capped(
            (#[trigger] w.frames[t].cels[c]).user_data,
        )
    &&& forall|i: int| 0 <= i < w.tags.len() ==> props_capped((#[trigger] w.tags[i]).user_data)
    &&& forall|i: int| 0 <= i < w.slices.len() ==> props_capped((#[trigger] w.slices[i]).user_data)
    &&& forall|i: int| 0 <= i < w.tilesets.len() ==> tileset_props_capped(#[trigger] w.tilesets[i])
}

/// What parsing keeps of the walk state between chunks.
spec fn walk_sound(w: WalkV, bpp: int) -> bool {
    walk_ready(w, bpp) && walk_capped(w)
}

/// Replacing a cel by one with the same content keeps the byte count.
proof fn lemma_cels_bytes_update(cels: Seq<CelV>, i: int, c: CelV)
    requires
        0 <= i < cels.len(),
        c.content == cels[i].content,
    ensures
        cels_bytes(cels.update(i, c)) == cels_bytes(cels),
    decreases cels.len(),
{
    let u = cels.update(i, c);
    if i == cels.len() - 1 {
        assert(u.drop_last() =~= cels.drop_last());
    } else {
        lemma_cels_bytes_update(cels.drop_last(), i, c);
        assert(u.drop_last() =~= cels.drop_last().update(i, c));
    }
}

/// Replacing a tileset by one with the same pixels keeps the byte count.
proof fn lemma_tilesets_bytes_update(ts: Seq<TilesetV>, i: int, t: TilesetV)
    requires
        0 <= i < ts.len(),
        t.pixels == ts[i].pixels,
    ensures
        tilesets_bytes(ts.update(i, t)) == tilesets_bytes(ts),
    decreases ts.len(),
{
    let u = ts.update(i, t);
    if i == ts.len() - 1 {
        assert(u.drop_last() =~= ts.drop_last());
    } else {
        lemma_tilesets_bytes_update(ts.drop_last(), i, t);
        assert(u.drop_last() =~= ts.drop_last().update(i, t));
    }
}

/// A parsed cel was charged exactly its pixel bytes, at most
/// `MAX_IMAGE_BYTES`; a skipped one nothing.
proof fn lemma_cel_charge(s: Seq<u8>, at: int, end: int, depth: ColorDepth, n: int, total: int)
    ensures
        match spec_cel(s, at, end, depth, n, total) {
            (t2, Ok(Some(c))) => t2 == total + content_bytes(c.content) && content_bytes(c.content)
                <= MAX_IMAGE_BYTES,
            (t2, Ok(None)) => t2 == total,
            _ => true,
        },
{
}

/// A parsed tileset was charged exactly its pixel bytes, at most
/// `MAX_IMAGE_BYTES`, and has at most `MAX_TILESET_TILES` tiles.
proof fn lemma_tileset_charge(s: Seq<u8>, at: int, depth: ColorDepth, total: int)
    ensures
        match spec_tileset(s, at, depth, total) {
            (t2, Ok((t, _))) => t2 == total + tileset_bytes(t) && tileset_bytes(t) <= MAX_IMAGE_BYTES
                && t.num_tiles <= MAX_TILESET_TILES,
            _ => true,
        },
{
}

/// A cel names one of the first `n` layers and, as an image, holds all of
/// its pixels at `bpp` bytes each.
spec fn cel_fits(c: CelV, n: int, bpp: int) -> bool {
    c.layer_index < n && content_ok(c.content, bpp)
}

/// A tileset with embedded pixels holds every tile at `bpp` bytes a pixel.
spec fn tileset_fits(t: TilesetV, bpp: int) -> bool {
    t.pixels matches Some(p) ==> p.len() >= t.num_tiles * t.tile_height * t.tile_width * bpp
}

/// What flattening needs of the walk so far: every frame has its palette
/// snapshot, cels (of the current and of recorded frames) fit, and
/// tilesets hold their tiles.
spec fn walk_ready(w: WalkV, bpp: int) -> bool {
    &&& w.palettes.len() == w.frames.len()
    &&& forall|i: int|
        0 <= i < w.cels.len() ==> cel_fits(#[trigger] w.cels[i], w.layers.len() as int, bpp)
    &&& forall|t: int, c: int|
        0 <= t < w.frames.len() && 0 <= c < w.frames[t].cels.len() ==> cel_fits(
            #[trigger] w.frames[t].cels[c],
            w.layers.len() as int,
            bpp,
        )
    &&& forall|i: int| 0 <= i < w.tilesets.len() ==> tileset_fits(#[trigger] w.tilesets[i], bpp)
    &&& parents_resolved(w.layers)
}

/// Every layer's parent is the one its child level resolves to among the
/// layers before it (what `resolve_parent` computes).
pub open spec fn parents_resolved(layers: Seq<LayerV>) -> bool {
    forall|i: int|
        0 <= i < layers.len() ==> (#[trigger] layers[i]).parent == parent_of(layers.take(i), layers[i].child_level)
}

/// Which layer a level resolves to depends on the child levels alone.
proof fn lemma_last_at_level_levels(a: Seq<LayerV>, b: Seq<LayerV>, level: int)
    requires
        a.len() == b.len(),
        forall|i: int| 0 <= i < a.len() ==> (#[trigger] a[i]).child_level == b[i].child_level,
    ensures
        last_at_level(a, level) == last_at_level(b, level),
    decreases a.len(),
{
    if a.len() > 0 {
        assert(a.last() == a[a.len() - 1]);
        lemma_last_at_level_levels(a.drop_last(), b.drop_last(), level);
    }
}

/// Replacing a layer by one with the same parent and child level keeps the
/// parents resolved.
proof fn lemma_resolved_update(ls: Seq<LayerV>, j: int, l: LayerV)
    requires
        parents_resolved(ls),
        0 <= j < ls.len(),
        l.parent == ls[j].parent,
        l.child_level == ls[j].child_level,
    ensures
        parents_resolved(ls.update(j, l)),
{
    let u = ls.update(j, l);
    assert forall|i: int| 0 <= i < u.len() implies (#[trigger] u[i]).parent == parent_of(u.take(i), u[i].child_level) by {
        assert(ls[i].parent == parent_of(ls.take(i), ls[i].child_level));
        if u[i].child_level != 0 {
            lemma_last_at_level_levels(u.take(i), ls.take(i), u[i].child_level - 1);
        }
    }
}

/// A parsed cel names a known layer and holds its pixels.
proof fn lemma_cel_fits(s: Seq<u8>, at: int, end: int, depth: ColorDepth, n: int, total: int)
    ensures
        spec_cel(s, at, end, depth, n, total).1 matches Ok(Some(c)) ==> cel_fits(
            c,
            n,
            depth.bpp_bytes(),
        ),
{
}

/// A parsed tileset holds all of its embedded tiles.
proof fn lemma_tileset_fits(s: Seq<u8>, at: int, depth: ColorDepth, total: int)
    ensures
        spec_tileset(s, at, depth, total).1 matches Ok((t, _)) ==> tileset_fits(
            t,
            depth.bpp_bytes(),
        ),
{
    if let Ok((t, _)) = spec_tileset(s, at, depth, total).1 {
        if let Some(p) = t.pixels {
            let a = t.tile_width as int;
            let b = t.tile_height as int;
            let c = t.num_tiles as int;
            let d = depth.bpp_bytes();
            assert(a * b * c * d == c * b * a * d) by (nonlinear_arith);
        }
    }
}

/// Attaching user data changes no layer count, cel content or tileset
/// pixels.
proof fn lemma_attach_ready(w: WalkV, ud: UserDataV, bpp: int)
    requires
        walk_wf(w),
        walk_ready(w, bpp),
    ensures
        walk_ready(attach(w, ud), bpp),
{
    let w2 = attach(w, ud);
    assert(w2.layers.len() == w.layers.len());
    assert(w2.cels.len() == w.cels.len());
    assert(w2.tilesets.len() == w.tilesets.len());
    assert forall|i: int| 0 <= i < w2.cels.len() implies cel_fits(
        #[trigger] w2.cels[i],
        w2.layers.len() as int,
        bpp,
    ) by {
        assert(cel_fits(w.cels[i], w.layers.len() as int, bpp));
    }
    assert forall|i: int| 0 <= i < w2.tilesets.len() implies tileset_fits(
        #[trigger] w2.tilesets[i],
        bpp,
    ) by {
        assert(tileset_fits(w.tilesets[i], bpp));
    }
    if let UdTarget::Layer(j) = w.target {
        lemma_resolved_update(w.layers, j as int, w2.layers[j as int]);
    }
}

/// Closing a frame moves its cels into the recorded frame and snapshots
/// the palette.
proof fn lemma_finish_ready(w: WalkV, duration_ms: u16, h: Header, bpp: int)
    requires
        walk_ready(w, bpp),
    ensures
        walk_ready(finish_frame(w, duration_ms, h), bpp),
{
    let w2 = finish_frame(w, duration_ms, h);
    let n = w.frames.len() as int;
    assert forall|t: int, c: int|
        0 <= t < w2.frames.len() && 0 <= c < w2.frames[t].cels.len() implies cel_fits(
        #[trigger] w2.frames[t].cels[c],
        w2.layers.len() as int,
        bpp,
    ) by {
        if t < n {
            assert(cel_fits(w.frames[t].cels[c], w.layers.len() as int, bpp));
        } else {
            assert(w2.frames[t].cels == w.cels);
            assert(cel_fits(w.cels[c], w.layers.len() as int, bpp));
        }
    }
}

/// Every chunk keeps the walk ready for flattening.
proof fn lemma_chunk_ready(s: Seq<u8>, h: Header, w: WalkV, ch: ChunkHeader)
    requires
        walk_wf(w),
        walk_ready(w, h.color_depth.bpp_bytes()),
    ensures
        chunk_effect(s, h, w, ch) matches Ok(w2) ==> walk_ready(w2, h.color_depth.bpp_bytes())
            && w2.frames == w.frames,
{
    reveal(chunk_effect);
    let bpp = h.color_depth.bpp_bytes();
    let at = ch.offset + 6;
    let kind = ch.kind;
    if kind == chunk::LAYER {
        if let Ok(w2) = layer_effect(s, h, w, at) {
            assert forall|i: int| 0 <= i < w2.layers.len() implies (#[trigger] w2.layers[i]).parent == parent_of(
                w2.layers.take(i),
                w2.layers[i].child_level,
            ) by {
                if i < w.layers.len() {
                    assert(w2.layers.take(i) =~= w.layers.take(i));
                    assert(w2.layers[i] == w.layers[i]);
                } else {
                    assert(w2.layers.take(i) =~= w.layers);
                }
            }
            assert forall|i: int| 0 <= i < w2.cels.len() implies cel_fits(
                #[trigger] w2.cels[i],
                w2.layers.len() as int,
                bpp,
            ) by {
                assert(cel_fits(w.cels[i], w.layers.len() as int, bpp));
            }
            assert forall|t: int, c: int|
                0 <= t < w2.frames.len() && 0 <= c < w2.frames[t].cels.len() implies cel_fits(
                #[trigger] w2.frames[t].cels[c],
                w2.layers.len() as int,
                bpp,
            ) by {
                assert(cel_fits(w.frames[t].cels[c], w.layers.len() as int, bpp));
            }
        }
    } else if kind == chunk::CEL {
        lemma_cel_fits(s, at, ch.spec_end(), h.color_depth, w.layers.len() as int, w.total);
        if let Ok(w2) = cel_effect(s, h, w, at, ch.spec_end()) {
            assert forall|i: int| 0 <= i < w2.cels.len() implies cel_fits(
                #[trigger] w2.cels[i],
                w2.layers.len() as int,
                bpp,
            ) by {
                if i < w.cels.len() {
                    assert(cel_fits(w.cels[i], w.layers.len() as int, bpp));
                }
            }
        }
    } else if kind == chunk::CEL_EXTRA {
        if let Ok(w2) = extra_effect(s, w, at) {
            assert forall|i: int| 0 <= i < w2.cels.len() implies cel_fits(
                #[trigger] w2.cels[i],
                w2.layers.len() as int,
                bpp,
            ) by {
                assert(cel_fits(w.cels[i], w.layers.len() as int, bpp));
            }
        }
    } else if kind == chunk::TILESET {
        lemma_tileset_fits(s, at, h.color_depth, w.total);
        if let Ok(w2) = tileset_effect(s, h, w, at) {
            assert forall|i: int| 0 <= i < w2.tilesets.len() implies tileset_fits(
                #[trigger] w2.tilesets[i],
                bpp,
            ) by {
                if i < w.tilesets.len() {
                    assert(tileset_fits(w.tilesets[i], bpp));
                }
            }
        }
    } else if kind == chunk::USER_DATA {
        if let Ok((ud, _)) = spec_user_data(s, at) {
            lemma_attach_ready(w, ud, bpp);
        }
    }
}

/// Attaching user data that keeps to the nesting cap keeps every record
/// within it.
proof fn lemma_attach_props(w: WalkV, ud: UserDataV)
    requires
        walk_wf(w),
        walk_props_capped(w),
        props_capped(ud),
    ensures
        walk_props_capped(attach(w, ud)),
{
    let w2 = attach(w, ud);
    assert forall|i: int| 0 <= i < w2.layers.len() implies props_capped((#[trigger] w2.layers[i]).user_data) by {
        assert(props_capped(w.layers[i].user_data));
    }
    assert forall|i: int| 0 <= i < w2.cels.len() implies props_capped((#[trigger] w2.cels[i]).user_data) by {
        assert(props_capped(w.cels[i].user_data));
    }
    assert forall|i: int| 0 <= i < w2.tags.len() implies props_capped((#[trigger] w2.tags[i]).user_data) by {
        assert(props_capped(w.tags[i].user_data));
    }
    assert forall|i: int| 0 <= i < w2.slices.len() implies props_capped((#[trigger] w2.slices[i]).user_data) by {
        assert(props_capped(w.slices[i].user_data));
    }
    assert forall|i: int| 0 <= i < w2.tilesets.len() implies tileset_props_capped(#[trigger] w2.tilesets[i]) by {
        assert(tileset_props_capped(w.tilesets[i]));
        let t = w2.tilesets[i];
        assert forall|k: int| 0 <= k < t.tile_user_data.len() implies props_capped(#[trigger] t.tile_user_data[k]) by {
            if let UdTarget::Tileset { index, next_tile } = w.target {
                if index == i && next_tile is Some && k < w.tilesets[i].tile_user_data.len() {
                    assert(props_capped(w.tilesets[i].tile_user_data[k]));
                }
            }
        }
    }
}

/// Attaching user data changes no pixels and no palette.
proof fn lemma_attach_capped(w: WalkV, ud: UserDataV)
    requires
        walk_wf(w),
        walk_capped(w),
        props_capped(ud),
    ensures
        walk_capped(attach(w, ud)),
{
    lemma_attach_props(w, ud);
    let w2 = attach(w, ud);
    match w.target {
        UdTarget::Cel(i) => {
            lemma_cels_bytes_update(w.cels, i as int, CelV { user_data: ud, ..w.cels[i as int] });
        },
        UdTarget::Tileset { index, next_tile } => {
            match next_tile {
                None => lemma_tilesets_bytes_update(
                    w.tilesets,
                    index as int,
                    w2.tilesets[index as int],
                ),
                Some(k) => if k < w.tilesets[index as int].tile_user_data.len() {
                    lemma_tilesets_bytes_update(w.tilesets, index as int, w2.tilesets[index as int]);
                },
            }
        },
        _ => {},
    }
    assert forall|i: int| 0 <= i < w2.cels.len() implies content_bytes(
        (#[trigger] w2.cels[i]).content,
    ) <= MAX_IMAGE_BYTES by {
        assert(w2.cels[i].content == w.cels[i].content);
    }
    assert forall|i: int| 0 <= i < w2.tilesets.len() implies (#[trigger] w2.tilesets[i]).num_tiles
        <= MAX_TILESET_TILES && tileset_bytes(w2.tilesets[i]) <= MAX_IMAGE_BYTES by {
        assert(w2.tilesets[i].num_tiles == w.tilesets[i].num_tiles);
        assert(w2.tilesets[i].pixels == w.tilesets[i].pixels);
    }
}

/// Closing a frame moves its cels' bytes into the recorded frames.
proof fn lemma_finish_capped(w: WalkV, duration_ms: u16, h: Header)
    requires
        walk_capped(w),
    ensures
        walk_capped(finish_frame(w, duration_ms, h)),
{
    let w2 = finish_frame(w, duration_ms, h);
    let n = w.frames.len() as int;
    assert forall|t: int, c: int|
        0 <= t < w2.frames.len() && 0 <= c < w2.frames[t].cels.len() implies props_capped(
        (#[trigger] w2.frames[t].cels[c]).user_data,
    ) by {
        if t < n {
            assert(w2.frames[t] == w.frames[t]);
        } else {
            assert(w2.frames[t].cels == w.cels);
            assert(props_capped(w.cels[c].user_data));
        }
    }
    assert(w2.frames.drop_last() =~= w.frames);
    assert(frames_bytes(w2.frames) == frames_bytes(w.frames) + cels_bytes(w.cels));
    assert forall|t: int, c: int|
        0 <= t < w2.frames.len() && 0 <= c < w2.frames[t].cels.len() implies content_bytes(
        (#[trigger] w2.frames[t].cels[c]).content,
    ) <= MAX_IMAGE_BYTES by {
        if t < n {
            assert(w2.frames[t] == w.frames[t]);
        } else {
            assert(w2.frames[t].cels == w.cels);
            assert(content_bytes(w.cels[c].content) <= MAX_IMAGE_BYTES);
        }
    }
    assert forall|i: int| 0 <= i < w2.palettes.len() implies (#[trigger] w2.palettes[i]).len()
        <= MAX_PALETTE_ENTRIES by {
        if i < w.palettes.len() {
            assert(w2.palettes[i] == w.palettes[i]);
        }
    }
}

/// Every chunk keeps the walk within the caps.
proof fn lemma_chunk_capped(s: Seq<u8>, h: Header, w: WalkV, ch: ChunkHeader)
    requires
        walk_wf(w),
        walk_capped(w),
    ensures
        chunk_effect(s, h, w, ch) matches Ok(w2) ==> walk_capped(w2),
{
    reveal(chunk_effect);
    let at = ch.offset + 6;
    let kind = ch.kind;
    if kind == chunk::CEL {
        lemma_cel_charge(s, at, ch.spec_end(), h.color_depth, w.layers.len() as int, w.total);
        if let Ok(w2) = cel_effect(s, h, w, at, ch.spec_end()) {
            if w2.cels.len() > w.cels.len() {
                assert(w2.cels.drop_last() =~= w.cels);
            }
            assert forall|i: int| 0 <= i < w2.cels.len() implies content_bytes(
                (#[trigger] w2.cels[i]).content,
            ) <= MAX_IMAGE_BYTES by {
                if i < w.cels.len() {
                    assert(w2.cels[i] == w.cels[i]);
                }
            }
        }
    } else if kind == chunk::CEL_EXTRA {
        if let Ok(w2) = extra_effect(s, w, at) {
            if let Some(i) = w.last_cel {
                lemma_cels_bytes_update(w.cels, i as int, w2.cels[i as int]);
            }
            assert forall|i: int| 0 <= i < w2.cels.len() implies content_bytes(
                (#[trigger] w2.cels[i]).content,
            ) <= MAX_IMAGE_BYTES by {
                assert(w2.cels[i].content == w.cels[i].content);
            }
        }
    } else if kind == chunk::PALETTE {
        crate::parse::palette::lemma_new_palette_capped(s, at, w.palette);
    } else if (kind == chunk::OLD_PALETTE_8 || kind == chunk::OLD_PALETTE_6) && !w.seen_new_palette {
        crate::parse::palette::lemma_old_palette_capped(s, at, w.palette, kind == chunk::OLD_PALETTE_6);
    } else if kind == chunk::TILESET {
        lemma_tileset_charge(s, at, h.color_depth, w.total);
        if let Ok(w2) = tileset_effect(s, h, w, at) {
            assert(w2.tilesets.drop_last() =~= w.tilesets);
            assert forall|i: int| 0 <= i < w2.tilesets.len() implies (#[trigger] w2.tilesets[i]).num_tiles
                <= MAX_TILESET_TILES && tileset_bytes(w2.tilesets[i]) <= MAX_IMAGE_BYTES by {
                if i < w.tilesets.len() {
                    assert(w2.tilesets[i] == w.tilesets[i]);
                }
            }
        }
    } else if kind == chunk::USER_DATA {
        lemma_user_data_nest(s, at);
        if let Ok((ud, _)) = spec_user_data(s, at) {
            lemma_attach_capped(w, ud);
        }
    }
    if kind != chunk::USER_DATA {
        lemma_chunk_props(s, h, w, ch);
    }
}

/// Objects other chunks add carry no user data yet.
proof fn lemma_chunk_props(s: Seq<u8>, h: Header, w: WalkV, ch: ChunkHeader)
    requires
        walk_wf(w),
        walk_props_capped(w),
        ch.kind != chunk::USER_DATA,
    ensures
        chunk_effect(s, h, w, ch) matches Ok(w2) ==> walk_props_capped(w2),
{
    reveal(chunk_effect);
    let at = ch.offset + 6;
    let kind = ch.kind;
    if let Ok(w2) = chunk_effect(s, h, w, ch) {
        assert(UserDataV::empty().maps.len() == 0);
        if kind == chunk::TAGS {
            if let Ok((ts, _)) = spec_tags(s, at) {
                lemma_tag_entries_plain(s, at + 10, le_u16(s, at) as int);
                assert forall|i: int| 0 <= i < w2.tags.len() implies props_capped((#[trigger] w2.tags[i]).user_data) by {
                    if i < w.tags.len() {
                        assert(w2.tags[i] == w.tags[i]);
                    } else {
                        assert(w2.tags[i] == ts[i - w.tags.len()]);
                    }
                }
            }
        }
        assert forall|i: int| 0 <= i < w2.layers.len() implies props_capped((#[trigger] w2.layers[i]).user_data) by {
            if i < w.layers.len() {
                assert(w2.layers[i] == w.layers[i]);
            }
        }
        assert forall|i: int| 0 <= i < w2.cels.len() implies props_capped((#[trigger] w2.cels[i]).user_data) by {
            if i < w.cels.len() {
                assert(w2.cels[i].user_data == w.cels[i].user_data);
            }
        }
        assert forall|i: int| 0 <= i < w2.slices.len() implies props_capped((#[trigger] w2.slices[i]).user_data) by {
            if i < w.slices.len() {
                assert(w2.slices[i] == w.slices[i]);
            }
        }
        assert forall|i: int| 0 <= i < w2.tilesets.len() implies tileset_props_capped(#[trigger] w2.tilesets[i]) by {
            if i < w.tilesets.len() {
                assert(w2.tilesets[i] == w.tilesets[i]);
            }
        }
    }
}

/// A finished walk yields a document within the caps that, when its canvas
/// fits in memory, flattens.
proof fn lemma_ready_file(w: WalkV, f: AseFileV)
    requires
        walk_wf(w),
        walk_sound(w, f.header.color_depth.bpp_bytes()),
        w.cels.len() == 0,
        f.layers == w.layers,
        f.frames == w.frames,
        f.tilesets == w.tilesets,
        f.palettes == w.palettes,
        f.tags == w.tags,
        f.slices == w.slices,
        f.user_data == w.user_data,
    ensures
        within_limits(f),
        parents_resolved(f.layers),
        forall|t: int, c: int|
            0 <= t < f.frames.len() && 0 <= c < f.frames[t].cels.len() ==> (#[trigger] f.frames[t].cels[c]).layer_index
                < f.layers.len(),
        f.header.width * f.header.height * 4 <= usize::MAX ==> render_ready(f),
{
    assert(cels_bytes(w.cels) == 0);
    assert(user_data_capped(f));
    let bpp = f.header.color_depth.bpp_bytes();
    assert forall|t: int, c: int|
        0 <= t < f.frames.len() && 0 <= c < f.frames[t].cels.len() implies cel_ready(
        f,
        #[trigger] f.frames[t].cels[c],
    ) by {
        assert(cel_fits(w.frames[t].cels[c], w.layers.len() as int, bpp));
    }
    assert forall|i: int| 0 <= i < f.tilesets.len() implies ((#[trigger] f.tilesets[i]).pixels matches Some(p) ==> p.len()
        >= f.tilesets[i].num_tiles * f.tilesets[i].tile_height * f.tilesets[i].tile_width * bpp) by {
        assert(tileset_fits(w.tilesets[i], bpp));
    }
}

/// Where frame `t` starts: right after the file header, and each frame
/// after the previous one's declared size.
pub open spec fn frame_start_at(s: Seq<u8>, t: nat) -> int
    decreases t,
{
    if t == 0 {
        HEADER_SIZE as int
    } else {
        let at = frame_start_at(s, (t - 1) as nat);
        match spec_frame_header(s, at) {
            Ok(fh) => at + fh.frame_bytes,
            Err(_) => at,
        }
    }
}

/// Frame `t`'s duration: the one its frame header stores, or the header
/// default when that is 0.
pub open spec fn frame_duration(s: Seq<u8>, h: Header, t: nat) -> u16 {
    match spec_frame_header(s, frame_start_at(s, t)) {
        Ok(fh) => if fh.duration_ms == 0 {
            h.default_frame_duration_ms
        } else {
            fh.duration_ms
        },
        Err(_) => 0,
    }
}

/// The walk state while parsing.
struct Walk {
    layers: Vec<Layer>,
    frames: Vec<Frame>,
    cels: Vec<Cel>,
    last_cel: Option<usize>,
    tags: Vec<Tag>,
    tilesets: Vec<Tileset>,
    slices: Vec<Slice>,
    palette: Palette,
    palettes: Vec<Palette>,
    user_data: UserData,
    color_profile: Option<ColorProfile>,
    external_files: Vec<ExternalFile>,
    budget: InflateBudget,
    seen_new_palette: bool,
    target: UdTarget,
}

impl View for Walk {
    type V = WalkV;

    closed spec fn view(&self) -> WalkV {
        WalkV {
            layers: layers_view(self.layers@),
            frames: self.frames@.map_values(|f: Frame| f@),
            cels: self.cels@.map_values(|c: Cel| c@),
            last_cel: self.last_cel,
            tags: tags_view(self.tags@),
            tilesets: self.tilesets@.map_values(|t: Tileset| t@),
            slices: self.slices@.map_values(|x: Slice| x@),
            palette: self.palette@,
            palettes: self.palettes@.map_values(|p: Palette| p@),
            user_data: self.user_data@,
            color_profile: profile_view(self.color_profile),
            external_files: files_view(self.external_files@),
            total: self.budget.total as int,
            seen_new_palette: self.seen_new_palette,
            target: self.target,
        }
    }
}

/// A list of `n` empty user data records.
fn empty_user_data(n: u32) -> (v: Vec<UserData>)
    ensures
        v@.map_values(|u: UserData| u@) == Seq::new(n as nat, |k: int| UserDataV::empty()),
{
    let mut v: Vec<UserData> = Vec::new();
    let mut i: u32 = 0;
    while i < n
        invariant
            i <= n,
            v@.len() == i,
            forall|k: int| 0 <= k < i ==> (#[trigger] v@[k])@ == UserDataV::empty(),
        decreases n - i,
    {
        v.push(UserData::default());
        i = i + 1;
    }
    assert(v@.map_values(|u: UserData| u@) =~= Seq::new(n as nat, |k: int| UserDataV::empty()));
    v
}

/// Attaches user data to the walk's current target.
fn attach_user_data(w: &mut Walk, ud: UserData)
    requires
        walk_wf(old(w)@),
    ensures
        final(w)@ == attach(old(w)@, ud@),
        walk_wf(final(w)@),
{
    let ghost w0 = w@;
    let ghost u = ud@;
    match w.target {
        UdTarget::Sprite => {
            w.user_data = ud;
        },
        UdTarget::Layer(i) => {
            let mut l = w.layers.remove(i);
            l.user_data = ud;
            let ghost lv = l@;
            w.layers.insert(i, l);
            assert(layers_view(w.layers@) =~= w0.layers.update(i as int, lv));
        },
        UdTarget::Cel(i) => {
            let mut c = w.cels.remove(i);
            c.user_data = ud;
            let ghost cv = c@;
            w.cels.insert(i, c);
            assert(w.cels@.map_values(|c: Cel| c@) =~= w0.cels.update(i as int, cv));
        },
        UdTarget::Slice(i) => {
            let mut x = w.slices.remove(i);
            x.user_data = ud;
            let ghost xv = x@;
            w.slices.insert(i, x);
            assert(w.slices@.map_values(|x: Slice| x@) =~= w0.slices.update(i as int, xv));
        },
        UdTarget::Tags { next, end } => {
            let mut t = w.tags.remove(next);
            t.user_data = ud;
            let ghost tv = t@;
            w.tags.insert(next, t);
            assert(tags_view(w.tags@) =~= w0.tags.update(next as int, tv));
            w.target = if next + 1 == end {
                UdTarget::Nothing
            } else {
                UdTarget::Tags { next: next + 1, end }
            };
        },
        UdTarget::Tileset { index, next_tile } => {
            match next_tile {
                None => {
                    let mut ts = w.tilesets.remove(index);
                    ts.user_data = ud;
                    ts.tile_user_data = empty_user_data(ts.num_tiles);
                    let ghost tv = ts@;
                    w.tilesets.insert(index, ts);
                    assert(w.tilesets@.map_values(|t: Tileset| t@) =~= w0.tilesets.update(
                        index as int,
                        tv,
                    ));
                    w.target = UdTarget::Tileset { index, next_tile: Some(0) };
                },
                Some(k) => {
                    if k < w.tilesets[index].tile_user_data.len() {
                        let mut ts = w.tilesets.remove(index);
                        let ghost before = ts@;
                        ts.tile_user_data.set(k, ud);
                        let ghost tv = ts@;
                        assert(tv.tile_user_data =~= before.tile_user_data.update(k as int, u));
                        w.tilesets.insert(index, ts);
                        assert(w.tilesets@.map_values(|t: Tileset| t@) =~= w0.tilesets.update(
                            index as int,
                            tv,
                        ));
                        w.target = UdTarget::Tileset { index, next_tile: Some(k + 1) };
                    } else {
                        w.target = UdTarget::Nothing;
                    }
                },
            }
        },
        UdTarget::Nothing => {},
    }
}

/// The contract shared by the chunk handlers: the walk moves to `effect`,
/// or the error is returned.
pub open spec fn handled(effect: Result<WalkV, ParseError>, res: Result<(), ParseError>, after: WalkV) -> bool {
    match effect {
        Ok(w2) => res is Ok && after == w2 && walk_wf(w2),
        Err(e) => res == Err::<(), ParseError>(e),
    }
}

fn apply_layer(r: &mut Reader, h: &Header, w: &mut Walk) -> (res: Result<(), ParseError>)
    requires
        walk_wf(old(w)@),
    ensures
        final(r).input() == old(r).input(),
        handled(layer_effect(old(r).input(), *h, old(w)@, old(r).cursor()), res, final(w)@),
{
    let ghost w0 = w@;
    let mut layer = parse_layer(r, h.layer_opacity_valid(), h.layers_have_uuid())?;
    layer.parent = resolve_parent(w.layers.as_slice(), layer.child_level);
    let ghost lv = layer@;
    w.layers.push(layer);
    w.target = UdTarget::Layer(w.layers.len() - 1);
    assert(layers_view(w.layers@) =~= w0.layers.push(lv));
    Ok(())
}

fn apply_cel(r: &mut Reader, h: &Header, end: usize, w: &mut Walk) -> (res: Result<(), ParseError>)
    requires
        walk_wf(old(w)@),
    ensures
        final(r).input() == old(r).input(),
        handled(cel_effect(old(r).input(), *h, old(w)@, old(r).cursor(), end as int), res, final(w)@),
{
    let ghost w0 = w@;
    let c = parse_cel(r, end, h.color_depth, w.layers.len(), &mut w.budget)?;
    match c {
        Some(cel) => {
            let ghost cv = cel@;
            w.cels.push(cel);
            w.last_cel = Some(w.cels.len() - 1);
            w.target = UdTarget::Cel(w.cels.len() - 1);
            assert(w.cels@.map_values(|c: Cel| c@) =~= w0.cels.push(cv));
        },
        None => {
            w.last_cel = None;
            w.target = UdTarget::Nothing;
        },
    }
    Ok(())
}

fn apply_extra(r: &mut Reader, w: &mut Walk) -> (res: Result<(), ParseError>)
    requires
        walk_wf(old(w)@),
    ensures
        final(r).input() == old(r).input(),
        handled(extra_effect(old(r).input(), old(w)@, old(r).cursor()), res, final(w)@),
{
    let ghost w0 = w@;
    match w.last_cel {
        Some(i) => {
            let extra = parse_cel_extra(r)?;
            let mut c = w.cels.remove(i);
            c.extra = extra;
            let ghost cv = c@;
            w.cels.insert(i, c);
            assert(w.cels@.map_values(|c: Cel| c@) =~= w0.cels.update(i as int, cv));
        },
        None => {},
    }
    Ok(())
}

fn apply_tags(r: &mut Reader, w: &mut Walk) -> (res: Result<(), ParseError>)
    requires
        walk_wf(old(w)@),
    ensures
        final(r).input() == old(r).input(),
        handled(tags_effect(old(r).input(), old(w)@, old(r).cursor()), res, final(w)@),
{
    let ghost w0 = w@;
    let start = w.tags.len();
    let mut parsed = parse_tags(r)?;
    let ghost tv = tags_view(parsed@);
    let n = parsed.len();
    w.tags.append(&mut parsed);
    assert(tags_view(w.tags@) =~= w0.tags + tv);
    if n != 0 {
        w.target = UdTarget::Tags { next: start, end: w.tags.len() };
    }
    Ok(())
}

fn apply_tileset(r: &mut Reader, h: &Header, w: &mut Walk) -> (res: Result<(), ParseError>)
    requires
        walk_wf(old(w)@),
    ensures
        final(r).input() == old(r).input(),
        handled(tileset_effect(old(r).input(), *h, old(w)@, old(r).cursor()), res, final(w)@),
{
    let ghost w0 = w@;
    let ts = parse_tileset(r, h.color_depth, &mut w.budget)?;
    let ghost tv = ts@;
    w.tilesets.push(ts);
    w.target = UdTarget::Tileset { index: w.tilesets.len() - 1, next_tile: None };
    assert(w.tilesets@.map_values(|t: Tileset| t@) =~= w0.tilesets.push(tv));
    Ok(())
}

fn apply_slice(r: &mut Reader, w: &mut Walk) -> (res: Result<(), ParseError>)
    requires
        walk_wf(old(w)@),
    ensures
        final(r).input() == old(r).input(),
        handled(slice_effect(old(r).input(), old(w)@, old(r).cursor()), res, final(w)@),
{
    let ghost w0 = w@;
    let sl = parse_slice(r)?;
    let ghost sv = sl@;
    w.slices.push(sl);
    w.target = UdTarget::Slice(w.slices.len() - 1);
    assert(w.slices@.map_values(|x: Slice| x@) =~= w0.slices.push(sv));
    Ok(())
}

fn apply_palette(r: &mut Reader, w: &mut Walk) -> (res: Result<(), ParseError>)
    requires
        walk_wf(old(w)@),
    ensures
        final(r).input() == old(r).input(),
        handled(palette_effect(old(r).input(), old(w)@, old(r).cursor()), res, final(w)@),
{
    w.seen_new_palette = true;
    apply_new_palette(r, &mut w.palette)?;
    Ok(())
}

fn apply_old(r: &mut Reader, w: &mut Walk, six_bit: bool) -> (res: Result<(), ParseError>)
    requires
        walk_wf(old(w)@),
    ensures
        final(r).input() == old(r).input(),
        handled(old_palette_effect(old(r).input(), old(w)@, old(r).cursor(), six_bit), res, final(w)@),
{
    apply_old_palette(r, &mut w.palette, six_bit)?;
    Ok(())
}

fn apply_profile(r: &mut Reader, w: &mut Walk) -> (res: Result<(), ParseError>)
    requires
        walk_wf(old(w)@),
    ensures
        final(r).input() == old(r).input(),
        handled(profile_effect(old(r).input(), old(w)@, old(r).cursor()), res, final(w)@),
{
    let p = parse_color_profile(r)?;
    w.color_profile = Some(p);
    Ok(())
}

fn apply_files(r: &mut Reader, w: &mut Walk) -> (res: Result<(), ParseError>)
    requires
        walk_wf(old(w)@),
    ensures
        final(r).input() == old(r).input(),
        handled(files_effect(old(r).input(), old(w)@, old(r).cursor()), res, final(w)@),
{
    w.external_files = parse_external_files(r)?;
    Ok(())
}

fn apply_user_data(r: &mut Reader, w: &mut Walk) -> (res: Result<(), ParseError>)
    requires
        walk_wf(old(w)@),
    ensures
        final(r).input() == old(r).input(),
        handled(user_data_effect(old(r).input(), old(w)@, old(r).cursor()), res, final(w)@),
{
    let ud = parse_user_data(r)?;
    attach_user_data(w, ud);
    Ok(())
}

/// Handles one chunk whose header `ch` has just been read, under header `h`.
fn apply_chunk(r: &mut Reader, h: &Header, ch: ChunkHeader, w: &mut Walk) -> (res: Result<
    (),
    ParseError,
>)
    requires
        walk_wf(old(w)@),
        old(r).cursor() == ch.offset + 6,
        ch.spec_end() <= usize::MAX,
    ensures
        final(r).input() == old(r).input(),
        handled(chunk_effect(old(r).input(), *h, old(w)@, ch), res, final(w)@),
        res is Ok && walk_sound(old(w)@, h.color_depth.bpp_bytes()) ==> walk_sound(
            final(w)@,
            h.color_depth.bpp_bytes(),
        ) && final(w)@.frames == old(w)@.frames,
{
    proof {
        if walk_sound(w@, h.color_depth.bpp_bytes()) {
            lemma_chunk_ready(r.input(), *h, w@, ch);
            lemma_chunk_capped(r.input(), *h, w@, ch);
        }
    }
    reveal(chunk_effect);
    let kind = ch.kind;
    if kind == chunk::LAYER {
        apply_layer(r, h, w)
    } else if kind == chunk::CEL {
        apply_cel(r, h, ch.end(), w)
    } else if kind == chunk::CEL_EXTRA {
        apply_extra(r, w)
    } else if kind == chunk::TAGS {
        apply_tags(r, w)
    } else if kind == chunk::PALETTE {
        apply_palette(r, w)
    } else if kind == chunk::OLD_PALETTE_8 && !w.seen_new_palette {
        apply_old(r, w, false)
    } else if kind == chunk::OLD_PALETTE_6 && !w.seen_new_palette {
        apply_old(r, w, true)
    } else if kind == chunk::TILESET {
        apply_tileset(r, h, w)
    } else if kind == chunk::SLICE {
        apply_slice(r, w)
    } else if kind == chunk::COLOR_PROFILE {
        apply_profile(r, w)
    } else if kind == chunk::EXTERNAL_FILES {
        apply_files(r, w)
    } else if kind == chunk::USER_DATA {
        apply_user_data(r, w)
    } else {
        Ok(())
    }
}
/// Reads `num` chunks of a frame ending at `frame_end`, seeking to each
/// chunk's declared end afterwards.
fn parse_chunks(r: &mut Reader, h: &Header, w: &mut Walk, num: u32, frame_end: usize) -> (res:
    Result<(), ParseError>)
    requires
        walk_wf(old(w)@),
        walk_sound(old(w)@, h.color_depth.bpp_bytes()),
    ensures
        final(r).input() == old(r).input(),
        res is Ok ==> walk_sound(final(w)@, h.color_depth.bpp_bytes()),
        res is Ok ==> final(w)@.frames == old(w)@.frames,
        match walk_chunks(
            old(r).input(),
            *h,
            old(w)@,
            old(r).cursor(),
            num as int,
            frame_end as int,
        ) {
            Ok(w2) => res is Ok && final(w)@ == w2 && walk_wf(w2),
            Err(e) => res == Err::<(), ParseError>(e),
        },
{
    let ghost s = r.input();
    let ghost total = walk_chunks(s, *h, w@, r.cursor(), num as int, frame_end as int);
    let mut ci: u32 = 0;
    while ci < num
        invariant
            r.input() == s,
            s == old(r).input(),
            total == walk_chunks(s, *h, old(w)@, old(r).cursor(), num as int, frame_end as int),
            walk_wf(w@),
            walk_sound(w@, h.color_depth.bpp_bytes()),
            w@.frames == old(w)@.frames,
            ci <= num,
            total == walk_chunks(s, *h, w@, r.cursor(), (num - ci) as int, frame_end as int),
        decreases num - ci,
    {
        reveal(walk_chunks);
        let ch = parse_chunk_header(r, frame_end)?;
        apply_chunk(r, h, ch, w)?;
        r.seek(ch.end())?;
        ci = ci + 1;
    }
    reveal(walk_chunks);
    Ok(())
}

/// Reads one frame starting at `frame_start` and returns where the next
/// one starts.
#[verifier::rlimit(100)]
fn parse_frame(r: &mut Reader, h: &Header, frame_start: usize, w: &mut Walk) -> (res: Result<
    usize,
    ParseError,
>)
    requires
        walk_wf(old(w)@),
        walk_sound(old(w)@, h.color_depth.bpp_bytes()),
    ensures
        final(r).input() == old(r).input(),
        res is Ok ==> walk_sound(final(w)@, h.color_depth.bpp_bytes()),
        res is Ok ==> final(w)@.frames.len() == old(w)@.frames.len() + 1,
        res is Ok ==> final(w)@.cels.len() == 0,
        res matches Ok(next) ==> spec_frame_header(old(r).input(), frame_start as int) matches Ok(fh)
            && next == frame_start + fh.frame_bytes && final(w)@.frames.last().duration_ms == (if fh.duration_ms
            == 0 {
            h.default_frame_duration_ms
        } else {
            fh.duration_ms
        }) && forall|t: int| 0 <= t < old(w)@.frames.len() ==> #[trigger] final(w)@.frames[t] == old(w)@.frames[t],
        match frame_step(old(r).input(), *h, old(w)@, frame_start as int) {
            Ok((w2, next)) => res matches Ok(x) && x == next && final(w)@ == w2 && walk_wf(w2),
            Err(e) => res == Err::<usize, ParseError>(e),
        },
{
    reveal(frame_step);
    r.seek(frame_start)?;
    let fh = parse_frame_header(r)?;
    let frame_end = match frame_start.checked_add(fh.frame_bytes as usize) {
        Some(e) => e,
        None => {
            return Err(
                ParseError::UnexpectedEof { offset: frame_start, needed: fh.frame_bytes as usize },
            );
        },
    };
    parse_chunks(r, h, w, fh.num_chunks, frame_end)?;
    let duration_ms = if fh.duration_ms == 0 {
        h.default_frame_duration_ms
    } else {
        fh.duration_ms
    };
    let ghost w_after = w@;
    let mut cels: Vec<Cel> = Vec::new();
    std::mem::swap(&mut cels, &mut w.cels);
    let frame = Frame { duration_ms, cels };
    let ghost fv = frame@;
    w.frames.push(frame);
    let snapshot = Palette { entries: vstd::slice::slice_to_vec(w.palette.entries.as_slice()) };
    w.palettes.push(snapshot);
    w.last_cel = None;
    if let UdTarget::Cel(_) = w.target {
        w.target = UdTarget::Nothing;
    }
    assert(w@.frames =~= w_after.frames.push(fv));
    assert(w@.palettes =~= w_after.palettes.push(w_after.palette));
    assert(w@.cels =~= Seq::<CelV>::empty());
    assert(w@ == finish_frame(w_after, fh.duration_ms, *h));
    proof {
        lemma_finish_ready(w_after, fh.duration_ms, *h, h.color_depth.bpp_bytes());
        lemma_finish_capped(w_after, fh.duration_ms, *h);
    }
    Ok(frame_end)
}

impl AseFile {
    /// Parses a whole file: the header, then every frame and its chunks.
    /// Any input is accepted: the result is the document `spec_parse_file`
    /// describes, or the first error met. In a parsed document there are
    /// as many frames as the header declares, each with its palette
    /// snapshot and the duration its frame header stores (the header
    /// default when that is 0); every layer's parent is the one
    /// [`resolve_parent`] finds among the layers before it, so it precedes
    /// the layer; every cel names a layer; the document stays within the
    /// caps of [`crate::limits`] (`within_limits`); and, when its canvas
    /// fits in memory, every frame can be flattened (`render_ready`).
    #[verifier::rlimit(100)]
    pub fn parse(data: &[u8]) -> (res: Result<AseFile, ParseError>)
        ensures
            match spec_parse_file(data@) {
                Ok(v) => res matches Ok(f) && f@ == v,
                Err(e) => res == Err::<AseFile, ParseError>(e),
            },
            res matches Ok(f) ==> parents_precede(f@.layers),
            res matches Ok(f) ==> f@.frames.len() == f.header.frames && f@.palettes.len()
                == f@.frames.len(),
            res matches Ok(f) ==> within_limits(f@),
            res matches Ok(f) ==> parents_resolved(f@.layers),
            res matches Ok(f) ==> forall|t: int|
                0 <= t < f@.frames.len() ==> (#[trigger] f@.frames[t]).duration_ms == frame_duration(
                    data@,
                    f.header,
                    t as nat,
                ),
            res matches Ok(f) ==> forall|t: int, c: int|
                0 <= t < f@.frames.len() && 0 <= c < f@.frames[t].cels.len() ==> (
                #[trigger] f@.frames[t].cels[c]).layer_index < f@.layers.len(),
            res matches Ok(f) ==> (f.header.width * f.header.height * 4 <= usize::MAX
                ==> render_ready(f@)),
    {
        let ghost s = data@;
        let mut r = Reader::new(data);
        let header = parse_header(&mut r)?;
        let ghost h = header;
        let mut w = Walk {
            layers: Vec::new(),
            frames: Vec::new(),
            cels: Vec::new(),
            last_cel: None,
            tags: Vec::new(),
            tilesets: Vec::new(),
            slices: Vec::new(),
            palette: Palette::default(),
            palettes: Vec::new(),
            user_data: UserData::default(),
            color_profile: None,
            external_files: Vec::new(),
            budget: InflateBudget::default(),
            seen_new_palette: false,
            target: UdTarget::Sprite,
        };
        assert(w@ =~= initial_walk()) by {
            assert(w@.layers =~= Seq::<LayerV>::empty());
            assert(w@.frames =~= Seq::<FrameV>::empty());
            assert(w@.cels =~= Seq::<CelV>::empty());
            assert(w@.tags =~= Seq::<TagV>::empty());
            assert(w@.tilesets =~= Seq::<TilesetV>::empty());
            assert(w@.slices =~= Seq::<SliceV>::empty());
            assert(w@.palettes =~= Seq::<Seq<[u8; 4]>>::empty());
            assert(w@.external_files =~= Seq::<(u32, u8, Seq<char>)>::empty());
        }
        let ghost total = walk_frames(s, h, initial_walk(), HEADER_SIZE as int, h.frames as int);
        let mut frame_start: usize = HEADER_SIZE;
        let mut fi: u16 = 0;
        while fi < header.frames
            invariant
                r.input() == s,
                s == data@,
                header == h,
                header_error(s, 0) is None,
                h == header_at(s, 0),
                total == walk_frames(s, h, initial_walk(), HEADER_SIZE as int, h.frames as int),
                fi <= h.frames,
                walk_wf(w@),
                walk_sound(w@, h.color_depth.bpp_bytes()),
                w@.frames.len() == fi,
                w@.cels.len() == 0,
                frame_start == frame_start_at(s, fi as nat),
                forall|t: int| 0 <= t < fi ==> (#[trigger] w@.frames[t]).duration_ms == frame_duration(s, h, t as nat),
                total == walk_frames(s, h, w@, frame_start as int, (h.frames - fi) as int),
            decreases h.frames - fi,
        {
            reveal(walk_frames);
            let ghost before = w@;
            let ghost start0 = frame_start;
            frame_start = parse_frame(&mut r, &header, frame_start, &mut w)?;
            proof {
                assert(frame_start_at(s, (fi + 1) as nat) == match spec_frame_header(s, start0 as int) {
                    Ok(fh) => start0 + fh.frame_bytes,
                    Err(_) => start0 as int,
                });
                assert forall|t: int| 0 <= t < fi + 1 implies (#[trigger] w@.frames[t]).duration_ms
                    == frame_duration(s, h, t as nat) by {
                    if t < fi {
                        assert(w@.frames[t] == before.frames[t]);
                    } else {
                        assert(w@.frames[t] == w@.frames.last());
                    }
                }
            }
            fi = fi + 1;
        }
        reveal(walk_frames);
        let ghost wv = w@;
        let file = AseFile {
            header,
            layers: w.layers,
            frames: w.frames,
            tags: w.tags,
            tilesets: w.tilesets,
            slices: w.slices,
            palettes: w.palettes,
            user_data: w.user_data,
            color_profile: w.color_profile,
            external_files: w.external_files,
        };
        proof {
            lemma_ready_file(wv, file@);
        }
        Ok(file)
    }
}

/// Index of the palette in effect for `frame` among `n` snapshots: the
/// frame's own, or the last one for frames past the end.
pub open spec fn palette_index(n: int, frame: int) -> int {
    if frame < n - 1 {
        frame
    } else {
        n - 1
    }
}

/// Whether layer `i` and all its ancestors are visible.
pub open spec fn visible_in_tree(layers: Seq<LayerV>, i: int) -> bool
    decreases i,
{
    if 0 <= i < layers.len() {
        layers[i].visible() && match layers[i].parent {
            Some(p) => if p < i {
                visible_in_tree(layers, p as int)
            } else {
                false
            },
            None => true,
        }
    } else {
        false
    }
}

/// The layer reached from layer `i` by following `n` parent links, if the
/// chain is that long.
pub open spec fn ancestor(layers: Seq<LayerV>, i: int, n: nat) -> Option<int>
    decreases n,
{
    if !(0 <= i < layers.len()) {
        None
    } else if n == 0 {
        Some(i)
    } else {
        match layers[i].parent {
            Some(p) => ancestor(layers, p as int, (n - 1) as nat),
            None => None,
        }
    }
}

/// The visibility flag of the `n`-th ancestor of layer `i` is set, or the
/// chain ends before it.
pub open spec fn ancestor_flag_set(layers: Seq<LayerV>, i: int, n: nat) -> bool {
    match ancestor(layers, i, n) {
        Some(j) => layers[j].flags % 2 == 1,
        None => true,
    }
}

/// A layer is visible in the tree exactly when its own visibility flag and
/// that of every ancestor (following parent links to the root) are set; in
/// particular a layer under a hidden parent is never visible in the tree.
pub proof fn lemma_visible_in_tree_ancestors(layers: Seq<LayerV>, i: int)
    requires
        parents_precede(layers),
        0 <= i < layers.len(),
    ensures
        visible_in_tree(layers, i) <==> (forall|n: nat| #[trigger] ancestor_flag_set(layers, i, n)),
        visible_in_tree(layers, i) ==> layers[i].flags % 2 == 1,
        layers[i].parent matches Some(p) ==> (visible_in_tree(layers, i) ==> layers[p as int].flags % 2 == 1),
    decreases i,
{
    assert(layers[i].parent matches Some(p) ==> p < i);
    assert(ancestor(layers, i, 0) == Some(i));
    match layers[i].parent {
        None => {
            if visible_in_tree(layers, i) {
                assert forall|n: nat| #[trigger] ancestor_flag_set(layers, i, n) by {
                    if n > 0 {
                        assert(ancestor(layers, i, n) is None);
                    }
                }
            } else {
                assert(!ancestor_flag_set(layers, i, 0));
            }
        },
        Some(p) => {
            let p = p as int;
            lemma_visible_in_tree_ancestors(layers, p);
            assert(ancestor(layers, p, 0) == Some(p));
            assert(ancestor(layers, i, 1) == ancestor(layers, p, 0));
            if visible_in_tree(layers, i) {
                assert forall|n: nat| #[trigger] ancestor_flag_set(layers, i, n) by {
                    assert(visible_in_tree(layers, p));
                    if n > 0 {
                        assert(ancestor(layers, i, n) == ancestor(layers, p, (n - 1) as nat));
                        assert(ancestor_flag_set(layers, p, (n - 1) as nat));
                    }
                }
            }
            if forall|n: nat| #[trigger] ancestor_flag_set(layers, i, n) {
                assert(ancestor_flag_set(layers, i, 0));
                assert forall|m: nat| #[trigger] ancestor_flag_set(layers, p, m) by {
                    assert(ancestor(layers, i, m + 1) == ancestor(layers, p, m));
                    assert(ancestor_flag_set(layers, i, m + 1));
                }
                assert(visible_in_tree(layers, i));
            }
        },
    }
}

impl AseFile {
    /// The palette in effect for a frame: a palette chunk in frame N changes
    /// the palette from frame N onward.
    pub fn palette_for(&self, frame: usize) -> (r: &Palette)
        requires
            self.palettes.len() > 0,
        ensures
            r@ == self@.palettes[palette_index(self.palettes.len() as int, frame as int)],
    {
        let last = self.palettes.len() - 1;
        let i = if frame < last { frame } else { last };
        &self.palettes[i]
    }

    /// A layer renders only if it and all its ancestors are visible.
    pub fn layer_visible_in_tree(&self, index: usize) -> (r: bool)
        requires
            index < self.layers.len(),
            parents_precede(self@.layers),
        ensures
            r == visible_in_tree(self@.layers, index as int),
    {
        let ghost ls = self@.layers;
        let mut i = index;
        loop
            invariant
                i < self.layers.len(),
                ls == self@.layers,
                parents_precede(ls),
                visible_in_tree(ls, index as int) == visible_in_tree(ls, i as int),
            decreases i,
        {
            let layer = &self.layers[i];
            assert(ls[i as int] == layer@);
            if !layer.is_visible() {
                return false;
            }
            match layer.parent {
                Some(p) => {
                    assert(ls[i as int].parent == Some(p));
                    i = p;
                },
                None => return true,
            }
        }
    }
}

} // verus!
