//! The document model: what a parsed `.aseprite` file is, independent of how
//! it is encoded. Parsing fills these in; compositing consumes them.
//!
//! Types holding only integers are their own mathematical model; the others
//! have a view that replaces `Vec` by `Seq` and `String` by `Seq<char>`.
//! Fractional quantities (16.16 fixed point, IEEE floats) are kept as their
//! raw stored bits.
use vstd::prelude::*;

verus! {

/// Color depth of the sprite. Determines the pixel encoding of every cel.
#[derive(Debug, Clone, Copy, PartialEq, Eq, Structural)]
pub enum ColorDepth {
    /// 32bpp: R, G, B, A bytes, straight alpha.
    Rgba,
    /// 16bpp: value byte then alpha byte.
    Grayscale,
    /// 8bpp: palette index.
    Indexed,
}

/// The depth a bits-per-pixel value names, if any.
pub open spec fn depth_of_bpp(bpp: u16) -> Option<ColorDepth> {
    if bpp == 32 {
        Some(ColorDepth::Rgba)
    } else if bpp == 16 {
        Some(ColorDepth::Grayscale)
    } else if bpp == 8 {
        Some(ColorDepth::Indexed)
    } else {
        None
    }
}

impl ColorDepth {
    /// Bytes one pixel occupies in this depth.
    pub open spec fn bpp_bytes(self) -> int {
        match self {
            ColorDepth::Rgba => 4,
            ColorDepth::Grayscale => 2,
            ColorDepth::Indexed => 1,
        }
    }

    /// 32, 16 and 8 bits per pixel name the three depths; anything else none.
    pub fn from_bpp(bpp: u16) -> (r: Option<Self>)
        ensures
            r == depth_of_bpp(bpp),
    {
        match bpp {
            32 => Some(ColorDepth::Rgba),
            16 => Some(ColorDepth::Grayscale),
            8 => Some(ColorDepth::Indexed),
            _ => None,
        }
    }

    /// Bytes one pixel occupies in this depth.
    pub fn bytes_per_pixel(self) -> (r: usize)
        ensures
            r == self.bpp_bytes(),
            1 <= r <= 4,
    {
        match self {
            ColorDepth::Rgba => 4,
            ColorDepth::Grayscale => 2,
            ColorDepth::Indexed => 1,
        }
    }
}

/// Parsed 128-byte file header, with the format's normalizations applied.
#[derive(Debug, Clone, Copy, PartialEq, Eq)]
pub struct Header {
    pub frames: u16,
    pub width: u16,
    pub height: u16,
    pub color_depth: ColorDepth,
    /// Raw header flags DWORD.
    pub flags: u32,
    /// Fallback duration for frames whose own duration field is 0.
    pub default_frame_duration_ms: u16,
    /// Transparent palette index; 0 for non-indexed sprites.
    pub transparent_index: u8,
    /// Number of palette colors; a stored 0 means 256.
    pub num_colors: u16,
    /// Pixel aspect ratio; (1, 1) when either stored byte is 0.
    pub pixel_ratio: (u8, u8),
    pub grid_x: i16,
    pub grid_y: i16,
    /// 0 means "no grid".
    pub grid_width: u16,
    pub grid_height: u16,
}

impl Header {
    /// Bit 0 of the flags.
    pub open spec fn opacity_flag(self) -> bool {
        self.flags % 2 == 1
    }

    /// Bit 1 of the flags.
    pub open spec fn group_blend_flag(self) -> bool {
        (self.flags / 2) % 2 == 1
    }

    /// Bit 2 of the flags.
    pub open spec fn uuid_flag(self) -> bool {
        (self.flags / 4) % 2 == 1
    }

    /// Bit 0: the layer chunks' opacity field is meaningful.
    pub fn layer_opacity_valid(&self) -> (r: bool)
        ensures
            r == self.opacity_flag(),
    {
        let f = self.flags;
        assert(f & 1 == f % 2) by (bit_vector);
        f & 1 != 0
    }

    /// Bit 1: group layers carry meaningful blend mode and opacity and are
    /// composited into their own buffer.
    pub fn group_blend_valid(&self) -> (r: bool)
        ensures
            r == self.group_blend_flag(),
    {
        let f = self.flags;
        assert((f & 2 != 0) == ((f / 2) % 2 == 1)) by (bit_vector);
        f & 2 != 0
    }

    /// Bit 2: layer chunks are followed by a 16-byte UUID.
    pub fn layers_have_uuid(&self) -> (r: bool)
        ensures
            r == self.uuid_flag(),
    {
        let f = self.flags;
        assert((f & 4 != 0) == ((f / 4) % 2 == 1)) by (bit_vector);
        f & 4 != 0
    }
}

/// Parsed 16-byte frame header, with the chunk-count rule resolved.
#[derive(Debug, Clone, Copy, PartialEq, Eq, Structural)]
pub struct FrameHeader {
    /// Total size of the frame in bytes, header included.
    pub frame_bytes: u32,
    /// Resolved chunk count.
    pub num_chunks: u32,
    /// This frame's duration; 0 in old files.
    pub duration_ms: u16,
}

/// Layer blend mode. Unknown values are preserved.
#[derive(Debug, Clone, Copy, PartialEq, Eq, Structural)]
pub enum BlendMode {
    Normal,
    Multiply,
    Screen,
    Overlay,
    Darken,
    Lighten,
    ColorDodge,
    ColorBurn,
    HardLight,
    SoftLight,
    Difference,
    Exclusion,
    HslHue,
    HslSaturation,
    HslColor,
    HslLuminosity,
    Addition,
    Subtract,
    Divide,
    Unknown(u16),
}

/// The blend mode a stored WORD names.
pub open spec fn blend_mode_of(v: u16) -> BlendMode {
    if v == 0 {
        BlendMode::Normal
    } else if v == 1 {
        BlendMode::Multiply
    } else if v == 2 {
        BlendMode::Screen
    } else if v == 3 {
        BlendMode::Overlay
    } else if v == 4 {
        BlendMode::Darken
    } else if v == 5 {
        BlendMode::Lighten
    } else if v == 6 {
        BlendMode::ColorDodge
    } else if v == 7 {
        BlendMode::ColorBurn
    } else if v == 8 {
        BlendMode::HardLight
    } else if v == 9 {
        BlendMode::SoftLight
    } else if v == 10 {
        BlendMode::Difference
    } else if v == 11 {
        BlendMode::Exclusion
    } else if v == 12 {
        BlendMode::HslHue
    } else if v == 13 {
        BlendMode::HslSaturation
    } else if v == 14 {
        BlendMode::HslColor
    } else if v == 15 {
        BlendMode::HslLuminosity
    } else if v == 16 {
        BlendMode::Addition
    } else if v == 17 {
        BlendMode::Subtract
    } else if v == 18 {
        BlendMode::Divide
    } else {
        BlendMode::Unknown(v)
    }
}

impl BlendMode {
    /// Decodes a stored blend mode; values past 18 become `Unknown`.
    pub fn from_u16(v: u16) -> (r: Self)
        ensures
            r == blend_mode_of(v),
    {
        match v {
            0 => BlendMode::Normal,
            1 => BlendMode::Multiply,
            2 => BlendMode::Screen,
            3 => BlendMode::Overlay,
            4 => BlendMode::Darken,
            5 => BlendMode::Lighten,
            6 => BlendMode::ColorDodge,
            7 => BlendMode::ColorBurn,
            8 => BlendMode::HardLight,
            9 => BlendMode::SoftLight,
            10 => BlendMode::Difference,
            11 => BlendMode::Exclusion,
            12 => BlendMode::HslHue,
            13 => BlendMode::HslSaturation,
            14 => BlendMode::HslColor,
            15 => BlendMode::HslLuminosity,
            16 => BlendMode::Addition,
            17 => BlendMode::Subtract,
            18 => BlendMode::Divide,
            other => BlendMode::Unknown(other),
        }
    }
}

/// Layer kind.
#[derive(Debug, Clone, Copy, PartialEq, Eq, Structural)]
pub enum LayerType {
    Image,
    Group,
    /// Carries the id of the tileset it draws from.
    Tilemap { tileset_index: u32 },
}

/// One layer. Layers are stored flat in file order; the index is exactly the
/// layer index cels reference.
#[derive(Debug)]
pub struct Layer {
    pub flags: u16,
    pub layer_type: LayerType,
    pub child_level: u16,
    pub blend_mode: BlendMode,
    /// Already normalized: 255 when the header says layer opacity is invalid.
    pub opacity: u8,
    pub name: String,
    /// Index of the parent group, derived from child levels.
    pub parent: Option<usize>,
    pub uuid: Option<[u8; 16]>,
    pub user_data: UserData,
}

/// Mathematical model of a [`Layer`].
pub struct LayerV {
    pub flags: u16,
    pub layer_type: LayerType,
    pub child_level: u16,
    pub blend_mode: BlendMode,
    pub opacity: u8,
    pub name: Seq<char>,
    pub parent: Option<usize>,
    pub uuid: Option<Seq<u8>>,
    pub user_data: UserDataV,
}

impl View for Layer {
    type V = LayerV;

    open spec fn view(&self) -> LayerV {
        LayerV {
            flags: self.flags,
            layer_type: self.layer_type,
            child_level: self.child_level,
            blend_mode: self.blend_mode,
            opacity: self.opacity,
            name: self.name@,
            parent: self.parent,
            uuid: match self.uuid {
                Some(u) => Some(u@),
                None => None,
            },
            user_data: self.user_data@,
        }
    }
}

impl LayerV {
    pub open spec fn visible(self) -> bool {
        self.flags % 2 == 1
    }

    pub open spec fn background(self) -> bool {
        (self.flags / 8) % 2 == 1
    }

    pub open spec fn reference(self) -> bool {
        (self.flags / 64) % 2 == 1
    }
}

impl Layer {
    /// Flag 1: visible.
    pub fn is_visible(&self) -> (r: bool)
        ensures
            r == self@.visible(),
    {
        let f = self.flags;
        assert((f & 1 != 0) == (f % 2 == 1)) by (bit_vector);
        f & 1 != 0
    }

    /// Flag 8: background layer.
    pub fn is_background(&self) -> (r: bool)
        ensures
            r == self@.background(),
    {
        let f = self.flags;
        assert((f & 8 != 0) == ((f / 8) % 2 == 1)) by (bit_vector);
        f & 8 != 0
    }

    /// Flag 64: reference layer (never rendered).
    pub fn is_reference(&self) -> (r: bool)
        ensures
            r == self@.reference(),
    {
        let f = self.flags;
        assert((f & 64 != 0) == ((f / 64) % 2 == 1)) by (bit_vector);
        f & 64 != 0
    }
}

/// Decoded image data of a cel: raw pixels in the sprite's color depth,
/// row-major, top-down.
#[derive(Debug, Clone)]
pub struct CelImage {
    pub width: u16,
    pub height: u16,
    pub pixels: Vec<u8>,
}

/// Decoded tilemap grid of a cel, tiles already split into index and flips.
#[derive(Debug, Clone)]
pub struct CelTilemap {
    pub width: u16,
    pub height: u16,
    pub tiles: Vec<Tile>,
}

/// One tilemap cell.
#[derive(Debug, Clone, Copy, PartialEq, Eq, Structural)]
pub struct Tile {
    pub index: u32,
    pub x_flip: bool,
    pub y_flip: bool,
    pub d_flip: bool,
}

/// What a cel holds.
#[derive(Debug, Clone)]
pub enum CelContent {
    Image(CelImage),
    /// Frame index holding the real image (same layer). Position and opacity
    /// of this cel still apply.
    Linked(u16),
    Tilemap(CelTilemap),
}

/// Mathematical model of a [`CelContent`].
pub enum CelContentV {
    Image { width: u16, height: u16, pixels: Seq<u8> },
    Linked(u16),
    Tilemap { width: u16, height: u16, tiles: Seq<Tile> },
}

impl View for CelContent {
    type V = CelContentV;

    open spec fn view(&self) -> CelContentV {
        match self {
            CelContent::Image(img) => CelContentV::Image {
                width: img.width,
                height: img.height,
                pixels: img.pixels@,
            },
            CelContent::Linked(f) => CelContentV::Linked(*f),
            CelContent::Tilemap(tm) => CelContentV::Tilemap {
                width: tm.width,
                height: tm.height,
                tiles: tm.tiles@,
            },
        }
    }
}

/// One cel.
#[derive(Debug)]
pub struct Cel {
    pub layer_index: usize,
    pub x: i16,
    pub y: i16,
    pub opacity: u8,
    pub z_index: i16,
    pub content: CelContent,
    pub extra: Option<CelExtra>,
    pub user_data: UserData,
}

/// Mathematical model of a [`Cel`].
pub struct CelV {
    pub layer_index: usize,
    pub x: i16,
    pub y: i16,
    pub opacity: u8,
    pub z_index: i16,
    pub content: CelContentV,
    pub extra: Option<CelExtra>,
    pub user_data: UserDataV,
}

impl View for Cel {
    type V = CelV;

    open spec fn view(&self) -> CelV {
        CelV {
            layer_index: self.layer_index,
            x: self.x,
            y: self.y,
            opacity: self.opacity,
            z_index: self.z_index,
            content: self.content@,
            extra: self.extra,
            user_data: self.user_data@,
        }
    }
}

/// Tag loop direction. Out-of-range stored values decode as `Forward`.
#[derive(Debug, Clone, Copy, PartialEq, Eq, Structural)]
pub enum AniDir {
    Forward,
    Reverse,
    PingPong,
    PingPongReverse,
}

/// An animation tag.
#[derive(Debug)]
pub struct Tag {
    /// Inclusive frame range, 0-based.
    pub from_frame: u16,
    pub to_frame: u16,
    pub direction: AniDir,
    /// 0 = unspecified (loops forever).
    pub repeat: u16,
    /// Deprecated in-chunk RGB.
    pub color: [u8; 3],
    pub name: String,
    /// User data attached by the chunks that follow the tags chunk.
    pub user_data: UserData,
}

/// Mathematical model of a [`Tag`].
pub struct TagV {
    pub from_frame: u16,
    pub to_frame: u16,
    pub direction: AniDir,
    pub repeat: u16,
    pub color: Seq<u8>,
    pub name: Seq<char>,
    pub user_data: UserDataV,
}

impl View for Tag {
    type V = TagV;

    open spec fn view(&self) -> TagV {
        TagV {
            from_frame: self.from_frame,
            to_frame: self.to_frame,
            direction: self.direction,
            repeat: self.repeat,
            color: self.color@,
            name: self.name@,
            user_data: self.user_data@,
        }
    }
}

/// One tileset.
#[derive(Debug)]
pub struct Tileset {
    pub id: u32,
    pub flags: u32,
    pub num_tiles: u32,
    pub tile_width: u16,
    pub tile_height: u16,
    pub base_index: i16,
    pub name: String,
    /// Decoded vertical strip: tile i occupies rows
    /// `[i*tile_height, (i+1)*tile_height)`. Absent for external tilesets.
    pub pixels: Option<Vec<u8>>,
    pub external: Option<(u32, u32)>,
    pub user_data: UserData,
    /// Per-tile user data, indexed by tile id.
    pub tile_user_data: Vec<UserData>,
}

/// Mathematical model of a [`Tileset`].
pub struct TilesetV {
    pub id: u32,
    pub flags: u32,
    pub num_tiles: u32,
    pub tile_width: u16,
    pub tile_height: u16,
    pub base_index: i16,
    pub name: Seq<char>,
    pub pixels: Option<Seq<u8>>,
    pub external: Option<(u32, u32)>,
    pub user_data: UserDataV,
    pub tile_user_data: Seq<UserDataV>,
}

impl View for Tileset {
    type V = TilesetV;

    open spec fn view(&self) -> TilesetV {
        TilesetV {
            id: self.id,
            flags: self.flags,
            num_tiles: self.num_tiles,
            tile_width: self.tile_width,
            tile_height: self.tile_height,
            base_index: self.base_index,
            name: self.name@,
            pixels: match self.pixels {
                Some(p) => Some(p@),
                None => None,
            },
            external: self.external,
            user_data: self.user_data@,
            tile_user_data: self.tile_user_data@.map_values(|u: UserData| u@),
        }
    }
}

impl TilesetV {
    /// Flag 4: tile id 0 is the empty tile.
    pub open spec fn zero_empty(self) -> bool {
        (self.flags / 4) % 2 == 1
    }
}

impl Tileset {
    /// Flag 4: tile id 0 is the empty tile.
    pub fn zero_is_empty(&self) -> (r: bool)
        ensures
            r == self@.zero_empty(),
    {
        let f = self.flags;
        assert((f & 4 != 0) == ((f / 4) % 2 == 1)) by (bit_vector);
        f & 4 != 0
    }
}

/// RGBA palette entries, straight alpha.
#[derive(Debug, Clone)]
pub struct Palette {
    pub entries: Vec<[u8; 4]>,
}

impl View for Palette {
    type V = Seq<[u8; 4]>;

    open spec fn view(&self) -> Seq<[u8; 4]> {
        self.entries@
    }
}

impl Default for Palette {
    fn default() -> (r: Self)
        ensures
            r@ == Seq::<[u8; 4]>::empty(),
    {
        Palette { entries: Vec::new() }
    }
}

/// A typed user-data property value. `Fixed` holds the raw 16.16 value,
/// `F32`/`F64` the raw IEEE bits.
#[derive(Debug, PartialEq)]
pub enum PropertyValue {
    Bool(bool),
    I8(i8),
    U8(u8),
    I16(i16),
    U16(u16),
    I32(i32),
    U32(u32),
    I64(i64),
    U64(u64),
    Fixed(i32),
    F32(u32),
    F64(u64),
    Str(String),
    Point(i32, i32),
    Size(i32, i32),
    Rect(i32, i32, i32, i32),
    Vector(Vec<PropertyValue>),
    PropMap(Vec<Property>),
    Uuid([u8; 16]),
}

/// One named property.
#[derive(Debug, PartialEq)]
pub struct Property {
    pub name: String,
    pub value: PropertyValue,
}

/// Ordered name/value pairs.
pub type Properties = Vec<Property>;

/// Mathematical model of a [`PropertyValue`].
pub enum PropertyValueV {
    Bool(bool),
    I8(i8),
    U8(u8),
    I16(i16),
    U16(u16),
    I32(i32),
    U32(u32),
    I64(i64),
    U64(u64),
    Fixed(i32),
    F32(u32),
    F64(u64),
    Str(Seq<char>),
    Point(i32, i32),
    Size(i32, i32),
    Rect(i32, i32, i32, i32),
    Vector(Seq<PropertyValueV>),
    PropMap(Seq<PropertyV>),
    Uuid(Seq<u8>),
}

/// Mathematical model of a [`Property`].
pub struct PropertyV {
    pub name: Seq<char>,
    pub value: PropertyValueV,
}

/// Property maps nest at most `n` levels deep in `v`: a map takes a level
/// and holds values at most `n - 1` deep; a vector's elements sit one level
/// down; other values hold no maps.
pub open spec fn nests_within(v: PropertyValueV, n: int) -> bool
    decreases v,
{
    match v {
        PropertyValueV::PropMap(ps) => n >= 1 && forall|i: int|
            0 <= i < ps.len() ==> nests_within(#[trigger] ps[i].value, n - 1),
        PropertyValueV::Vector(vs) => forall|i: int|
            0 <= i < vs.len() ==> nests_within(#[trigger] vs[i], n - 1),
        _ => true,
    }
}

/// Every property value of `ud`'s maps nests at most `n` levels deep.
pub open spec fn user_data_nests_within(ud: UserDataV, n: int) -> bool {
    forall|m: int, i: int|
        0 <= m < ud.maps.len() && 0 <= i < ud.maps[m].1.len() ==> nests_within(
            #[trigger] ud.maps[m].1[i].value,
            n,
        )
}

/// One properties map inside a user data chunk. Key 0 holds user
/// properties; other keys reference an external files entry.
#[derive(Debug, PartialEq)]
pub struct PropertiesMap {
    pub key: u32,
    pub properties: Properties,
}

/// User data attached to an object.
#[derive(Debug, PartialEq)]
pub struct UserData {
    pub text: Option<String>,
    pub color: Option<[u8; 4]>,
    pub maps: Vec<PropertiesMap>,
}

/// Mathematical model of a [`UserData`].
pub struct UserDataV {
    pub text: Option<Seq<char>>,
    pub color: Option<Seq<u8>>,
    pub maps: Seq<(u32, Seq<PropertyV>)>,
}

/// Model of a property value.
pub open spec fn value_view(v: PropertyValue) -> PropertyValueV
    decreases v,
{
    match v {
        PropertyValue::Bool(b) => PropertyValueV::Bool(b),
        PropertyValue::I8(x) => PropertyValueV::I8(x),
        PropertyValue::U8(x) => PropertyValueV::U8(x),
        PropertyValue::I16(x) => PropertyValueV::I16(x),
        PropertyValue::U16(x) => PropertyValueV::U16(x),
        PropertyValue::I32(x) => PropertyValueV::I32(x),
        PropertyValue::U32(x) => PropertyValueV::U32(x),
        PropertyValue::I64(x) => PropertyValueV::I64(x),
        PropertyValue::U64(x) => PropertyValueV::U64(x),
        PropertyValue::Fixed(x) => PropertyValueV::Fixed(x),
        PropertyValue::F32(x) => PropertyValueV::F32(x),
        PropertyValue::F64(x) => PropertyValueV::F64(x),
        PropertyValue::Str(s) => PropertyValueV::Str(s@),
        PropertyValue::Point(a, b) => PropertyValueV::Point(a, b),
        PropertyValue::Size(a, b) => PropertyValueV::Size(a, b),
        PropertyValue::Rect(a, b, c, d) => PropertyValueV::Rect(a, b, c, d),
        PropertyValue::Vector(vs) => PropertyValueV::Vector(
            Seq::new(
                vs@.len(),
                |i: int|
                    if 0 <= i < vs@.len() {
                        value_view(vs@[i])
                    } else {
                        PropertyValueV::Bool(false)
                    },
            ),
        ),
        PropertyValue::PropMap(ps) => PropertyValueV::PropMap(
            Seq::new(
                ps@.len(),
                |i: int|
                    PropertyV {
                        name: ps@[i].name@,
                        value: if 0 <= i < ps@.len() {
                            value_view(ps@[i].value)
                        } else {
                            PropertyValueV::Bool(false)
                        },
                    },
            ),
        ),
        PropertyValue::Uuid(u) => PropertyValueV::Uuid(u@),
    }
}

/// Model of a property list.
pub open spec fn props_view(ps: Seq<Property>) -> Seq<PropertyV> {
    Seq::new(ps.len(), |i: int| PropertyV { name: ps[i].name@, value: value_view(ps[i].value) })
}

impl View for UserData {
    type V = UserDataV;

    open spec fn view(&self) -> UserDataV {
        UserDataV {
            text: match self.text {
                Some(t) => Some(t@),
                None => None,
            },
            color: match self.color {
                Some(c) => Some(c@),
                None => None,
            },
            maps: Seq::new(
                self.maps@.len(),
                |i: int| (self.maps@[i].key, props_view(self.maps@[i].properties@)),
            ),
        }
    }
}

impl UserDataV {
    pub open spec fn empty() -> UserDataV {
        UserDataV { text: None, color: None, maps: Seq::empty() }
    }
}

impl Default for UserData {
    fn default() -> (r: Self)
        ensures
            r@ == UserDataV::empty(),
    {
        let r = UserData { text: None, color: None, maps: Vec::new() };
        assert(r@.maps =~= Seq::empty());
        r
    }
}

impl UserData {
    /// No text, no color and no property maps.
    pub fn is_empty(&self) -> (r: bool)
        ensures
            r == (self@.text is None && self@.color is None && self@.maps.len() == 0),
    {
        self.text.is_none() && self.color.is_none() && self.maps.len() == 0
    }
}

/// Cel extra chunk: precise subpixel bounds, as raw 16.16 fixed-point values.
#[derive(Debug, Clone, Copy, PartialEq, Eq, Structural)]
pub struct CelExtra {
    pub x: i32,
    pub y: i32,
    pub width: i32,
    pub height: i32,
}

/// Color profile chunk. `fixed_gamma` is the raw 16.16 value.
#[derive(Debug, Clone, PartialEq)]
pub enum ColorProfile {
    /// Old files: no profile recorded.
    NoProfile { fixed_gamma: Option<i32> },
    Srgb { fixed_gamma: Option<i32> },
    Icc { fixed_gamma: Option<i32>, data: Vec<u8> },
}

/// Mathematical model of a [`ColorProfile`].
pub enum ColorProfileV {
    NoProfile { fixed_gamma: Option<i32> },
    Srgb { fixed_gamma: Option<i32> },
    Icc { fixed_gamma: Option<i32>, data: Seq<u8> },
}

impl View for ColorProfile {
    type V = ColorProfileV;

    open spec fn view(&self) -> ColorProfileV {
        match self {
            ColorProfile::NoProfile { fixed_gamma } => ColorProfileV::NoProfile { fixed_gamma: *fixed_gamma },
            ColorProfile::Srgb { fixed_gamma } => ColorProfileV::Srgb { fixed_gamma: *fixed_gamma },
            ColorProfile::Icc { fixed_gamma, data } => ColorProfileV::Icc {
                fixed_gamma: *fixed_gamma,
                data: data@,
            },
        }
    }
}

/// External files chunk entry.
#[derive(Debug, Clone, PartialEq)]
pub struct ExternalFile {
    pub id: u32,
    /// 0=palette, 1=tileset, 2=properties extension, 3=tile-management extension.
    pub kind: u8,
    pub name: String,
}

impl View for ExternalFile {
    type V = (u32, u8, Seq<char>);

    open spec fn view(&self) -> (u32, u8, Seq<char>) {
        (self.id, self.kind, self.name@)
    }
}

/// One slice key: valid from `frame` until the next key.
#[derive(Debug, Clone, Copy, PartialEq, Eq)]
pub struct SliceKey {
    pub frame: u32,
    pub x: i32,
    pub y: i32,
    /// Zero width or height hides the slice from this frame on.
    pub width: u32,
    pub height: u32,
    /// 9-patch center rect, relative to the slice bounds.
    pub center: Option<(i32, i32, u32, u32)>,
    /// Pivot, relative to the slice origin.
    pub pivot: Option<(i32, i32)>,
}

/// A named slice with its keys.
#[derive(Debug)]
pub struct Slice {
    pub name: String,
    pub keys: Vec<SliceKey>,
    pub user_data: UserData,
}

/// Mathematical model of a [`Slice`].
pub struct SliceV {
    pub name: Seq<char>,
    pub keys: Seq<SliceKey>,
    pub user_data: UserDataV,
}

impl View for Slice {
    type V = SliceV;

    open spec fn view(&self) -> SliceV {
        SliceV { name: self.name@, keys: self.keys@, user_data: self.user_data@ }
    }
}

/// Index of the last key whose frame is at most `frame`, if any.
pub open spec fn last_key_at(keys: Seq<SliceKey>, frame: u32) -> Option<int>
    decreases keys.len(),
{
    if keys.len() == 0 {
        None
    } else if keys.last().frame <= frame {
        Some(keys.len() - 1)
    } else {
        last_key_at(keys.drop_last(), frame)
    }
}

impl Slice {
    /// The key in effect at `frame`: the last key (in stored order) that
    /// starts at or before it.
    pub fn key_for(&self, frame: u32) -> (r: Option<&SliceKey>)
        ensures
            match last_key_at(self.keys@, frame) {
                Some(i) => r == Some(&self.keys@[i]),
                None => r is None,
            },
    {
        let mut i = self.keys.len();
        assert(self.keys@.take(i as int) =~= self.keys@);
        while i > 0
            invariant
                i <= self.keys@.len(),
                last_key_at(self.keys@, frame) == last_key_at(self.keys@.take(i as int), frame),
            decreases i,
        {
            assert(self.keys@.take(i as int).drop_last() =~= self.keys@.take(i - 1));
            if self.keys[i - 1].frame <= frame {
                return Some(&self.keys[i - 1]);
            }
            i = i - 1;
        }
        None
    }
}

/// One frame: its duration and cels.
#[derive(Debug)]
pub struct Frame {
    /// Effective duration (frame value, or header default when 0).
    pub duration_ms: u16,
    pub cels: Vec<Cel>,
}

/// Mathematical model of a [`Frame`].
pub struct FrameV {
    pub duration_ms: u16,
    pub cels: Seq<CelV>,
}

impl View for Frame {
    type V = FrameV;

    open spec fn view(&self) -> FrameV {
        FrameV { duration_ms: self.duration_ms, cels: self.cels@.map_values(|c: Cel| c@) }
    }
}

} // verus!
