//! Frame atlas packing: trim transparent borders, dedup identical frames,
//! shelf-pack into pages. Offsets survive trimming: each placement records
//! where the trimmed rectangle sat in the untrimmed canvas.
use crate::composite::render::RgbaImage;
use vstd::arithmetic::div_mod::{lemma_fundamental_div_mod, lemma_fundamental_div_mod_converse};
use vstd::prelude::*;

verus! {

/// A trimmed frame's pixels plus its position in the source canvas.
pub struct Trimmed {
    pub width: u32,
    pub height: u32,
    /// Offset of the trimmed rectangle inside the untrimmed canvas.
    pub offset_x: u32,
    pub offset_y: u32,
    pub pixels: Vec<u8>,
}

/// Mathematical model of a [`Trimmed`].
pub struct TrimmedV {
    pub width: u32,
    pub height: u32,
    pub offset_x: u32,
    pub offset_y: u32,
    pub pixels: Seq<u8>,
}

impl View for Trimmed {
    type V = TrimmedV;

    open spec fn view(&self) -> TrimmedV {
        TrimmedV {
            width: self.width,
            height: self.height,
            offset_x: self.offset_x,
            offset_y: self.offset_y,
            pixels: self.pixels@,
        }
    }
}

/// Whether pixel (`x`, `y`) of an RGBA image `w` wide has nonzero alpha.
pub open spec fn opaque(px: Seq<u8>, w: int, x: int, y: int) -> bool {
    px[(y * w + x) * 4 + 3] != 0
}

/// Whether the image has a pixel with nonzero alpha.
pub open spec fn any_opaque(px: Seq<u8>, w: int, h: int) -> bool {
    exists|x: int, y: int| 0 <= x < w && 0 <= y < h && #[trigger] opaque(px, w, x, y)
}

/// `[x0, x1] x [y0, y1]` is the tight bounding box of the image's pixels
/// with nonzero alpha: it holds them all and each of its edges touches one.
pub open spec fn tight_box(px: Seq<u8>, w: int, h: int, x0: int, y0: int, x1: int, y1: int) -> bool {
    &&& 0 <= x0 <= x1 < w
    &&& 0 <= y0 <= y1 < h
    &&& forall|x: int, y: int|
        0 <= x < w && 0 <= y < h && #[trigger] opaque(px, w, x, y) ==> x0 <= x <= x1 && y0 <= y <= y1
    &&& exists|y: int| 0 <= y < h && #[trigger] opaque(px, w, x0, y)
    &&& exists|y: int| 0 <= y < h && #[trigger] opaque(px, w, x1, y)
    &&& exists|x: int| 0 <= x < w && #[trigger] opaque(px, w, x, y0)
    &&& exists|x: int| 0 <= x < w && #[trigger] opaque(px, w, x, y1)
}

/// The `tw` by `th` rectangle at (`x0`, `y0`) of an RGBA image `w` wide.
pub open spec fn crop(px: Seq<u8>, w: int, x0: int, y0: int, tw: int, th: int) -> Seq<u8> {
    Seq::new(
        (tw * th * 4) as nat,
        |k: int| px[((y0 + (k / 4) / tw) * w + x0 + (k / 4) % tw) * 4 + k % 4],
    )
}

/// The trimmed form of an image: its tight bounding box of non-transparent
/// pixels, or a 1x1 transparent rectangle when it has none.
pub open spec fn trims_to(t: TrimmedV, w: int, h: int, px: Seq<u8>) -> bool {
    if any_opaque(px, w, h) {
        &&& t.width >= 1
        &&& t.height >= 1
        &&& tight_box(
            px,
            w,
            h,
            t.offset_x as int,
            t.offset_y as int,
            t.offset_x + t.width - 1,
            t.offset_y + t.height - 1,
        )
        &&& t.pixels == crop(px, w, t.offset_x as int, t.offset_y as int, t.width as int, t.height as int)
    } else {
        t == TrimmedV { width: 1, height: 1, offset_x: 0, offset_y: 0, pixels: seq![0u8, 0u8, 0u8, 0u8] }
    }
}

proof fn lemma_split(q: int, d: int, r: int)
    requires
        0 < d,
        0 <= r < d,
    ensures
        (q * d + r) / d == q,
        (q * d + r) % d == r,
{
    lemma_fundamental_div_mod_converse(q * d + r, d, q, r);
}

proof fn lemma_mixed_radix(q: int, qn: int, d: int, r: int)
    requires
        0 <= q < qn,
        0 <= r < d,
    ensures
        0 <= q * d + r < qn * d,
        q * d + d <= qn * d,
{
    assert(0 <= q * d) by (nonlinear_arith)
        requires
            0 <= q,
            0 < d,
    ;
    assert((q + 1) * d <= qn * d) by (nonlinear_arith)
        requires
            q + 1 <= qn,
            0 < d,
    ;
    assert((q + 1) * d == q * d + d) by (nonlinear_arith);
}


/// Trimming keeps every pixel that is not fully transparent: each pixel
/// of the `w` by `h` image whose alpha byte is nonzero (any value from 1 to
/// 255) lies inside the trimmed rectangle, and the trimmed pixels hold its
/// four bytes at the same place relative to the offset. So an image with
/// such a pixel never trims to the blank 1x1 frame, and every pixel left
/// outside the rectangle has alpha 0.
pub proof fn lemma_trim_keeps_visible_pixels(t: TrimmedV, w: int, h: int, px: Seq<u8>, x: int, y: int, c: int)
    requires
        trims_to(t, w, h, px),
        0 <= x < w,
        0 <= y < h,
        0 <= c < 4,
        px[(y * w + x) * 4 + 3] != 0,
    ensures
        t.offset_x <= x < t.offset_x + t.width,
        t.offset_y <= y < t.offset_y + t.height,
        t.pixels[((y - t.offset_y) * t.width + (x - t.offset_x)) * 4 + c] == px[(y * w + x) * 4 + c],
        t.pixels[((y - t.offset_y) * t.width + (x - t.offset_x)) * 4 + 3] != 0,
{
    assert(opaque(px, w, x, y));
    assert(any_opaque(px, w, h));
    let tw = t.width as int;
    let th = t.height as int;
    let ox = t.offset_x as int;
    let oy = t.offset_y as int;
    let q = (y - oy) * tw + (x - ox);
    lemma_mixed_radix(y - oy, th, tw, x - ox);
    assert(0 <= q * 4 + c < tw * th * 4) by (nonlinear_arith)
        requires
            0 <= q < th * tw,
            0 <= c < 4,
    ;
    lemma_split(q, 4, c);
    lemma_split(y - oy, tw, x - ox);
    lemma_split(q, 4, 3);
    assert(t.pixels == crop(px, w, ox, oy, tw, th));
}

/// The trimmed form of an image (see [`trims_to`]; it is unique).
pub open spec fn trim_of(w: int, h: int, px: Seq<u8>) -> TrimmedV {
    choose|t: TrimmedV| trims_to(t, w, h, px)
}

proof fn lemma_tight_box_unique(px: Seq<u8>, w: int, h: int, a: (int, int, int, int), b: (int, int, int, int))
    requires
        tight_box(px, w, h, a.0, a.1, a.2, a.3),
        tight_box(px, w, h, b.0, b.1, b.2, b.3),
    ensures
        a == b,
{
    let y = choose|y: int| 0 <= y < h && #[trigger] opaque(px, w, b.0, y);
    let y2 = choose|y: int| 0 <= y < h && #[trigger] opaque(px, w, a.0, y);
    assert(a.0 <= b.0 && b.0 <= a.0);
    let y3 = choose|y: int| 0 <= y < h && #[trigger] opaque(px, w, b.2, y);
    let y4 = choose|y: int| 0 <= y < h && #[trigger] opaque(px, w, a.2, y);
    assert(a.2 <= b.2 && b.2 <= a.2);
    let x = choose|x: int| 0 <= x < w && #[trigger] opaque(px, w, x, b.1);
    let x2 = choose|x: int| 0 <= x < w && #[trigger] opaque(px, w, x, a.1);
    assert(a.1 <= b.1 && b.1 <= a.1);
    let x3 = choose|x: int| 0 <= x < w && #[trigger] opaque(px, w, x, b.3);
    let x4 = choose|x: int| 0 <= x < w && #[trigger] opaque(px, w, x, a.3);
    assert(a.3 <= b.3 && b.3 <= a.3);
}

/// An image has one trimmed form.
pub proof fn lemma_trim_unique(t: TrimmedV, w: int, h: int, px: Seq<u8>)
    requires
        trims_to(t, w, h, px),
    ensures
        t == trim_of(w, h, px),
{
    let c = trim_of(w, h, px);
    assert(trims_to(c, w, h, px));
    if any_opaque(px, w, h) {
        lemma_tight_box_unique(
            px,
            w,
            h,
            (t.offset_x as int, t.offset_y as int, t.offset_x + t.width - 1, t.offset_y + t.height - 1),
            (c.offset_x as int, c.offset_y as int, c.offset_x + c.width - 1, c.offset_y + c.height - 1),
        );
        assert(t.pixels =~= c.pixels);
    }
}

/// Whether pixel (`x`, `y`) comes before row `y1`, column `x1` in row-major
/// order.
pub open spec fn scanned(x: int, y: int, x1: int, y1: int) -> bool {
    y < y1 || (y == y1 && x < x1)
}

/// Tight bounding box of the non-transparent pixels. A fully transparent
/// frame becomes a 1x1 transparent rectangle so that downstream regions
/// stay valid.
pub fn trim(img: &RgbaImage) -> (t: Trimmed)
    requires
        img.width > 0,
        img.pixels@.len() >= img.width * img.height * 4,
    ensures
        trims_to(t@, img.width as int, img.height as int, img.pixels@),
{
    let ghost px = img.pixels@;
    let _plen = img.pixels.len();
    let w = img.width as usize;
    let h = img.height as usize;
    let ghost wi = w as int;
    let ghost hi = h as int;
    let mut min_x = w;
    let mut min_y = h;
    let mut max_x: usize = 0;
    let mut max_y: usize = 0;
    // Witnesses: an opaque pixel on each edge of the box found so far.
    let ghost mut at_min_x: int = 0;
    let ghost mut at_max_x: int = 0;
    let ghost mut at_min_y: int = 0;
    let ghost mut at_max_y: int = 0;
    let mut y: usize = 0;
    while y < h
        invariant
            y <= h,
            w == img.width,
            h == img.height,
            wi == w,
            hi == h,
            w > 0,
            px == img.pixels@,
            px.len() >= w * h * 4,
            px.len() <= usize::MAX,
            forall|a: int, b: int|
                0 <= a < w && 0 <= b < h && scanned(a, b, 0, y as int) && #[trigger] opaque(px, wi, a, b) ==> min_x
                    <= a <= max_x && min_y <= b <= max_y,
            (min_x <= max_x) == (exists|a: int, b: int|
                0 <= a < w && 0 <= b < h && scanned(a, b, 0, y as int) && #[trigger] opaque(px, wi, a, b)),
            min_x <= max_x ==> {
                &&& max_x < w && max_y < h && min_y <= max_y
                &&& 0 <= at_min_x < h && opaque(px, wi, min_x as int, at_min_x)
                &&& 0 <= at_max_x < h && opaque(px, wi, max_x as int, at_max_x)
                &&& 0 <= at_min_y < w && opaque(px, wi, at_min_y, min_y as int)
                &&& 0 <= at_max_y < w && opaque(px, wi, at_max_y, max_y as int)
            },
            !(min_x <= max_x) ==> min_x == w && min_y == h && max_x == 0 && max_y == 0,
        decreases h - y,
    {
        let mut x: usize = 0;
        while x < w
            invariant
                x <= w,
                y < h,
                w == img.width,
                h == img.height,
                wi == w,
                hi == h,
                w > 0,
                px == img.pixels@,
                px.len() >= w * h * 4,
                px.len() <= usize::MAX,
                forall|a: int, b: int|
                    0 <= a < w && 0 <= b < h && scanned(a, b, x as int, y as int) && #[trigger] opaque(px, wi, a, b)
                        ==> min_x <= a <= max_x && min_y <= b <= max_y,
                (min_x <= max_x) == (exists|a: int, b: int|
                    0 <= a < w && 0 <= b < h && scanned(a, b, x as int, y as int) && #[trigger] opaque(
                        px,
                        wi,
                        a,
                        b,
                    )),
                min_x <= max_x ==> {
                    &&& max_x < w && max_y < h && min_y <= max_y
                    &&& 0 <= at_min_x < h && opaque(px, wi, min_x as int, at_min_x)
                    &&& 0 <= at_max_x < h && opaque(px, wi, max_x as int, at_max_x)
                    &&& 0 <= at_min_y < w && opaque(px, wi, at_min_y, min_y as int)
                    &&& 0 <= at_max_y < w && opaque(px, wi, at_max_y, max_y as int)
                },
                !(min_x <= max_x) ==> min_x == w && min_y == h && max_x == 0 && max_y == 0,
            decreases w - x,
        {
            proof {
                lemma_mixed_radix(y as int, h as int, w as int, x as int);
                lemma_mixed_radix((y * w + x) as int, (h * w) as int, 4, 3);
                assert(h * w * 4 == w * h * 4) by (nonlinear_arith);
            }
            if img.pixels[(y * w + x) * 4 + 3] != 0 {
                assert(opaque(px, wi, x as int, y as int));
                let first = min_x > max_x;
                if first || x < min_x {
                    min_x = x;
                    proof {
                        at_min_x = y as int;
                    }
                }
                if first || y < min_y {
                    min_y = y;
                    proof {
                        at_min_y = x as int;
                    }
                }
                if first || x > max_x {
                    max_x = x;
                    proof {
                        at_max_x = y as int;
                    }
                }
                if first || y > max_y {
                    max_y = y;
                    proof {
                        at_max_y = x as int;
                    }
                }
            }
            x = x + 1;
        }
        y = y + 1;
    }
    if min_x > max_x {
        let t = Trimmed { width: 1, height: 1, offset_x: 0, offset_y: 0, pixels: vec![0u8, 0u8, 0u8, 0u8] };
        assert(t@.pixels =~= seq![0u8, 0u8, 0u8, 0u8]);
        return t;
    }
    let tw = max_x - min_x + 1;
    let th = max_y - min_y + 1;
    let mut pixels: Vec<u8> = Vec::new();
    let mut row: usize = 0;
    while row < th
        invariant
            row <= th,
            th == max_y - min_y + 1,
            tw == max_x - min_x + 1,
            min_x <= max_x < w,
            min_y <= max_y < h,
            w == img.width,
            h == img.height,
            wi == w,
            px == img.pixels@,
            px.len() >= w * h * 4,
            px.len() <= usize::MAX,
            pixels@ == crop(px, wi, min_x as int, min_y as int, tw as int, row as int),
        decreases th - row,
    {
        let yy = min_y + row;
        proof {
            lemma_mixed_radix(yy as int, h as int, w as int, max_x as int);
            lemma_mixed_radix((yy * w + max_x) as int, (h * w) as int, 4, 3);
            assert(h * w * 4 == w * h * 4) by (nonlinear_arith);
        }
        let start = (yy * w + min_x) * 4;
        let end = (yy * w + max_x + 1) * 4;
        let ghost before = pixels@;
        pixels.extend_from_slice(&img.pixels[start..end]);
        proof {
            assert(end - start == tw * 4);
            assert(tw * (row + 1) * 4 == tw * row * 4 + tw * 4) by (nonlinear_arith);
            assert forall|k: int| 0 <= k < (tw * (row + 1) * 4) implies #[trigger] pixels@[k] == crop(
                px,
                wi,
                min_x as int,
                min_y as int,
                tw as int,
                (row + 1) as int,
            )[k] by {
                assert(tw * (row + 1) * 4 == tw * row * 4 + tw * 4) by (nonlinear_arith);
                let q = k / 4;
                lemma_fundamental_div_mod(k, 4);
                lemma_fundamental_div_mod(q, tw as int);
                if k < tw * row * 4 {
                    assert(pixels@[k] == before[k]);
                } else {
                    let j = k - tw * row * 4;
                    assert(pixels@[k] == px[start + j]);
                    assert(q == row * tw + j / 4) by (nonlinear_arith)
                        requires
                            q == k / 4,
                            k == 4 * q + k % 4,
                            j == k - tw * row * 4,
                            0 <= k % 4 < 4,
                    {
                        lemma_fundamental_div_mod(j, 4);
                    }
                    lemma_split(row as int, tw as int, j / 4);
                    lemma_fundamental_div_mod(j, 4);
                    assert(start + j == ((min_y + row) * w + min_x + j / 4) * 4 + j % 4) by (nonlinear_arith)
                        requires
                            start == (yy * w + min_x) * 4,
                            yy == min_y + row,
                            j == 4 * (j / 4) + j % 4,
                    ;
                }
            }
            assert(pixels@ =~= crop(px, wi, min_x as int, min_y as int, tw as int, (row + 1) as int));
        }
        row = row + 1;
    }
    let t = Trimmed {
        width: tw as u32,
        height: th as u32,
        offset_x: min_x as u32,
        offset_y: min_y as u32,
        pixels,
    };
    t
}


/// Where a unique image landed in the atlas.
#[derive(Debug, Clone, Copy, PartialEq, Eq, Structural)]
pub struct Placement {
    /// Which page of the atlas holds this image.
    pub page: usize,
    pub x: u32,
    pub y: u32,
    pub width: u32,
    pub height: u32,
    pub offset_x: u32,
    pub offset_y: u32,
}

/// One texture page: RGBA8 pixels, row-major.
pub struct AtlasPage {
    pub width: u32,
    pub height: u32,
    pub pixels: Vec<u8>,
}

/// The packed atlas.
pub struct Atlas {
    pub pages: Vec<AtlasPage>,
    /// One placement per unique image.
    pub placements: Vec<Placement>,
    /// Maps each input frame to its placement index.
    pub frame_to_placement: Vec<usize>,
}

/// Index of the first entry of `u` at or after `i` equal to `t`.
pub open spec fn index_in(u: Seq<TrimmedV>, t: TrimmedV, i: int) -> Option<int>
    decreases u.len() - i,
{
    if i < 0 || i >= u.len() {
        None
    } else if u[i] == t {
        Some(i)
    } else {
        index_in(u, t, i + 1)
    }
}

/// The distinct trimmed images in first-seen order, and for each input the
/// index of its image among them.
pub open spec fn dedup(ts: Seq<TrimmedV>) -> (Seq<TrimmedV>, Seq<usize>)
    decreases ts.len(),
{
    if ts.len() == 0 {
        (Seq::empty(), Seq::empty())
    } else {
        let (u, m) = dedup(ts.drop_last());
        match index_in(u, ts.last(), 0) {
            Some(i) => (u, m.push(i as usize)),
            None => (u.push(ts.last()), m.push(u.len() as usize)),
        }
    }
}

/// A shelf entry: height, width, and index of a unique image.
pub type ShelfItem = (u32, u32, usize);

/// Shelf order: taller first, then wider.
pub open spec fn shelf_before(a: ShelfItem, b: ShelfItem) -> bool {
    a.0 > b.0 || (a.0 == b.0 && a.1 > b.1)
}

pub open spec fn insert_shelf(s: Seq<ShelfItem>, x: ShelfItem) -> Seq<ShelfItem>
    decreases s.len(),
{
    if s.len() == 0 {
        seq![x]
    } else if shelf_before(x, s.last()) {
        insert_shelf(s.drop_last(), x).push(s.last())
    } else {
        s.push(x)
    }
}

/// Stable sort into shelf order; images of equal size keep their order.
pub open spec fn sort_shelf(s: Seq<ShelfItem>) -> Seq<ShelfItem>
    decreases s.len(),
{
    if s.len() == 0 {
        s
    } else {
        insert_shelf(sort_shelf(s.drop_last()), s.last())
    }
}

/// Shelf entries of the unique images, in index order.
pub open spec fn shelf_items(u: Seq<TrimmedV>) -> Seq<ShelfItem> {
    Seq::new(u.len(), |i: int| (u[i].height, u[i].width, i as usize))
}

/// Sum of the padded areas of the images.
pub open spec fn area_sum(u: Seq<TrimmedV>, padding: int) -> int
    decreases u.len(),
{
    if u.len() == 0 {
        0
    } else {
        area_sum(u.drop_last(), padding) + (u.last().width + padding) * (u.last().height + padding)
    }
}

/// Widest image width; 1 when there are none.
pub open spec fn max_width(u: Seq<TrimmedV>) -> int
    decreases u.len(),
{
    if u.len() == 0 {
        1
    } else if u.len() == 1 {
        u[0].width as int
    } else {
        let m = max_width(u.drop_last());
        if u.last().width > m {
            u.last().width as int
        } else {
            m
        }
    }
}

/// `s` is the ceiling of the square root of `n`.
pub open spec fn is_ceil_sqrt(s: int, n: int) -> bool {
    &&& 0 <= s
    &&& s * s >= n
    &&& (s == 0 || (s - 1) * (s - 1) < n)
}

/// Page width: roughly square by total area, rounded up to a multiple of 4,
/// at least as wide as the widest image plus padding, at most `max_dim`.
pub open spec fn atlas_width(root: int, u: Seq<TrimmedV>, padding: int, max_dim: int) -> int {
    let rounded = (root + 3) / 4 * 4;
    let wide = max_width(u) + padding;
    let w = if rounded >= wide { rounded } else { wide };
    if w <= max_dim {
        w
    } else {
        max_dim
    }
}

/// State of the shelf filler: current page, pen position, shelf height,
/// used extent of each page, and the placements made so far.
pub struct ShelfV {
    pub page: int,
    pub cur_x: int,
    pub cur_y: int,
    pub shelf_h: int,
    pub dims: Seq<(int, int)>,
    pub placed: Seq<Placement>,
}

/// Places image `i`: a new shelf when it does not fit the shelf's width, a
/// new page when it does not fit below `max_dim`.
pub open spec fn shelf_step(st: ShelfV, t: TrimmedV, i: int, atlas_w: int, max_dim: int, padding: int) -> ShelfV {
    let wraps = st.cur_x + t.width > atlas_w;
    let cx = if wraps { 0 } else { st.cur_x };
    let cy = if wraps { st.cur_y + st.shelf_h } else { st.cur_y };
    let sh = if wraps { 0 } else { st.shelf_h };
    let breaks = cy + t.height > max_dim;
    let page = if breaks { st.page + 1 } else { st.page };
    let x = if breaks { 0 } else { cx };
    let y = if breaks { 0 } else { cy };
    let sh2 = if breaks { 0 } else { sh };
    let dims = if breaks { st.dims.push((0, 0)) } else { st.dims };
    let nx = x + t.width + padding;
    let d = dims[page];
    let nd = (if d.0 >= nx { d.0 } else { nx }, if d.1 >= y + t.height { d.1 } else { y + t.height });
    ShelfV {
        page,
        cur_x: nx,
        cur_y: y,
        shelf_h: if sh2 >= t.height + padding { sh2 } else { t.height + padding },
        dims: dims.update(page, nd),
        placed: st.placed.update(
            i,
            Placement {
                page: page as usize,
                x: x as u32,
                y: y as u32,
                width: t.width,
                height: t.height,
                offset_x: t.offset_x,
                offset_y: t.offset_y,
            },
        ),
    }
}

/// The filler's state after placing the first `k` images of `order`.
pub open spec fn shelf_fold(u: Seq<TrimmedV>, order: Seq<ShelfItem>, k: int, atlas_w: int, max_dim: int, padding: int) -> ShelfV
    decreases k,
{
    if k <= 0 {
        ShelfV {
            page: 0,
            cur_x: 0,
            cur_y: 0,
            shelf_h: 0,
            dims: seq![(0int, 0int)],
            placed: Seq::new(
                u.len(),
                |i: int| Placement { page: 0, x: 0, y: 0, width: 0, height: 0, offset_x: 0, offset_y: 0 },
            ),
        }
    } else {
        let i = order[k - 1].2 as int;
        shelf_step(shelf_fold(u, order, k - 1, atlas_w, max_dim, padding), u[i], i, atlas_w, max_dim, padding)
    }
}

/// Width of a page whose used extent is `d`: the extent less the trailing
/// padding, at least 1.
pub open spec fn page_width(d: (int, int), padding: int) -> int {
    if d.0 - padding >= 1 {
        d.0 - padding
    } else {
        1
    }
}

/// Height of a page whose used extent is `d`, at least 1.
pub open spec fn page_height(d: (int, int)) -> int {
    if d.1 >= 1 {
        d.1
    } else {
        1
    }
}

/// Page pixels `px` (`pw` wide) with image `t` copied in at placement `p`.
pub open spec fn blit(px: Seq<u8>, pw: int, p: Placement, t: TrimmedV) -> Seq<u8> {
    Seq::new(
        px.len(),
        |k: int|
            {
                let q = k / 4;
                let col = q % pw - p.x;
                let row = q / pw - p.y;
                if 0 <= col < t.width && 0 <= row < t.height {
                    t.pixels[(row * t.width + col) * 4 + k % 4]
                } else {
                    px[k]
                }
            },
    )
}

/// Model of a page: width, height, pixels.
pub type PageV = (int, int, Seq<u8>);

/// The pages with the first `n` unique images copied in, in index order.
pub open spec fn blit_all(pages: Seq<PageV>, u: Seq<TrimmedV>, placed: Seq<Placement>, n: int) -> Seq<PageV>
    decreases n,
{
    if n <= 0 {
        pages
    } else {
        let prev = blit_all(pages, u, placed, n - 1);
        let p = placed[n - 1];
        let pg = prev[p.page as int];
        prev.update(p.page as int, (pg.0, pg.1, blit(pg.2, pg.0, p, u[n - 1])))
    }
}

/// Blank pages sized from the used extents.
pub open spec fn blank_pages(dims: Seq<(int, int)>, padding: int) -> Seq<PageV> {
    Seq::new(
        dims.len(),
        |i: int|
            (
                page_width(dims[i], padding),
                page_height(dims[i]),
                Seq::new((page_width(dims[i], padding) * page_height(dims[i]) * 4) as nat, |k: int| 0u8),
            ),
    )
}


proof fn lemma_insert_shelf_keeps(s: Seq<ShelfItem>, x: ShelfItem, p: spec_fn(ShelfItem) -> bool)
    requires
        forall|i: int| 0 <= i < s.len() ==> p(#[trigger] s[i]),
        p(x),
    ensures
        insert_shelf(s, x).len() == s.len() + 1,
        forall|i: int| 0 <= i < insert_shelf(s, x).len() ==> p(#[trigger] insert_shelf(s, x)[i]),
        insert_shelf(s, x).contains(x),
        forall|i: int| 0 <= i < s.len() ==> insert_shelf(s, x).contains(#[trigger] s[i]),
    decreases s.len(),
{
    if s.len() == 0 {
        assert(seq![x][0] == x);
    } else if shelf_before(x, s.last()) {
        let t = insert_shelf(s.drop_last(), x);
        lemma_insert_shelf_keeps(s.drop_last(), x, p);
        assert forall|i: int| 0 <= i < t.push(s.last()).len() implies p(#[trigger] t.push(s.last())[i]) by {
            if i < t.len() {
                assert(t.push(s.last())[i] == t[i]);
            }
        }
        let j = choose|j: int| 0 <= j < t.len() && t[j] == x;
        assert(t.push(s.last())[j] == x);
        assert(t.push(s.last())[t.len() as int] == s.last());
        assert forall|i: int| 0 <= i < s.len() implies t.push(s.last()).contains(#[trigger] s[i]) by {
            if i < s.len() - 1 {
                assert(s.drop_last()[i] == s[i]);
                assert(t.contains(s.drop_last()[i]));
                let j2 = choose|j2: int| 0 <= j2 < t.len() && t[j2] == s[i];
                assert(t.push(s.last())[j2] == s[i]);
            }
        }
    } else {
        assert(s.push(x)[s.len() as int] == x);
        assert forall|i: int| 0 <= i < s.len() implies s.push(x).contains(#[trigger] s[i]) by {
            assert(s.push(x)[i] == s[i]);
        }
    }
}

/// Sorting into shelf order keeps the entries: each one stays, and every
/// property all of them have, the sorted ones have too.
proof fn lemma_sort_shelf_keeps(s: Seq<ShelfItem>, p: spec_fn(ShelfItem) -> bool)
    requires
        forall|i: int| 0 <= i < s.len() ==> p(#[trigger] s[i]),
    ensures
        sort_shelf(s).len() == s.len(),
        forall|i: int| 0 <= i < sort_shelf(s).len() ==> p(#[trigger] sort_shelf(s)[i]),
        forall|i: int| 0 <= i < s.len() ==> sort_shelf(s).contains(#[trigger] s[i]),
    decreases s.len(),
{
    if s.len() > 0 {
        let r = sort_shelf(s.drop_last());
        lemma_sort_shelf_keeps(s.drop_last(), p);
        lemma_insert_shelf_keeps(r, s.last(), p);
        assert forall|i: int| 0 <= i < s.len() implies sort_shelf(s).contains(#[trigger] s[i]) by {
            if i < s.len() - 1 {
                assert(s.drop_last()[i] == s[i]);
                let j = choose|j: int| 0 <= j < r.len() && r[j] == s[i];
                assert(insert_shelf(r, s.last()).contains(r[j]));
            }
        }
    }
}

/// Placement `p` of image `t` lies inside the used extent of its page.
pub open spec fn fits(p: Placement, t: TrimmedV, dims: Seq<(int, int)>, padding: int) -> bool {
    &&& p.page < dims.len()
    &&& p.width == t.width
    &&& p.height == t.height
    &&& p.offset_x == t.offset_x
    &&& p.offset_y == t.offset_y
    &&& p.x + t.width + padding <= dims[p.page as int].0
    &&& p.y + t.height <= dims[p.page as int].1
}

/// Every image's width and height plus the padding fit in a `u32`.
pub open spec fn pad_fits(u: Seq<TrimmedV>, padding: int) -> bool {
    forall|i: int| 0 <= i < u.len() ==> (#[trigger] u[i]).width + padding <= u32::MAX && u[i].height + padding <= u32::MAX
}

/// Placing `t` from state `st` forms only sums that fit in a `u32`: the
/// pen plus the width, the next shelf's top, the image's bottom, and the
/// pen after it and its padding.
pub open spec fn step_fits(st: ShelfV, t: TrimmedV, atlas_w: int, max_dim: int, padding: int) -> bool {
    let wraps = st.cur_x + t.width > atlas_w;
    let cy = if wraps { st.cur_y + st.shelf_h } else { st.cur_y };
    let breaks = cy + t.height > max_dim;
    let x = if wraps || breaks { 0 } else { st.cur_x };
    &&& st.cur_x + t.width <= u32::MAX
    &&& cy + t.height <= u32::MAX
    &&& x + t.width + padding <= u32::MAX
    &&& t.height + padding <= u32::MAX
}

/// The first `k` steps of the shelf filler stay within `u32` coordinates.
pub open spec fn fold_fits(u: Seq<TrimmedV>, order: Seq<ShelfItem>, k: int, atlas_w: int, max_dim: int, padding: int) -> bool
    decreases k,
{
    k <= 0 || (fold_fits(u, order, k - 1, atlas_w, max_dim, padding) && step_fits(
        shelf_fold(u, order, k - 1, atlas_w, max_dim, padding),
        u[order[k - 1].2 as int],
        atlas_w,
        max_dim,
        padding,
    ))
}

proof fn lemma_fold_fits_prefix(u: Seq<TrimmedV>, order: Seq<ShelfItem>, j: int, k: int, atlas_w: int, max_dim: int, padding: int)
    requires
        j <= k,
        fold_fits(u, order, k, atlas_w, max_dim, padding),
    ensures
        fold_fits(u, order, j, atlas_w, max_dim, padding),
    decreases k,
{
    if j < k && k > 0 {
        lemma_fold_fits_prefix(u, order, j, k - 1, atlas_w, max_dim, padding);
    }
}

/// When a step fits in `u32` coordinates, the placement it records holds
/// the exact pen position.
proof fn lemma_step_exact(st: ShelfV, t: TrimmedV, i: int, atlas_w: int, max_dim: int, padding: int)
    requires
        step_fits(st, t, atlas_w, max_dim, padding),
        0 <= st.cur_x,
        0 <= st.cur_y,
        0 <= st.shelf_h,
        0 <= padding,
        0 <= i < st.placed.len(),
    ensures
        ({
            let wraps = st.cur_x + t.width > atlas_w;
            let cy = if wraps { st.cur_y + st.shelf_h } else { st.cur_y };
            let breaks = cy + t.height > max_dim;
            let p = shelf_step(st, t, i, atlas_w, max_dim, padding).placed[i];
            &&& p.x == (if wraps || breaks { 0 } else { st.cur_x })
            &&& p.y == (if breaks { 0 } else { cy })
        }),
{
}

/// What the shelf filler keeps: the pen and the extents stay bounded, the
/// current page is the last one, and every image placed so far lies inside
/// its page.
proof fn lemma_shelf_fold(u: Seq<TrimmedV>, order: Seq<ShelfItem>, k: int, atlas_w: int, max_dim: int, padding: int)
    requires
        0 <= k <= order.len(),
        forall|j: int| 0 <= j < order.len() ==> (#[trigger] order[j]).2 < u.len(),
        order.len() <= usize::MAX,
        fold_fits(u, order, k, atlas_w, max_dim, padding),
        0 <= padding,
        0 <= atlas_w,
        0 <= max_dim,
    ensures
        ({
            let st = shelf_fold(u, order, k, atlas_w, max_dim, padding);
            &&& 0 <= st.cur_x <= u32::MAX
            &&& 0 <= st.cur_y <= u32::MAX
            &&& 0 <= st.shelf_h <= u32::MAX
            &&& st.dims.len() == st.page + 1
            &&& 0 <= st.page <= k
            &&& forall|j: int|
                0 <= j < st.dims.len() ==> 0 <= (#[trigger] st.dims[j]).0 <= u32::MAX && 0 <= st.dims[j].1
                    <= u32::MAX
            &&& st.placed.len() == u.len()
            &&& forall|j: int|
                0 <= j < k ==> fits(#[trigger] st.placed[order[j].2 as int], u[order[j].2 as int], st.dims, padding)
        }),
    decreases k,
{
    if k > 0 {
        lemma_shelf_fold(u, order, k - 1, atlas_w, max_dim, padding);
        let st = shelf_fold(u, order, k - 1, atlas_w, max_dim, padding);
        let i = order[k - 1].2 as int;
        let t = u[i];
        let next = shelf_fold(u, order, k, atlas_w, max_dim, padding);
        assert(next == shelf_step(st, t, i, atlas_w, max_dim, padding));
        assert(step_fits(st, t, atlas_w, max_dim, padding));
        lemma_step_exact(st, t, i, atlas_w, max_dim, padding);
        assert(next.dims.len() >= st.dims.len());
        assert forall|m: int| 0 <= m < st.dims.len() implies next.dims[m].0 >= st.dims[m].0 && next.dims[m].1
            >= st.dims[m].1 by {}
        assert(fits(next.placed[i], t, next.dims, padding));
        assert forall|j: int| 0 <= j < k implies fits(
            #[trigger] next.placed[order[j].2 as int],
            u[order[j].2 as int],
            next.dims,
            padding,
        ) by {
            let q = order[j].2 as int;
            if j < k - 1 && q != i {
                assert(next.placed[q] == st.placed[q]);
                assert(fits(st.placed[q], u[q], st.dims, padding));
                let pg = st.placed[q].page as int;
                assert(next.dims[pg].0 >= st.dims[pg].0);
            }
        }
    }
}


/// The ceiling of the square root of `n`.
pub open spec fn ceil_sqrt(n: int) -> int {
    choose|s: int| is_ceil_sqrt(s, n)
}

proof fn lemma_ceil_sqrt_unique(s: int, n: int)
    requires
        is_ceil_sqrt(s, n),
    ensures
        s == ceil_sqrt(n),
{
    let c = ceil_sqrt(n);
    assert(is_ceil_sqrt(c, n));
    if s < c {
        assert(s * s <= (c - 1) * (c - 1)) by (nonlinear_arith)
            requires
                0 <= s <= c - 1,
        ;
    } else if c < s {
        assert(c * c <= (s - 1) * (s - 1)) by (nonlinear_arith)
            requires
                0 <= c <= s - 1,
        ;
    }
}

/// Ceiling of the square root of `n`, by bisection.
fn ceil_sqrt_u64(n: u64) -> (s: u64)
    ensures
        s as int == ceil_sqrt(n as int),
        s <= 0x1_0000_0000,
{
    let mut lo: u64 = 0;
    let mut hi: u64 = 0x1_0000_0000;
    assert(hi * hi == 0x1_0000_0000_0000_0000);
    while lo < hi
        invariant
            lo <= hi <= 0x1_0000_0000,
            hi * hi >= n,
            lo == 0 || (lo - 1) * (lo - 1) < n,
        decreases hi - lo,
    {
        let mid = lo + (hi - lo) / 2;
        assert(mid * mid <= 0xFFFF_FFFF_0000_0001) by (nonlinear_arith)
            requires
                mid < 0x1_0000_0000,
        ;
        if (mid as u128) * (mid as u128) >= n as u128 {
            hi = mid;
        } else {
            lo = mid + 1;
        }
    }
    proof {
        lemma_ceil_sqrt_unique(lo as int, n as int);
    }
    lo
}

pub open spec fn trims_view(v: Seq<Trimmed>) -> Seq<TrimmedV> {
    v.map_values(|t: Trimmed| t@)
}

/// Whether two trimmed images are identical.
fn same_trim(a: &Trimmed, b: &Trimmed) -> (r: bool)
    ensures
        r == (a@ == b@),
{
    if a.width != b.width || a.height != b.height || a.offset_x != b.offset_x || a.offset_y != b.offset_y
        || a.pixels.len() != b.pixels.len() {
        return false;
    }
    let mut i: usize = 0;
    while i < a.pixels.len()
        invariant
            i <= a.pixels.len(),
            a.pixels.len() == b.pixels.len(),
            forall|j: int| 0 <= j < i ==> a.pixels@[j] == b.pixels@[j],
        decreases a.pixels.len() - i,
    {
        if a.pixels[i] != b.pixels[i] {
            return false;
        }
        i = i + 1;
    }
    assert(a.pixels@ =~= b.pixels@);
    true
}

fn insert_shelf_exec(v: &mut Vec<ShelfItem>, x: ShelfItem)
    ensures
        final(v)@ == insert_shelf(old(v)@, x),
{
    let ghost s = v@;
    let mut j = v.len();
    while j > 0 && (x.0 > v[j - 1].0 || (x.0 == v[j - 1].0 && x.1 > v[j - 1].1))
        invariant
            j <= v.len(),
            v@ == s,
            forall|i: int| j <= i < s.len() ==> shelf_before(x, #[trigger] s[i]),
        decreases j,
    {
        j = j - 1;
    }
    proof {
        lemma_insert_shelf_at(s, x, j as int);
    }
    v.insert(j, x);
    assert(v@ =~= s.take(j as int).push(x) + s.skip(j as int));
}

proof fn lemma_insert_shelf_at(s: Seq<ShelfItem>, x: ShelfItem, j: int)
    requires
        0 <= j <= s.len(),
        forall|i: int| j <= i < s.len() ==> shelf_before(x, #[trigger] s[i]),
        j > 0 ==> !shelf_before(x, s[j - 1]),
    ensures
        insert_shelf(s, x) == s.take(j).push(x) + s.skip(j),
    decreases s.len(),
{
    if s.len() == 0 {
        assert(s.take(j).push(x) + s.skip(j) =~= seq![x]);
    } else if j == s.len() {
        assert(s.take(j).push(x) + s.skip(j) =~= s.push(x));
    } else {
        lemma_insert_shelf_at(s.drop_last(), x, j);
        assert(s.drop_last().take(j).push(x) + s.drop_last().skip(j) + seq![s.last()] =~= s.take(j).push(x)
            + s.skip(j));
    }
}


/// Byte `k` of a page `pw` pixels wide lies at byte `c` of row `r` of the
/// rectangle at (`x`, `y`) exactly when `k` is that byte's index.
proof fn lemma_rect_byte(k: int, pw: int, x: int, y: int, r: int, c: int, w: int)
    requires
        0 < pw,
        0 <= k,
        0 <= x,
        0 <= y,
        0 <= r,
        0 <= c < w * 4,
        x + w <= pw,
    ensures
        (k / 4 / pw - y == r && (k / 4 % pw - x) * 4 + k % 4 == c && 0 <= k / 4 % pw - x) <==> k == ((y + r)
            * pw + x) * 4 + c,
{
    let q = k / 4;
    lemma_fundamental_div_mod(k, 4);
    lemma_fundamental_div_mod(q, pw);
    lemma_fundamental_div_mod(c, 4);
    assert(c / 4 < w) by (nonlinear_arith)
        requires
            0 <= c < w * 4,
    ;
    if k == ((y + r) * pw + x) * 4 + c {
        assert(k == ((y + r) * pw + x + c / 4) * 4 + c % 4) by (nonlinear_arith)
            requires
                k == ((y + r) * pw + x) * 4 + c,
                c == 4 * (c / 4) + c % 4,
        ;
        lemma_split((y + r) * pw + x + c / 4, 4, c % 4);
        lemma_split(y + r, pw, x + c / 4);
    }
    if k / 4 / pw - y == r && (k / 4 % pw - x) * 4 + k % 4 == c && 0 <= k / 4 % pw - x {
        assert(k == ((y + r) * pw + x) * 4 + c) by (nonlinear_arith)
            requires
                k == 4 * q + k % 4,
                q == pw * (q / pw) + q % pw,
                q / pw == y + r,
                (q % pw - x) * 4 + k % 4 == c,
        ;
    }
}

/// Copies image `t` into page pixels `px` (`pw` wide) at placement `p`.
fn blit_into(px: &mut Vec<u8>, pw: usize, p: Placement, t: &Trimmed)
    requires
        pw > 0,
        p.width == t.width,
        p.height == t.height,
        p.x + t.width <= pw,
        (p.y + t.height) * pw * 4 <= old(px)@.len(),
        t.pixels@.len() == t.width * t.height * 4,
    ensures
        final(px)@ == blit(old(px)@, pw as int, p, t@),
{
    let ghost orig = px@;
    let ghost tp = t.pixels@;
    let _plen = px.len();
    let _tlen = t.pixels.len();
    let w = t.width as usize;
    let h = t.height as usize;
    let x = p.x as usize;
    let y = p.y as usize;
    let ghost goal = blit(orig, pw as int, p, t@);
    let ghost pwi = pw as int;
    assert(y + h <= (y + h) * pw * 4) by (nonlinear_arith)
        requires
            pw >= 1,
            y + h >= 0,
    ;
    let mut row: usize = 0;
    while row < h
        invariant
            row <= h,
            px@.len() == orig.len(),
            orig.len() <= usize::MAX,
            w == t.width,
            h == t.height,
            x == p.x,
            y == p.y,
            pw > 0,
            x + w <= pw,
            (y + h) * pw * 4 <= orig.len(),
            tp == t.pixels@,
            tp.len() == w * h * 4,
            tp.len() <= usize::MAX,
            y + h <= orig.len(),
            goal == blit(orig, pw as int, p, t@),
            pwi == pw,
            forall|k: int|
                0 <= k < orig.len() ==> #[trigger] px@[k] == if 0 <= k / 4 / pwi - y < row && 0 <= k / 4 % pwi - x
                    < w {
                    goal[k]
                } else {
                    orig[k]
                },
        decreases h - row,
    {
        let mut c: usize = 0;
        proof {
            assert((y + row) * pw * 4 + pw * 4 <= (y + h) * pw * 4) by (nonlinear_arith)
                requires
                    row < h,
            ;
            assert(row * w * 4 + w * 4 <= w * h * 4) by (nonlinear_arith)
                requires
                    row < h,
            ;
        }
        while c < w * 4
            invariant
                c <= w * 4,
                row < h,
                px@.len() == orig.len(),
                orig.len() <= usize::MAX,
                w == t.width,
                h == t.height,
                x == p.x,
                y == p.y,
                pw > 0,
                x + w <= pw,
                (y + row) * pw * 4 + pw * 4 <= orig.len(),
                row * w * 4 + w * 4 <= w * h * 4,
                tp.len() <= usize::MAX,
                y + h <= orig.len(),
                tp == t.pixels@,
                tp.len() == w * h * 4,
                goal == blit(orig, pw as int, p, t@),
                pwi == pw,
                forall|k: int|
                    0 <= k < orig.len() ==> #[trigger] px@[k] == if 0 <= k / 4 % pwi - x < w && (0 <= k / 4 / pwi - y
                        < row || (k / 4 / pwi - y == row && (k / 4 % pwi - x) * 4 + k % 4 < c)) {
                        goal[k]
                    } else {
                        orig[k]
                    },
            decreases w * 4 - c,
        {
            assert((y + row) * pw <= (y + row) * pw * 4) by (nonlinear_arith)
                requires
                    y + row >= 0,
                    pw >= 0,
            ;
            assert(row * w <= row * w * 4) by (nonlinear_arith)
                requires
                    row >= 0,
                    w >= 0,
            ;
            let dst = ((y + row) * pw + x) * 4 + c;
            let src = row * w * 4 + c;
            let b = t.pixels[src];
            let ghost before = px@;
            px.set(dst, b);
            proof {
                assert forall|k: int| 0 <= k < orig.len() implies #[trigger] px@[k] == if 0 <= k / 4 % pwi - x < w && (
                0 <= k / 4 / pwi - y < row || (k / 4 / pwi - y == row && (k / 4 % pwi - x) * 4 + k % 4 < c + 1)) {
                    goal[k]
                } else {
                    orig[k]
                } by {
                    lemma_rect_byte(k, pw as int, x as int, y as int, row as int, c as int, w as int);
                    if k == dst {
                        let q = k / 4;
                        lemma_fundamental_div_mod(k, 4);
                        lemma_fundamental_div_mod(q, pwi);
                        assert(goal[k] == tp[((q / pwi - y) * w + q % pwi - x) * 4 + k % 4]);
                        assert(((q / pwi - y) * w + q % pwi - x) * 4 + k % 4 == row * w * 4 + (q % pwi - x) * 4 + k % 4)
                            by (nonlinear_arith)
                            requires
                                q / pwi - y == row,
                        ;
                    }
                }
            }
            c = c + 1;
        }
        proof {
            assert forall|k: int| 0 <= k < orig.len() implies #[trigger] px@[k] == if 0 <= k / 4 / pwi - y < row + 1
                && 0 <= k / 4 % pwi - x < w {
                goal[k]
            } else {
                orig[k]
            } by {
                lemma_fundamental_div_mod(k, 4);
            }
        }
        row = row + 1;
    }
    assert(px@ =~= goal);
}


proof fn lemma_index_in(u: Seq<TrimmedV>, t: TrimmedV, i: int)
    ensures
        index_in(u, t, i) matches Some(j) ==> 0 <= j < u.len() && u[j] == t,
        index_in(u, t, i) is None && 0 <= i ==> forall|j: int| i <= j < u.len() ==> u[j] != t,
    decreases u.len() - i,
{
    if 0 <= i < u.len() && u[i] != t {
        lemma_index_in(u, t, i + 1);
    }
}

/// Deduplication keeps only input images, in first-seen order, and maps each
/// input to an identical kept image.
pub proof fn lemma_dedup(ts: Seq<TrimmedV>)
    requires
        ts.len() <= usize::MAX,
    ensures
        dedup(ts).0.len() <= ts.len(),
        dedup(ts).1.len() == ts.len(),
        forall|i: int|
            0 <= i < ts.len() ==> (#[trigger] dedup(ts).1[i]) < dedup(ts).0.len() && dedup(ts).0[dedup(ts).1[i] as int]
                == ts[i],
        forall|j: int| 0 <= j < dedup(ts).0.len() ==> exists|i: int| 0 <= i < ts.len() && ts[i] == #[trigger] dedup(ts).0[j],
        forall|a: int, b: int|
            0 <= a < b < dedup(ts).0.len() ==> #[trigger] dedup(ts).0[a] != #[trigger] dedup(ts).0[b],
    decreases ts.len(),
{
    if ts.len() > 0 {
        let prev = ts.drop_last();
        lemma_dedup(prev);
        let (u, m) = dedup(prev);
        lemma_index_in(u, ts.last(), 0);
        let (u2, m2) = dedup(ts);
        assert forall|i: int| 0 <= i < ts.len() implies (#[trigger] m2[i]) < u2.len() && u2[m2[i] as int] == ts[i] by {
            if i < ts.len() - 1 {
                assert(prev[i] == ts[i]);
                assert(m2[i] == m[i]);
            }
        }
        assert forall|a: int, b: int| 0 <= a < b < u2.len() implies #[trigger] u2[a] != #[trigger] u2[b] by {
            if b == u.len() {
                assert(u2[b] == ts.last());
                assert(u2[a] == u[a]);
            } else {
                assert(u2[a] == u[a] && u2[b] == u[b]);
            }
        }
        assert forall|j: int| 0 <= j < u2.len() implies exists|i: int| 0 <= i < ts.len() && ts[i] == #[trigger] u2[j] by {
            if j < u.len() {
                let i = choose|i: int| 0 <= i < prev.len() && prev[i] == u[j];
                assert(ts[i] == u2[j]);
            } else {
                assert(ts[ts.len() - 1] == u2[j]);
            }
        }
    }
}

/// Dedup of a prefix numbers the prefix's inputs as dedup of the whole
/// does.
proof fn lemma_dedup_prefix(ts: Seq<TrimmedV>, n: int, f: int)
    requires
        0 <= f < n <= ts.len(),
        ts.len() <= usize::MAX,
    ensures
        dedup(ts).1[f] == dedup(ts.take(n)).1[f],
    decreases ts.len(),
{
    if n == ts.len() {
        assert(ts.take(n) =~= ts);
    } else {
        lemma_dedup_prefix(ts.drop_last(), n, f);
        assert(ts.drop_last().take(n) =~= ts.take(n));
        let (u, m) = dedup(ts.drop_last());
        lemma_dedup(ts.drop_last());
        assert(dedup(ts).1[f] == m[f]);
    }
}

/// Distinct images are numbered in first-seen order: an input whose image
/// has not appeared before gets the number of distinct images before it.
pub proof fn lemma_dedup_first_seen(ts: Seq<TrimmedV>, f: int)
    requires
        0 <= f < ts.len(),
        ts.len() <= usize::MAX,
        forall|g: int| 0 <= g < f ==> ts[g] != ts[f],
    ensures
        dedup(ts).1[f] == dedup(ts.take(f)).0.len(),
{
    lemma_dedup_prefix(ts, f + 1, f);
    let t1 = ts.take(f + 1);
    assert(t1.drop_last() =~= ts.take(f));
    assert(t1.last() == ts[f]);
    let (u, m) = dedup(ts.take(f));
    lemma_dedup(ts.take(f));
    lemma_index_in(u, ts[f], 0);
    if let Some(j) = index_in(u, ts[f], 0) {
        let i = choose|i: int| 0 <= i < ts.take(f).len() && ts.take(f)[i] == #[trigger] u[j];
        assert(ts[i] == ts[f]);
    }
}

/// A trimmed image is no larger than its frame, and holds its pixels.
proof fn lemma_trim_size(t: TrimmedV, w: int, h: int, px: Seq<u8>)
    requires
        trims_to(t, w, h, px),
        w >= 1,
        h >= 0,
    ensures
        1 <= t.width <= w,
        1 <= t.height,
        t.height <= h || t.height == 1,
        t.pixels.len() == t.width * t.height * 4,
{
    assert(t.width * t.height * 4 >= 0) by (nonlinear_arith)
        requires
            t.width >= 0,
            t.height >= 0,
    ;
    if any_opaque(px, w, h) {
        let n: int = t.width * t.height * 4;
        assert(n >= 0);
        assert(t.pixels == crop(px, w, t.offset_x as int, t.offset_y as int, t.width as int, t.height as int));
        assert(t.pixels.len() == n as nat);
        assert(t.pixels.len() == n);
    } else {
        assert(t.width == 1 && t.height == 1);
        assert(t.pixels == seq![0u8, 0u8, 0u8, 0u8]);
        assert(seq![0u8, 0u8, 0u8, 0u8].len() == 4);
    }
}


/// A frame [`pack`] takes: at least one pixel wide, holding its pixels.
pub open spec fn frame_ok(f: RgbaImage) -> bool {
    &&& 1 <= f.width
    &&& f.pixels@.len() >= f.width * f.height * 4
}

/// The trimmed forms of the frames.
pub open spec fn frame_trims(frames: Seq<RgbaImage>) -> Seq<TrimmedV> {
    Seq::new(frames.len(), |i: int| trim_of(frames[i].width as int, frames[i].height as int, frames[i].pixels@))
}

/// The packing of trimmed images: the distinct images, the map from input
/// to distinct image, the shelf order, the page width, and the filler's
/// final state.
pub open spec fn layout(ts: Seq<TrimmedV>, padding: int, max_dim: int) -> (
    Seq<TrimmedV>,
    Seq<usize>,
    Seq<ShelfItem>,
    int,
    ShelfV,
) {
    let u = dedup(ts).0;
    let order = sort_shelf(shelf_items(u));
    let aw = atlas_width(ceil_sqrt(area_sum(u, padding)), u, padding, max_dim);
    (u, dedup(ts).1, order, aw, shelf_fold(u, order, order.len() as int, aw, max_dim, padding))
}

/// Every page buffer's size fits in memory.
pub open spec fn pages_fit(dims: Seq<(int, int)>, padding: int) -> bool {
    forall|j: int| 0 <= j < dims.len() ==> page_width(#[trigger] dims[j], padding) * page_height(dims[j]) * 4 <= usize::MAX
}

/// What packing `ts` needs of the machine: each image's sides plus the
/// padding, the padded total area (a `u64`), every coordinate the shelf
/// filler forms (a `u32`), and every page buffer fit.
pub open spec fn pack_fits(ts: Seq<TrimmedV>, padding: int, max_dim: int) -> bool {
    let (u, m, order, aw, st) = layout(ts, padding, max_dim);
    &&& pad_fits(u, padding)
    &&& area_sum(u, padding) <= u64::MAX
    &&& fold_fits(u, order, order.len() as int, aw, max_dim, padding)
    &&& pages_fit(st.dims, padding)
}

pub open spec fn pages_view(pages: Seq<AtlasPage>) -> Seq<PageV> {
    pages.map_values(|p: AtlasPage| (p.width as int, p.height as int, p.pixels@))
}

pub open spec fn dims_view(d: Seq<(u64, u64)>) -> Seq<(int, int)> {
    d.map_values(|e: (u64, u64)| (e.0 as int, e.1 as int))
}

/// The padded area of a prefix of the images is at most the whole sum.
proof fn lemma_area_prefix(u: Seq<TrimmedV>, padding: int, k: int)
    requires
        0 <= k <= u.len(),
        0 <= padding,
    ensures
        0 <= area_sum(u.take(k), padding) <= area_sum(u, padding),
    decreases u.len(),
{
    if k == u.len() {
        assert(u.take(k) =~= u);
        lemma_area_nonneg(u, padding);
    } else {
        lemma_area_prefix(u.drop_last(), padding, k);
        assert(u.drop_last().take(k) =~= u.take(k));
        let t = u.last();
        assert(0 <= (t.width + padding) * (t.height + padding)) by (nonlinear_arith)
            requires
                0 <= t.width + padding,
                0 <= t.height + padding,
        ;
    }
}

proof fn lemma_area_nonneg(u: Seq<TrimmedV>, padding: int)
    requires
        0 <= padding,
    ensures
        0 <= area_sum(u, padding),
    decreases u.len(),
{
    if u.len() > 0 {
        lemma_area_nonneg(u.drop_last(), padding);
        let t = u.last();
        assert(0 <= (t.width + padding) * (t.height + padding)) by (nonlinear_arith)
            requires
                0 <= t.width + padding,
                0 <= t.height + padding,
        ;
    }
}

proof fn lemma_max_width_bound(u: Seq<TrimmedV>)
    ensures
        0 <= max_width(u) <= u32::MAX,
    decreases u.len(),
{
    if u.len() > 1 {
        lemma_max_width_bound(u.drop_last());
    }
}

/// Packs frames into atlas pages no larger than `max_dim` on either side
/// (when every frame fits in that size). Identical trimmed frames share one
/// placement, in first-seen order; images go onto shelves tallest first;
/// `padding` pixels of transparent space separate placements. The page
/// width starts from the exact integer ceiling of the square root of the
/// padded total area. Frames must be at least one pixel wide, and the
/// layout must fit the machine (`pack_fits`): 32-bit coordinates, a 64-bit
/// area, and page buffers that fit in memory.
#[verifier::rlimit(50)]
#[verifier::spinoff_prover]
pub fn pack(frames: &[RgbaImage], padding: u32, max_dim: u32) -> (a: Atlas)
    requires
        forall|i: int| 0 <= i < frames@.len() ==> frame_ok(#[trigger] frames@[i]),
        pack_fits(frame_trims(frames@), padding as int, max_dim as int),
    ensures
        packed(frames@, padding as int, max_dim as int, a),
        forall|f: int|
            0 <= f < frames@.len() ==> trims_to(
                #[trigger] frame_trims(frames@)[f],
                frames@[f].width as int,
                frames@[f].height as int,
                frames@[f].pixels@,
            ),
        a.frame_to_placement@.len() == frames@.len(),
        forall|f: int|
            0 <= f < frames@.len() ==> {
                &&& (#[trigger] a.frame_to_placement@[f]) < a.placements@.len()
                &&& a.placements@[a.frame_to_placement@[f] as int].page < a.pages@.len()
                &&& shows(pages_view(a.pages@), a.placements@[a.frame_to_placement@[f] as int], frame_trims(frames@)[f])
            },
        a.placements@.len() == dedup(frame_trims(frames@)).0.len(),
        forall|f: int|
            0 <= f < frames@.len() ==> {
                let p = a.placements@[#[trigger] a.frame_to_placement@[f] as int];
                let t = frame_trims(frames@)[f];
                &&& p.width == t.width && p.height == t.height
                &&& p.offset_x == t.offset_x && p.offset_y == t.offset_y
            },
        forall|f: int, g: int|
            0 <= f < frames@.len() && 0 <= g < frames@.len() ==> (#[trigger] a.frame_to_placement@[f]
                == #[trigger] a.frame_to_placement@[g] <==> frame_trims(frames@)[f] == frame_trims(frames@)[g]),
        forall|f: int|
            0 <= f < frames@.len() && (forall|g: int| 0 <= g < f ==> frame_trims(frames@)[g] != frame_trims(frames@)[f])
                ==> #[trigger] a.frame_to_placement@[f] == dedup(frame_trims(frames@).take(f)).0.len(),
        forall|q1: int, q2: int|
            0 <= q1 < a.placements@.len() && 0 <= q2 < a.placements@.len() && q1 != q2 ==> apart(
                #[trigger] a.placements@[q1],
                #[trigger] a.placements@[q2],
                padding as int,
            ),
        forall|q: int|
            0 <= q < a.placements@.len() ==> {
                let p = #[trigger] a.placements@[q];
                &&& p.page < a.pages@.len()
                &&& p.x + p.width <= a.pages@[p.page as int].width
                &&& p.y + p.height <= a.pages@[p.page as int].height
            },
        a.pages@.len() >= 1,
        forall|j: int|
            0 <= j < a.pages@.len() ==> (#[trigger] a.pages@[j]).width >= 1 && a.pages@[j].height >= 1
                && a.pages@[j].pixels@.len() == a.pages@[j].width * a.pages@[j].height * 4,
        forall|j: int, k: int|
            0 <= j < a.pages@.len() && 0 <= k < a.pages@[j].pixels@.len() && (forall|q: int|
                0 <= q < a.placements@.len() ==> (#[trigger] a.placements@[q]).page != j || !covers(
                    a.placements@[q],
                    a.pages@[j].width as int,
                    k,
                )) ==> #[trigger] a.pages@[j].pixels@[k] == 0,
        (1 <= max_dim && forall|f: int|
            0 <= f < frames@.len() ==> (#[trigger] frame_trims(frames@)[f]).width <= max_dim && frame_trims(
                frames@,
            )[f].height <= max_dim) ==> forall|j: int|
            0 <= j < a.pages@.len() ==> (#[trigger] a.pages@[j]).width <= max_dim && a.pages@[j].height <= max_dim,
{
    let ghost ts = frame_trims(frames@);
    // Dedup identical trimmed frames, first-seen order.
    let mut unique: Vec<Trimmed> = Vec::new();
    let mut frame_to_placement: Vec<usize> = Vec::new();
    let mut i: usize = 0;
    while i < frames.len()
        invariant
            i <= frames@.len(),
            forall|j: int| 0 <= j < frames@.len() ==> frame_ok(#[trigger] frames@[j]),
            ts == frame_trims(frames@),
            (trims_view(unique@), frame_to_placement@) == dedup(ts.take(i as int)),
            forall|j: int|
                0 <= j < i ==> trims_to(
                    #[trigger] ts[j],
                    frames@[j].width as int,
                    frames@[j].height as int,
                    frames@[j].pixels@,
                ),
        decreases frames@.len() - i,
    {
        let t = trim(&frames[i]);
        proof {
            lemma_trim_unique(t@, frames@[i as int].width as int, frames@[i as int].height as int, frames@[i as int].pixels@);
            assert(ts.take(i + 1).drop_last() =~= ts.take(i as int));
            assert(ts.take(i + 1).last() == t@);
        }
        let ghost uv = trims_view(unique@);
        let mut j: usize = 0;
        while j < unique.len() && !same_trim(&unique[j], &t)
            invariant
                j <= unique.len(),
                uv == trims_view(unique@),
                index_in(uv, t@, 0) == index_in(uv, t@, j as int),
            decreases unique.len() - j,
        {
            j = j + 1;
        }
        if j < unique.len() {
            frame_to_placement.push(j);
        } else {
            frame_to_placement.push(unique.len());
            unique.push(t);
            assert(trims_view(unique@) =~= uv.push(t@));
        }
        i = i + 1;
    }
    let ghost u = trims_view(unique@);
    assert(ts.take(frames@.len() as int) =~= ts);
    proof {
        lemma_dedup(ts);
        assert forall|k: int| 0 <= k < u.len() implies (#[trigger] u[k]).width >= 1
            && u[k].pixels.len() == u[k].width * u[k].height * 4 by {
            let f = choose|f: int| 0 <= f < ts.len() && ts[f] == u[k];
            let fr = frames@[f];
            assert(frame_ok(fr));
            assert(trims_to(ts[f], fr.width as int, fr.height as int, fr.pixels@));
            lemma_trim_size(ts[f], fr.width as int, fr.height as int, fr.pixels@);
        }
    }
    // Shelf order: tallest first, then widest, stable.
    let mut order: Vec<ShelfItem> = Vec::new();
    let mut k: usize = 0;
    while k < unique.len()
        invariant
            k <= unique.len(),
            u == trims_view(unique@),
            order@ == sort_shelf(shelf_items(u).take(k as int)),
        decreases unique.len() - k,
    {
        assert(shelf_items(u).take(k + 1).drop_last() =~= shelf_items(u).take(k as int));
        insert_shelf_exec(&mut order, (unique[k].height, unique[k].width, k));
        k = k + 1;
    }
    assert(shelf_items(u).take(unique.len() as int) =~= shelf_items(u));
    proof {
        lemma_sort_shelf_keeps(shelf_items(u), |e: ShelfItem| e.2 < u.len());
    }
    // Page width from the total padded area.
    let ghost lay = layout(ts, padding as int, max_dim as int);
    proof {
        lemma_dedup(ts);
        assert(lay.0 == u);
    }
    let mut total: u64 = 0;
    let mut widest: u32 = 1;
    let mut k: usize = 0;
    while k < unique.len()
        invariant
            k <= unique.len(),
            u == trims_view(unique@),
            pad_fits(u, padding as int),
            area_sum(u, padding as int) <= u64::MAX,
            total == area_sum(u.take(k as int), padding as int),
            widest == max_width(u.take(k as int)),
        decreases unique.len() - k,
    {
        let t = &unique[k];
        assert(u[k as int] == t@);
        assert(u.take(k + 1).drop_last() =~= u.take(k as int));
        proof {
            lemma_area_prefix(u, padding as int, k + 1);
        }
        assert(u.take(k + 1).last() == t@);
        assert((t.width + padding) * (t.height + padding) <= u64::MAX) by (nonlinear_arith)
            requires
                0 <= t.width + padding <= u32::MAX,
                0 <= t.height + padding <= u32::MAX,
        ;
        let term = (t.width as u64 + padding as u64) * (t.height as u64 + padding as u64);
        total = total + term;
        if k == 0 || t.width > widest {
            widest = t.width;
        }
        k = k + 1;
    }
    assert(u.take(unique.len() as int) =~= u);
    let root = ceil_sqrt_u64(total);
    let rounded = (root + 3) / 4 * 4;
    let wide = widest as u64 + padding as u64;
    let w0 = if rounded >= wide { rounded } else { wide };
    let atlas_w: u64 = if w0 <= max_dim as u64 { w0 } else { max_dim as u64 };
    assert(atlas_w == atlas_width(ceil_sqrt(area_sum(u, padding as int)), u, padding as int, max_dim as int));
    // Shelf-fill pages; a shelf that would pass max_dim starts a new page.
    let ghost aw = atlas_w as int;
    let ghost ord = order@;
    let mut placements: Vec<Placement> = Vec::new();
    let mut k: usize = 0;
    while k < unique.len()
        invariant
            k <= unique.len(),
            placements@.len() == k,
            forall|j: int|
                0 <= j < k ==> #[trigger] placements@[j] == (Placement {
                    page: 0,
                    x: 0,
                    y: 0,
                    width: 0,
                    height: 0,
                    offset_x: 0,
                    offset_y: 0,
                }),
        decreases unique.len() - k,
    {
        placements.push(Placement { page: 0, x: 0, y: 0, width: 0, height: 0, offset_x: 0, offset_y: 0 });
        k = k + 1;
    }
    let mut dims: Vec<(u64, u64)> = vec![(0u64, 0u64)];
    let mut page: usize = 0;
    let mut cur_x: u64 = 0;
    let mut cur_y: u64 = 0;
    let mut shelf_h: u64 = 0;
    proof {
        let st0 = shelf_fold(u, ord, 0, aw, max_dim as int, padding as int);
        assert(placements@ =~= st0.placed);
        assert(dims_view(dims@) =~= st0.dims);
    }
    let mut n: usize = 0;
    while n < order.len()
        invariant
            n <= order.len(),
            ord == order@,
            order@.len() == u.len(),
            u == trims_view(unique@),
            fold_fits(u, ord, ord.len() as int, aw, max_dim as int, padding as int),
            aw == atlas_w,
            atlas_w <= max_dim,
            forall|j: int| 0 <= j < order@.len() ==> (#[trigger] order@[j]).2 < u.len(),
            ({
                let st = shelf_fold(u, ord, n as int, aw, max_dim as int, padding as int);
                &&& st.page == page
                &&& st.cur_x == cur_x
                &&& st.cur_y == cur_y
                &&& st.shelf_h == shelf_h
                &&& st.dims == dims_view(dims@)
                &&& st.placed == placements@
            }),
        decreases order.len() - n,
    {
        proof {
            lemma_fold_fits_prefix(u, ord, n + 1, ord.len() as int, aw, max_dim as int, padding as int);
            lemma_fold_fits_prefix(u, ord, n as int, ord.len() as int, aw, max_dim as int, padding as int);
            lemma_shelf_fold(u, ord, n as int, aw, max_dim as int, padding as int);
        }
        let idx = order[n].2;
        let t = &unique[idx];
        assert(u[idx as int] == t@);
        let ghost st = shelf_fold(u, ord, n as int, aw, max_dim as int, padding as int);
        if cur_x + t.width as u64 > atlas_w {
            cur_y = cur_y + shelf_h;
            cur_x = 0;
            shelf_h = 0;
        }
        if cur_y + t.height as u64 > max_dim as u64 {
            page = page + 1;
            dims.push((0, 0));
            cur_x = 0;
            cur_y = 0;
            shelf_h = 0;
        }
        placements.set(
            idx,
            Placement {
                page,
                x: cur_x as u32,
                y: cur_y as u32,
                width: t.width,
                height: t.height,
                offset_x: t.offset_x,
                offset_y: t.offset_y,
            },
        );
        cur_x = cur_x + t.width as u64 + padding as u64;
        let sh = t.height as u64 + padding as u64;
        if sh > shelf_h {
            shelf_h = sh;
        }
        let d = dims[page];
        let nd = (if d.0 >= cur_x { d.0 } else { cur_x }, if d.1 >= cur_y + t.height as u64 {
            d.1
        } else {
            cur_y + t.height as u64
        });
        dims.set(page, nd);
        proof {
            let next = shelf_fold(u, ord, n + 1, aw, max_dim as int, padding as int);
            assert(next == shelf_step(st, u[idx as int], idx as int, aw, max_dim as int, padding as int));
            assert(dims_view(dims@) =~= next.dims);
            assert(placements@ =~= next.placed);
        }
        n = n + 1;
    }
    let ghost st = shelf_fold(u, ord, ord.len() as int, aw, max_dim as int, padding as int);
    proof {
        lemma_shelf_fold(u, ord, ord.len() as int, aw, max_dim as int, padding as int);
    }
    // Blank pages, then every unique image copied in, in index order.
    let mut pages: Vec<AtlasPage> = Vec::new();
    let mut k: usize = 0;
    while k < dims.len()
        invariant
            k <= dims.len(),
            st.dims == dims_view(dims@),
            pages_fit(st.dims, padding as int),
            forall|j: int| 0 <= j < st.dims.len() ==> 0 <= (#[trigger] st.dims[j]).0 <= u32::MAX && 0 <= st.dims[j].1 <= u32::MAX,
            pages_view(pages@) == blank_pages(st.dims, padding as int).take(k as int),
            pages@.len() == k,
        decreases dims.len() - k,
    {
        let d = dims[k];
        assert(st.dims[k as int] == (d.0 as int, d.1 as int));
        let width: u64 = if d.0 >= padding as u64 + 1 { d.0 - padding as u64 } else { 1 };
        let height: u64 = if d.1 >= 1 { d.1 } else { 1 };
        assert(width * height * 4 <= usize::MAX);
        let px: Vec<u8> = vec![0u8; (width * height * 4) as usize];
        let ghost bp = blank_pages(st.dims, padding as int);
        assert(px@ =~= bp[k as int].2);
        let ghost before = pages@;
        pages.push(AtlasPage { width: width as u32, height: height as u32, pixels: px });
        assert(pages_view(pages@)[k as int] == bp[k as int]);
        assert forall|j: int| 0 <= j < k implies pages_view(pages@)[j] == bp.take(k + 1)[j] by {
            assert(pages@[j] == before[j]);
            assert(pages_view(before)[j] == bp.take(k as int)[j]);
        }
        assert(pages_view(pages@) =~= bp.take(k + 1));
        k = k + 1;
    }
    assert(blank_pages(st.dims, padding as int).take(dims.len() as int) =~= blank_pages(st.dims, padding as int));
    let ghost blank = blank_pages(st.dims, padding as int);
    assert forall|j: int| 0 <= j < pages@.len() implies {
        &&& (#[trigger] pages@[j]).width == page_width(st.dims[j], padding as int)
        &&& pages@[j].height == page_height(st.dims[j])
        &&& pages@[j].pixels@.len() == pages@[j].width * pages@[j].height * 4
    } by {
        assert(pages_view(pages@)[j] == blank[j]);
        assert(page_width(st.dims[j], padding as int) * page_height(st.dims[j]) * 4 >= 0) by (nonlinear_arith)
            requires
                page_width(st.dims[j], padding as int) >= 1,
                page_height(st.dims[j]) >= 1,
        ;
    }
    proof {
        assert forall|q: int| 0 <= q < u.len() implies fits(#[trigger] st.placed[q], u[q], st.dims, padding as int) by {
            assert(shelf_items(u)[q] == (u[q].height, u[q].width, q as usize));
            assert(ord.contains(shelf_items(u)[q]));
            let j = choose|j: int| 0 <= j < ord.len() && ord[j] == shelf_items(u)[q];
            assert(ord[j].2 == q);
        }
    }
    let mut k: usize = 0;
    while k < unique.len()
        invariant
            k <= unique.len(),
            u == trims_view(unique@),
            placements@ == st.placed,
            st.placed.len() == u.len(),
            forall|q: int| 0 <= q < u.len() ==> fits(#[trigger] st.placed[q], u[q], st.dims, padding as int),
            forall|q: int| 0 <= q < u.len() ==> (#[trigger] u[q]).pixels.len() == u[q].width * u[q].height * 4,
            pages@.len() == st.dims.len(),
            pages_view(pages@) == blit_all(blank, u, st.placed, k as int),
            forall|j: int|
                0 <= j < pages@.len() ==> {
                    &&& (#[trigger] pages@[j]).width == page_width(st.dims[j], padding as int)
                    &&& pages@[j].height == page_height(st.dims[j])
                    &&& pages@[j].pixels@.len() == pages@[j].width * pages@[j].height * 4
                },
        decreases unique.len() - k,
    {
        let p = placements[k];
        assert(u[k as int] == unique[k as int]@);
        assert(fits(st.placed[k as int], u[k as int], st.dims, padding as int));
        let ghost before = pages@;
        let mut pg = pages.remove(p.page);
        assert(pg == before[p.page as int]);
        assert((p.y + p.height) * pg.width * 4 <= pg.height * pg.width * 4) by (nonlinear_arith)
            requires
                p.y + p.height <= pg.height,
                pg.width >= 0,
        ;
        assert(pg.height * pg.width * 4 == pg.width * pg.height * 4) by (nonlinear_arith);
        blit_into(&mut pg.pixels, pg.width as usize, p, &unique[k]);
        pages.insert(p.page, pg);
        proof {
            assert(pages@.len() == st.dims.len());
            let prev = blit_all(blank, u, st.placed, k as int);
            assert(blit_all(blank, u, st.placed, k + 1) == prev.update(
                p.page as int,
                (prev[p.page as int].0, prev[p.page as int].1, blit(prev[p.page as int].2, prev[p.page as int].0, p, u[k as int])),
            ));
            assert(pages_view(pages@) =~= blit_all(blank, u, st.placed, k + 1));
        }
        k = k + 1;
    }
    proof {
        assert(placeable(ts)) by {
            assert forall|f: int| 0 <= f < ts.len() implies {
                &&& 1 <= (#[trigger] ts[f]).width
                &&& ts[f].pixels.len() == ts[f].width * ts[f].height * 4
            } by {
                let fr = frames@[f];
                assert(frame_ok(fr));
                lemma_trim_size(ts[f], fr.width as int, fr.height as int, fr.pixels@);
            }
        }
        lemma_pack_lossless(ts, padding as int, max_dim as int);
        lemma_dedup(ts);
        let lay = layout(ts, padding as int, max_dim as int);
        assert(lay.0 == u && lay.1 == frame_to_placement@ && lay.4 == st);
        assert forall|f: int| 0 <= f < frames@.len() implies {
            &&& (#[trigger] frame_to_placement@[f]) < placements@.len()
            &&& placements@[frame_to_placement@[f] as int].page < pages@.len()
            &&& shows(pages_view(pages@), placements@[frame_to_placement@[f] as int], frame_trims(frames@)[f])
        } by {
            assert(frame_to_placement@[f] < u.len());
            assert(fits(st.placed[frame_to_placement@[f] as int], u[frame_to_placement@[f] as int], st.dims, padding as int));
        }
        lemma_blit_all_shows_sizes(blank, u, st.placed, u.len() as int);
        lemma_pack_layout(ts, padding as int, max_dim as int);
        lemma_pack_dedup(frames@, padding as int, max_dim as int);
        let pv = blit_all(blank, u, st.placed, u.len() as int);
        assert(pages_view(pages@) == pv);
        assert forall|j: int| 0 <= j < pages@.len() implies pages@[j].width as int == pv[j].0 && pages@[j].height as int
            == pv[j].1 && #[trigger] pages@[j].pixels@ == pv[j].2 by {
            assert(pages_view(pages@)[j] == pv[j]);
        }
        assert forall|f: int|
            0 <= f < frames@.len() && (forall|g: int| 0 <= g < f ==> ts[g] != ts[f]) implies #[trigger] frame_to_placement@[f]
            == dedup(ts.take(f)).0.len() by {
            lemma_dedup_first_seen(ts, f);
        }
        assert forall|q: int| 0 <= q < placements@.len() implies {
            let p = #[trigger] placements@[q];
            &&& p.page < pages@.len()
            &&& p.x + p.width <= pages@[p.page as int].width
            &&& p.y + p.height <= pages@[p.page as int].height
        } by {
            assert(pages@[placements@[q].page as int].pixels@ == pv[placements@[q].page as int].2);
        }
        assert forall|j: int| 0 <= j < pages@.len() implies (#[trigger] pages@[j]).width >= 1 && pages@[j].height >= 1
            && pages@[j].pixels@.len() == pages@[j].width * pages@[j].height * 4 by {
            assert(pages@[j].pixels@ == pv[j].2);
        }
        assert forall|j: int, k: int|
            0 <= j < pages@.len() && 0 <= k < pages@[j].pixels@.len() && (forall|q: int|
                0 <= q < placements@.len() ==> (#[trigger] placements@[q]).page != j || !covers(
                    placements@[q],
                    pages@[j].width as int,
                    k,
                )) implies #[trigger] pages@[j].pixels@[k] == 0 by {
            assert(pages@[j].pixels@ == pv[j].2);
            assert(pv[j].2[k] == 0);
        }
        if 1 <= max_dim && forall|f: int| 0 <= f < frames@.len() ==> (#[trigger] ts[f]).width <= max_dim && ts[f].height
            <= max_dim {
            assert forall|j: int| 0 <= j < pages@.len() implies (#[trigger] pages@[j]).width <= max_dim
                && pages@[j].height <= max_dim by {
                assert(pages@[j].pixels@ == pv[j].2);
            }
        }
    }
    Atlas { pages, placements, frame_to_placement }
}


/// Frames share a placement exactly when their trimmed images are
/// identical; every frame maps to a placement.
pub proof fn lemma_pack_dedup(frames: Seq<RgbaImage>, padding: int, max_dim: int)
    requires
        frames.len() <= usize::MAX,
    ensures
        ({
            let (u, m, order, aw, st) = layout(frame_trims(frames), padding, max_dim);
            let ts = frame_trims(frames);
            &&& m.len() == frames.len()
            &&& forall|i: int| 0 <= i < m.len() ==> (#[trigger] m[i]) < st.placed.len()
            &&& forall|i: int, j: int|
                0 <= i < m.len() && 0 <= j < m.len() ==> ((#[trigger] m[i] == #[trigger] m[j]) <==> ts[i] == ts[j])
        }),
{
    let ts = frame_trims(frames);
    lemma_dedup(ts);
    let (u, m) = dedup(ts);
    assert(shelf_items(u).len() == u.len());
    lemma_sort_shelf_keeps(shelf_items(u), |e: ShelfItem| e.2 < u.len());
    let (u2, m2, order, aw, st) = layout(ts, padding, max_dim);
    assert(st.placed.len() == u.len()) by {
        lemma_shelf_placed_len(u, order, order.len() as int, aw, max_dim, padding);
    }
}

proof fn lemma_shelf_placed_len(u: Seq<TrimmedV>, order: Seq<ShelfItem>, k: int, atlas_w: int, max_dim: int, padding: int)
    requires
        k <= order.len(),
        forall|j: int| 0 <= j < order.len() ==> (#[trigger] order[j]).2 < u.len(),
    ensures
        shelf_fold(u, order, k, atlas_w, max_dim, padding).placed.len() == u.len(),
        shelf_fold(u, order, k, atlas_w, max_dim, padding).dims.len() == shelf_fold(u, order, k, atlas_w, max_dim, padding).page + 1,
        shelf_fold(u, order, k, atlas_w, max_dim, padding).page >= 0,
    decreases k,
{
    if k > 0 {
        lemma_shelf_placed_len(u, order, k - 1, atlas_w, max_dim, padding);
    }
}

/// When every image fits in `max_dim` on both sides, every page stays
/// within `max_dim` on both sides.
pub proof fn lemma_pages_within(u: Seq<TrimmedV>, order: Seq<ShelfItem>, k: int, atlas_w: int, max_dim: int, padding: int)
    requires
        0 <= k <= order.len(),
        forall|j: int| 0 <= j < order.len() ==> (#[trigger] order[j]).2 < u.len(),
        forall|i: int| 0 <= i < u.len() ==> (#[trigger] u[i]).width <= max_dim && u[i].height <= max_dim,
        1 <= max_dim,
        0 <= atlas_w <= max_dim,
        0 <= padding,
    ensures
        ({
            let st = shelf_fold(u, order, k, atlas_w, max_dim, padding);
            &&& st.cur_x <= max_dim + padding
            &&& st.cur_y <= max_dim
            &&& st.dims.len() == st.page + 1
            &&& st.page >= 0
            &&& forall|j: int|
                0 <= j < st.dims.len() ==> (#[trigger] st.dims[j]).0 <= max_dim + padding && st.dims[j].1 <= max_dim
            &&& forall|j: int|
                0 <= j < st.dims.len() ==> page_width(#[trigger] st.dims[j], padding) <= max_dim && page_height(
                    st.dims[j],
                ) <= max_dim
        }),
    decreases k,
{
    let st = shelf_fold(u, order, k, atlas_w, max_dim, padding);
    if k > 0 {
        lemma_pages_within(u, order, k - 1, atlas_w, max_dim, padding);
        let prev = shelf_fold(u, order, k - 1, atlas_w, max_dim, padding);
        let i = order[k - 1].2 as int;
        assert(st == shelf_step(prev, u[i], i, atlas_w, max_dim, padding));
        assert forall|j: int| 0 <= j < st.dims.len() implies (#[trigger] st.dims[j]).0 <= max_dim + padding
            && st.dims[j].1 <= max_dim by {
            if j < prev.dims.len() {
                assert(prev.dims[j].0 <= max_dim + padding);
            }
        }
    }
}


/// Two placements do not overlap: different pages, or rectangles apart
/// horizontally or vertically.
pub open spec fn disjoint(a: Placement, b: Placement) -> bool {
    ||| a.page != b.page
    ||| a.x + a.width <= b.x
    ||| b.x + b.width <= a.x
    ||| a.y + a.height <= b.y
    ||| b.y + b.height <= a.y
}

/// Two placements lie at least `padding` apart: on different pages, or
/// separated by `padding` horizontally or vertically.
pub open spec fn apart(a: Placement, b: Placement, padding: int) -> bool {
    ||| a.page != b.page
    ||| a.x + a.width + padding <= b.x
    ||| b.x + b.width + padding <= a.x
    ||| a.y + a.height + padding <= b.y
    ||| b.y + b.height + padding <= a.y
}

/// The shelf filler never overlaps two images: every pair of placed
/// images (placed ones have a width) lies at least `padding` apart.
pub proof fn lemma_shelf_disjoint(
    u: Seq<TrimmedV>,
    order: Seq<ShelfItem>,
    k: int,
    atlas_w: int,
    max_dim: int,
    padding: int,
)
    requires
        0 <= k <= order.len(),
        forall|j: int| 0 <= j < order.len() ==> (#[trigger] order[j]).2 < u.len(),
        forall|i: int| 0 <= i < u.len() ==> (#[trigger] u[i]).width >= 1,
        order.len() <= usize::MAX,
        fold_fits(u, order, k, atlas_w, max_dim, padding),
        0 <= padding,
        0 <= atlas_w,
        0 <= max_dim,
    ensures
        ({
            let st = shelf_fold(u, order, k, atlas_w, max_dim, padding);
            &&& st.shelf_h >= 0
            &&& forall|q1: int, q2: int|
                0 <= q1 < u.len() && 0 <= q2 < u.len() && q1 != q2 && (#[trigger] st.placed[q1]).width >= 1 && (
                #[trigger] st.placed[q2]).width >= 1 ==> apart(st.placed[q1], st.placed[q2], padding)
            &&& forall|q: int|
                0 <= q < u.len() && (#[trigger] st.placed[q]).width >= 1 ==> {
                    &&& st.placed[q].page <= st.page
                    &&& st.placed[q].page == st.page ==> (st.placed[q].y + st.placed[q].height + padding <= st.cur_y || (
                    st.placed[q].y == st.cur_y && st.placed[q].x + st.placed[q].width + padding <= st.cur_x))
                    &&& st.placed[q].page == st.page ==> st.placed[q].y + st.placed[q].height + padding <= st.cur_y
                        + st.shelf_h
                }
        }),
    decreases k,
{
    lemma_shelf_fold(u, order, k, atlas_w, max_dim, padding);
    if k > 0 {
        lemma_fold_fits_prefix(u, order, k - 1, k, atlas_w, max_dim, padding);
        lemma_shelf_disjoint(u, order, k - 1, atlas_w, max_dim, padding);
        lemma_shelf_fold(u, order, k - 1, atlas_w, max_dim, padding);
        let st = shelf_fold(u, order, k - 1, atlas_w, max_dim, padding);
        let i = order[k - 1].2 as int;
        let t = u[i];
        let next = shelf_fold(u, order, k, atlas_w, max_dim, padding);
        assert(next == shelf_step(st, t, i, atlas_w, max_dim, padding));
        assert(step_fits(st, t, atlas_w, max_dim, padding));
        lemma_step_exact(st, t, i, atlas_w, max_dim, padding);
        let np = next.placed[i];
        assert(np.width == t.width && np.height == t.height);
        assert forall|q: int| 0 <= q < u.len() && q != i && (#[trigger] next.placed[q]).width >= 1 implies apart(
            np,
            next.placed[q],
            padding,
        ) && apart(next.placed[q], np, padding) by {
            assert(next.placed[q] == st.placed[q]);
        }
        assert forall|q1: int, q2: int|
            0 <= q1 < u.len() && 0 <= q2 < u.len() && q1 != q2 && (#[trigger] next.placed[q1]).width >= 1 && (
            #[trigger] next.placed[q2]).width >= 1 implies apart(next.placed[q1], next.placed[q2], padding) by {
            if q1 != i && q2 != i {
                assert(next.placed[q1] == st.placed[q1]);
                assert(next.placed[q2] == st.placed[q2]);
            }
        }
        assert forall|q: int| 0 <= q < u.len() && (#[trigger] next.placed[q]).width >= 1 implies {
            &&& next.placed[q].page <= next.page
            &&& next.placed[q].page == next.page ==> (next.placed[q].y + next.placed[q].height + padding <= next.cur_y || (
            next.placed[q].y == next.cur_y && next.placed[q].x + next.placed[q].width + padding <= next.cur_x))
            &&& next.placed[q].page == next.page ==> next.placed[q].y + next.placed[q].height + padding <= next.cur_y
                + next.shelf_h
        } by {
            if q != i {
                assert(next.placed[q] == st.placed[q]);
            }
        }
    }
}


/// Index of byte `c` of row `r` of placement `p` in a page `pw` wide.
pub open spec fn rect_byte(p: Placement, pw: int, r: int, c: int) -> int {
    ((p.y + r) * pw + p.x) * 4 + c
}

/// The page holding placement `p` shows image `t` there, byte for byte.
pub open spec fn shows(pages: Seq<PageV>, p: Placement, t: TrimmedV) -> bool {
    forall|r: int, c: int|
        0 <= r < t.height && 0 <= c < t.width * 4 ==> #[trigger] pages[p.page as int].2[rect_byte(
            p,
            pages[p.page as int].0,
            r,
            c,
        )] == t.pixels[r * t.width * 4 + c]
}

proof fn lemma_rect_byte_pos(p: Placement, pw: int, r: int, c: int)
    requires
        0 <= r,
        0 <= c < p.width * 4,
        p.x + p.width <= pw,
    ensures
        ({
            let k = rect_byte(p, pw, r, c);
            &&& 0 <= k
            &&& k / 4 / pw == p.y + r
            &&& k / 4 % pw == p.x + c / 4
            &&& k % 4 == c % 4
            &&& c == c / 4 * 4 + c % 4
            &&& 0 <= c / 4 < p.width
        }),
{
    lemma_fundamental_div_mod(c, 4);
    assert(c / 4 < p.width) by (nonlinear_arith)
        requires
            0 <= c < p.width * 4,
    ;
    let k = rect_byte(p, pw, r, c);
    assert(k == ((p.y + r) * pw + p.x + c / 4) * 4 + c % 4) by (nonlinear_arith)
        requires
            k == ((p.y + r) * pw + p.x) * 4 + c,
            c == 4 * (c / 4) + c % 4,
    ;
    assert(0 <= (p.y + r) * pw) by (nonlinear_arith)
        requires
            0 <= p.y + r,
            0 <= pw,
    ;
    lemma_split((p.y + r) * pw + p.x + c / 4, 4, c % 4);
    lemma_split(p.y + r, pw, p.x + c / 4);
}

/// Copying in `p` writes `t` over its own rectangle and leaves every byte
/// of a placement apart from it alone.
proof fn lemma_blit_at(px: Seq<u8>, pw: int, p: Placement, t: TrimmedV, q: Placement, r: int, c: int)
    requires
        p.width == t.width,
        p.height == t.height,
        p.x + p.width <= pw,
        q.x + q.width <= pw,
        0 <= r < q.height,
        0 <= c < q.width * 4,
        rect_byte(q, pw, r, c) < px.len(),
    ensures
        q == p ==> blit(px, pw, p, t)[rect_byte(q, pw, r, c)] == t.pixels[r * t.width * 4 + c],
        q.page == p.page && disjoint(p, q) ==> blit(px, pw, p, t)[rect_byte(q, pw, r, c)] == px[rect_byte(q, pw, r, c)],
{
    lemma_rect_byte_pos(q, pw, r, c);
    let k = rect_byte(q, pw, r, c);
    if q == p {
        assert(((r * t.width + c / 4) * 4 + c % 4) == r * t.width * 4 + c) by (nonlinear_arith)
            requires
                c == c / 4 * 4 + c % 4,
        ;
    }
}

/// Copying the images in, in index order, leaves every page showing each
/// image at its placement, when the placements fit their pages and do not
/// overlap.
pub proof fn lemma_blit_all_shows(pages: Seq<PageV>, u: Seq<TrimmedV>, placed: Seq<Placement>, n: int)
    requires
        0 <= n <= u.len(),
        placed.len() == u.len(),
        forall|i: int|
            0 <= i < u.len() ==> {
                let p = #[trigger] placed[i];
                &&& p.page < pages.len()
                &&& p.width == u[i].width
                &&& p.height == u[i].height
                &&& p.x + p.width <= pages[p.page as int].0
                &&& p.y + p.height <= pages[p.page as int].1
            },
        forall|j: int|
            0 <= j < pages.len() ==> (#[trigger] pages[j]).2.len() == pages[j].0 * pages[j].1 * 4 && pages[j].0 >= 0,
        forall|q1: int, q2: int|
            0 <= q1 < u.len() && 0 <= q2 < u.len() && q1 != q2 ==> disjoint(#[trigger] placed[q1], #[trigger] placed[q2]),
    ensures
        blit_all(pages, u, placed, n).len() == pages.len(),
        forall|j: int|
            0 <= j < pages.len() ==> (#[trigger] blit_all(pages, u, placed, n)[j]).0 == pages[j].0 && blit_all(
                pages,
                u,
                placed,
                n,
            )[j].1 == pages[j].1 && blit_all(pages, u, placed, n)[j].2.len() == pages[j].2.len(),
        forall|i: int| 0 <= i < n ==> shows(blit_all(pages, u, placed, n), #[trigger] placed[i], u[i]),
    decreases n,
{
    if n > 0 {
        lemma_blit_all_shows(pages, u, placed, n - 1);
        let prev = blit_all(pages, u, placed, n - 1);
        let cur = blit_all(pages, u, placed, n);
        let p = placed[n - 1];
        let t = u[n - 1];
        let pg = prev[p.page as int];
        assert forall|i: int| 0 <= i < n implies shows(cur, #[trigger] placed[i], u[i]) by {
            let q = placed[i];
            let pw = cur[q.page as int].0;
            assert forall|r: int, c: int| 0 <= r < u[i].height && 0 <= c < u[i].width * 4 implies #[trigger] cur[q.page as int].2[rect_byte(
                q,
                pw,
                r,
                c,
            )] == u[i].pixels[r * u[i].width * 4 + c] by {
                lemma_rect_byte_pos(q, pw, r, c);
                let ph = pages[q.page as int].1;
                lemma_mixed_radix(q.y + r, ph, pw, q.x + c / 4);
                lemma_mixed_radix((q.y + r) * pw + q.x + c / 4, ph * pw, 4, c % 4);
                assert(rect_byte(q, pw, r, c) == ((q.y + r) * pw + q.x + c / 4) * 4 + c % 4) by (nonlinear_arith)
                    requires
                        c == c / 4 * 4 + c % 4,
                        rect_byte(q, pw, r, c) == ((q.y + r) * pw + q.x) * 4 + c,
                ;
                assert(ph * pw * 4 == pw * ph * 4) by (nonlinear_arith);
                if q.page == p.page {
                    lemma_blit_at(pg.2, pg.0, p, t, q, r, c);
                    if i < n - 1 {
                        assert(disjoint(p, q));
                    }
                } else {
                    assert(cur[q.page as int] == prev[q.page as int]);
                }
            }
        }
    }
}

/// Images a packer can place: at least one pixel wide, holding their
/// pixels.
pub open spec fn placeable(ts: Seq<TrimmedV>) -> bool {
    forall|f: int|
        0 <= f < ts.len() ==> {
            &&& 1 <= (#[trigger] ts[f]).width
            &&& ts[f].pixels.len() == ts[f].width * ts[f].height * 4
        }
}

/// `a` is the atlas that the shelf layout of the trimmed `frames` gives:
/// its frame map, its placements and its blitted pages.
pub open spec fn packed(frames: Seq<RgbaImage>, padding: int, max_dim: int, a: Atlas) -> bool {
    let (u, m, order, aw, st) = layout(frame_trims(frames), padding, max_dim);
    &&& a.frame_to_placement@ == m
    &&& a.placements@ == st.placed
    &&& pages_view(a.pages@) == blit_all(blank_pages(st.dims, padding), u, st.placed, u.len() as int)
}

/// Packing is deterministic: two atlases packed from the same frames with
/// the same padding and maximum have the same pages, the same placements
/// and the same frame map.
pub proof fn lemma_pack_deterministic(frames: Seq<RgbaImage>, padding: int, max_dim: int, a1: Atlas, a2: Atlas)
    requires
        packed(frames, padding, max_dim, a1),
        packed(frames, padding, max_dim, a2),
    ensures
        a1.frame_to_placement@ == a2.frame_to_placement@,
        a1.placements@ == a2.placements@,
        pages_view(a1.pages@) == pages_view(a2.pages@),
        a1.pages@.len() == a2.pages@.len(),
        forall|j: int|
            0 <= j < a1.pages@.len() ==> (#[trigger] a1.pages@[j]).width == a2.pages@[j].width && a1.pages@[j].height
                == a2.pages@[j].height && a1.pages@[j].pixels@ == a2.pages@[j].pixels@,
{
    assert(pages_view(a1.pages@).len() == a1.pages@.len());
    assert(pages_view(a2.pages@).len() == a2.pages@.len());
    assert forall|j: int| 0 <= j < a1.pages@.len() implies (#[trigger] a1.pages@[j]).width == a2.pages@[j].width
        && a1.pages@[j].height == a2.pages@[j].height && a1.pages@[j].pixels@ == a2.pages@[j].pixels@ by {
        assert(pages_view(a1.pages@)[j] == (a1.pages@[j].width as int, a1.pages@[j].height as int, a1.pages@[j].pixels@));
        assert(pages_view(a2.pages@)[j] == (a2.pages@[j].width as int, a2.pages@[j].height as int, a2.pages@[j].pixels@));
    }
}

/// Packing loses nothing: every input image appears, byte for byte, at its
/// placement on its page.
pub proof fn lemma_pack_lossless(ts: Seq<TrimmedV>, padding: int, max_dim: int)
    requires
        ts.len() <= usize::MAX,
        placeable(ts),
        0 <= padding,
        0 <= max_dim,
        fold_fits(
            layout(ts, padding, max_dim).0,
            layout(ts, padding, max_dim).2,
            layout(ts, padding, max_dim).2.len() as int,
            layout(ts, padding, max_dim).3,
            max_dim,
            padding,
        ),
    ensures
        ({
            let (u, m, order, aw, st) = layout(ts, padding, max_dim);
            let pages = blit_all(blank_pages(st.dims, padding), u, st.placed, u.len() as int);
            forall|f: int| 0 <= f < ts.len() ==> shows(pages, #[trigger] st.placed[m[f] as int], ts[f])
        }),
{
    lemma_dedup(ts);
    let (u, m, order, aw, st) = layout(ts, padding, max_dim);
    assert forall|k: int| 0 <= k < u.len() implies (#[trigger] u[k]).width >= 1 && u[k].pixels.len() == u[k].width
        * u[k].height * 4 by {
        let f = choose|f: int| 0 <= f < ts.len() && ts[f] == u[k];
        assert(ts[f] == u[k]);
    }
    assert(shelf_items(u).len() == u.len());
    lemma_sort_shelf_keeps(shelf_items(u), |e: ShelfItem| e.2 < u.len());
    lemma_area_nonneg(u, padding);
    lemma_max_width_bound(u);
    lemma_shelf_fold(u, order, order.len() as int, aw, max_dim, padding);
    lemma_shelf_disjoint(u, order, order.len() as int, aw, max_dim, padding);
    let blank = blank_pages(st.dims, padding);
    assert forall|q: int| 0 <= q < u.len() implies fits(#[trigger] st.placed[q], u[q], st.dims, padding) by {
        assert(shelf_items(u)[q] == (u[q].height, u[q].width, q as usize));
        assert(order.contains(shelf_items(u)[q]));
        let j = choose|j: int| 0 <= j < order.len() && order[j] == shelf_items(u)[q];
        assert(order[j].2 == q);
    }
    assert forall|j: int| 0 <= j < blank.len() implies (#[trigger] blank[j]).2.len() == blank[j].0 * blank[j].1 * 4
        && blank[j].0 >= 0 by {
        assert(page_width(st.dims[j], padding) * page_height(st.dims[j]) * 4 >= 0) by (nonlinear_arith)
            requires
                page_width(st.dims[j], padding) >= 1,
                page_height(st.dims[j]) >= 1,
        ;
    }
    lemma_blit_all_shows(blank, u, st.placed, u.len() as int);
    assert forall|f: int| 0 <= f < ts.len() implies shows(
        blit_all(blank, u, st.placed, u.len() as int),
        #[trigger] st.placed[m[f] as int],
        ts[f],
    ) by {
        assert(u[m[f] as int] == ts[f]);
    }
}


/// Whether byte `k` of a page `pw` pixels wide lies in placement `p`'s
/// rectangle.
pub open spec fn covers(p: Placement, pw: int, k: int) -> bool {
    &&& p.x <= (k / 4) % pw < p.x + p.width
    &&& p.y <= (k / 4) / pw < p.y + p.height
}

/// Copying images in leaves every byte no placement covers as it was.
proof fn lemma_blit_background(pages: Seq<PageV>, u: Seq<TrimmedV>, placed: Seq<Placement>, n: int, j: int, k: int)
    requires
        0 <= n <= u.len(),
        placed.len() == u.len(),
        forall|i: int|
            0 <= i < u.len() ==> (#[trigger] placed[i]).page < pages.len() && placed[i].width == u[i].width
                && placed[i].height == u[i].height,
        0 <= j < pages.len(),
        0 <= k < pages[j].2.len(),
        forall|i: int| 0 <= i < n ==> (#[trigger] placed[i]).page != j || !covers(placed[i], pages[j].0, k),
    ensures
        blit_all(pages, u, placed, n)[j].2[k] == pages[j].2[k],
        blit_all(pages, u, placed, n)[j].0 == pages[j].0,
        blit_all(pages, u, placed, n)[j].2.len() == pages[j].2.len(),
        blit_all(pages, u, placed, n).len() == pages.len(),
    decreases n,
{
    if n > 0 {
        lemma_blit_background(pages, u, placed, n - 1, j, k);
        let prev = blit_all(pages, u, placed, n - 1);
        let p = placed[n - 1];
        assert(p.page != j || !covers(p, pages[j].0, k));
    }
}

/// The packed layout: one placement per distinct image, each the size and
/// offset of its image, placements `padding` apart and inside their pages,
/// pages of at least 1x1 holding their pixels, every byte outside the
/// placements zero, and pages within `max_dim` when every image is.
proof fn lemma_pack_layout(ts: Seq<TrimmedV>, padding: int, max_dim: int)
    requires
        ts.len() <= usize::MAX,
        placeable(ts),
        0 <= padding,
        0 <= max_dim,
        fold_fits(
            layout(ts, padding, max_dim).0,
            layout(ts, padding, max_dim).2,
            layout(ts, padding, max_dim).2.len() as int,
            layout(ts, padding, max_dim).3,
            max_dim,
            padding,
        ),
    ensures
        ({
            let (u, m, order, aw, st) = layout(ts, padding, max_dim);
            let pages = blit_all(blank_pages(st.dims, padding), u, st.placed, u.len() as int);
            &&& st.placed.len() == u.len()
            &&& m.len() == ts.len()
            &&& forall|f: int|
                0 <= f < ts.len() ==> {
                    let p = #[trigger] st.placed[m[f] as int];
                    &&& m[f] < u.len()
                    &&& p.width == ts[f].width && p.height == ts[f].height
                    &&& p.offset_x == ts[f].offset_x && p.offset_y == ts[f].offset_y
                }
            &&& forall|q1: int, q2: int|
                0 <= q1 < u.len() && 0 <= q2 < u.len() && q1 != q2 ==> apart(
                    #[trigger] st.placed[q1],
                    #[trigger] st.placed[q2],
                    padding,
                )
            &&& pages.len() == st.dims.len()
            &&& pages.len() >= 1
            &&& forall|q: int|
                0 <= q < u.len() ==> {
                    let p = #[trigger] st.placed[q];
                    &&& p.page < pages.len()
                    &&& p.x + p.width <= pages[p.page as int].0
                    &&& p.y + p.height <= pages[p.page as int].1
                }
            &&& forall|j: int|
                0 <= j < pages.len() ==> (#[trigger] pages[j]).0 >= 1 && pages[j].1 >= 1 && pages[j].2.len()
                    == pages[j].0 * pages[j].1 * 4
            &&& forall|j: int, k: int|
                0 <= j < pages.len() && 0 <= k < pages[j].2.len() && (forall|q: int|
                    0 <= q < u.len() ==> (#[trigger] st.placed[q]).page != j || !covers(st.placed[q], pages[j].0, k))
                    ==> #[trigger] pages[j].2[k] == 0
            &&& (1 <= max_dim && forall|f: int|
                0 <= f < ts.len() ==> (#[trigger] ts[f]).width <= max_dim && ts[f].height <= max_dim) ==> forall|j: int|
                0 <= j < pages.len() ==> (#[trigger] pages[j]).0 <= max_dim && pages[j].1 <= max_dim
        }),
{
    lemma_dedup(ts);
    let (u, m, order, aw, st) = layout(ts, padding, max_dim);
    assert forall|k: int| 0 <= k < u.len() implies (#[trigger] u[k]).width >= 1 && u[k].pixels.len() == u[k].width
        * u[k].height * 4 by {
        let f = choose|f: int| 0 <= f < ts.len() && ts[f] == u[k];
        assert(ts[f] == u[k]);
    }
    assert(shelf_items(u).len() == u.len());
    lemma_sort_shelf_keeps(shelf_items(u), |e: ShelfItem| e.2 < u.len());
    lemma_max_width_bound(u);
    lemma_shelf_fold(u, order, order.len() as int, aw, max_dim, padding);
    lemma_shelf_disjoint(u, order, order.len() as int, aw, max_dim, padding);
    lemma_shelf_placed_len(u, order, order.len() as int, aw, max_dim, padding);
    let blank = blank_pages(st.dims, padding);
    assert forall|q: int| 0 <= q < u.len() implies fits(#[trigger] st.placed[q], u[q], st.dims, padding) by {
        assert(shelf_items(u)[q] == (u[q].height, u[q].width, q as usize));
        assert(order.contains(shelf_items(u)[q]));
        let j = choose|j: int| 0 <= j < order.len() && order[j] == shelf_items(u)[q];
        assert(order[j].2 == q);
    }
    assert forall|j: int| 0 <= j < blank.len() implies (#[trigger] blank[j]).2.len() == blank[j].0 * blank[j].1 * 4
        && blank[j].0 >= 0 by {
        assert(page_width(st.dims[j], padding) * page_height(st.dims[j]) * 4 >= 0) by (nonlinear_arith)
            requires
                page_width(st.dims[j], padding) >= 1,
                page_height(st.dims[j]) >= 1,
        ;
    }
    lemma_blit_all_shows(blank, u, st.placed, u.len() as int);
    let pages = blit_all(blank, u, st.placed, u.len() as int);
    assert forall|f: int| 0 <= f < ts.len() implies {
        let p = #[trigger] st.placed[m[f] as int];
        &&& m[f] < u.len()
        &&& p.width == ts[f].width && p.height == ts[f].height
        &&& p.offset_x == ts[f].offset_x && p.offset_y == ts[f].offset_y
    } by {
        assert(u[m[f] as int] == ts[f]);
        assert(fits(st.placed[m[f] as int], u[m[f] as int], st.dims, padding));
    }
    assert forall|q: int| 0 <= q < u.len() implies {
        let p = #[trigger] st.placed[q];
        &&& p.page < pages.len()
        &&& p.x + p.width <= pages[p.page as int].0
        &&& p.y + p.height <= pages[p.page as int].1
    } by {
        assert(fits(st.placed[q], u[q], st.dims, padding));
    }
    assert forall|j: int, k: int|
        0 <= j < pages.len() && 0 <= k < pages[j].2.len() && (forall|q: int|
            0 <= q < u.len() ==> (#[trigger] st.placed[q]).page != j || !covers(st.placed[q], pages[j].0, k))
            implies #[trigger] pages[j].2[k] == 0 by {
        assert forall|q: int| 0 <= q < u.len() implies (#[trigger] st.placed[q]).page < blank.len()
            && st.placed[q].width == u[q].width && st.placed[q].height == u[q].height by {
            assert(fits(st.placed[q], u[q], st.dims, padding));
        }
        lemma_blit_background(blank, u, st.placed, u.len() as int, j, k);
    }
    if 1 <= max_dim && forall|f: int| 0 <= f < ts.len() ==> (#[trigger] ts[f]).width <= max_dim && ts[f].height <= max_dim {
        assert forall|q: int| 0 <= q < u.len() implies (#[trigger] u[q]).width <= max_dim && u[q].height <= max_dim by {
            let f = choose|f: int| 0 <= f < ts.len() && ts[f] == u[q];
            assert(ts[f] == u[q]);
        }
        lemma_pages_within(u, order, order.len() as int, aw, max_dim, padding);
    }
}

/// Copying images in keeps every page's size.
proof fn lemma_blit_all_shows_sizes(pages: Seq<PageV>, u: Seq<TrimmedV>, placed: Seq<Placement>, n: int)
    requires
        0 <= n <= u.len(),
        placed.len() == u.len(),
        forall|i: int| 0 <= i < u.len() ==> (#[trigger] placed[i]).page < pages.len(),
    ensures
        blit_all(pages, u, placed, n).len() == pages.len(),
        forall|j: int|
            0 <= j < pages.len() ==> (#[trigger] blit_all(pages, u, placed, n)[j]).0 == pages[j].0 && blit_all(
                pages,
                u,
                placed,
                n,
            )[j].1 == pages[j].1,
    decreases n,
{
    if n > 0 {
        lemma_blit_all_shows_sizes(pages, u, placed, n - 1);
    }
}


/// Where frame `frame` of a canvas `canvas_w` x `canvas_h` sits in the
/// atlas: the placement's page and rectangle, and the margin that restores
/// the trimmed image to canvas size (the trim offset, and the total width
/// and height trimmed away).
pub struct FrameRegion {
    pub page: usize,
    pub x: u32,
    pub y: u32,
    pub width: u32,
    pub height: u32,
    pub margin_x: u32,
    pub margin_y: u32,
    pub margin_width: i64,
    pub margin_height: i64,
}

/// The atlas region of `frame`, or `None` when the atlas has no placement
/// for it.
pub fn frame_region(atlas: &Atlas, frame: usize, canvas_w: u32, canvas_h: u32) -> (r: Option<
    FrameRegion,
>)
    ensures
        match r {
            Some(g) => frame < atlas.frame_to_placement@.len() && ({
                let p = atlas.placements@[atlas.frame_to_placement@[frame as int] as int];
                &&& atlas.frame_to_placement@[frame as int] < atlas.placements@.len()
                &&& g.page == p.page && g.x == p.x && g.y == p.y
                &&& g.width == p.width && g.height == p.height
                &&& g.margin_x == p.offset_x && g.margin_y == p.offset_y
                &&& g.margin_width == canvas_w - p.width
                &&& g.margin_height == canvas_h - p.height
            }),
            None => frame >= atlas.frame_to_placement@.len()
                || atlas.frame_to_placement@[frame as int] >= atlas.placements@.len(),
        },
{
    if frame >= atlas.frame_to_placement.len() {
        return None;
    }
    let pi = atlas.frame_to_placement[frame];
    if pi >= atlas.placements.len() {
        return None;
    }
    let p = atlas.placements[pi];
    Some(
        FrameRegion {
            page: p.page,
            x: p.x,
            y: p.y,
            width: p.width,
            height: p.height,
            margin_x: p.offset_x,
            margin_y: p.offset_y,
            margin_width: canvas_w as i64 - p.width as i64,
            margin_height: canvas_h as i64 - p.height as i64,
        },
    )
}

} // verus!
