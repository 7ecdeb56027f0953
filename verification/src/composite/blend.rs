//! Pixel blenders with Aseprite's integer arithmetic, so that output matches
//! it bit for bit. Aseprite computes soft light and the four HSL modes in
//! floating point; their RGB result comes from the caller (see
//! [`float_oracle`]), everything around it is integer math here.
use crate::model::BlendMode;
use vstd::prelude::*;

verus! {

/// Straight-alpha RGBA pixel.
pub type Rgba = [u8; 4];

/// Three color channels.
pub type Rgb = (u8, u8, u8);

/// `round(a * b / 255)` as pixman computes it: `t = a*b + 128`, then
/// `((t >> 8) + t) >> 8` with arithmetic shifts (floor division by 256).
pub open spec fn mul8(a: int, b: int) -> int {
    let t = a * b + 128;
    (t / 256 + t) / 256
}

/// `round(a * 255 / b)` for `b > 0`, ties rounding up.
pub open spec fn div8(a: int, b: int) -> int {
    (a * 255 + b / 2) / b
}

proof fn lemma_asr8(t: i32)
    ensures
        (t >> 8i32) as int == (t as int) / 256,
{
    assert((t >> 8i32) as int == (t as int) / 256) by (bit_vector);
}

/// On bytes, the shift trick is exact rounding of `a * b / 255` (a tie is
/// impossible since 255 is odd), and never exceeds either factor.
pub proof fn lemma_mul8_rounds(a: int, b: int)
    requires
        0 <= a <= 255,
        0 <= b <= 255,
    ensures
        mul8(a, b) == (2 * (a * b) + 255) / 510,
        0 <= mul8(a, b) <= a,
        mul8(a, b) <= b,
{
    let x: u32 = (a * b) as u32;
    assert(0 <= a * b <= 65025) by (nonlinear_arith)
        requires
            0 <= a <= 255,
            0 <= b <= 255,
    ;
    assert(x <= 65025 ==> (((x + 128) / 256 + x + 128) / 256 == (2 * x + 255) / 510)) by (bit_vector);
    assert(x as int == a * b);
    assert(mul8(a, b) == (2 * (a * b) + 255) / 510);
    assert(mul8(a, b) <= a && mul8(a, b) <= b) by (nonlinear_arith)
        requires
            mul8(a, b) == (2 * (a * b) + 255) / 510,
            0 <= a <= 255,
            0 <= b <= 255,
    ;
}

/// `round(a*b/255)` via pixman's shift trick. Callers may pass a negative
/// `a` (the merge blender does); the shifts are arithmetic.
pub fn mul_un8(a: i32, b: i32) -> (r: i32)
    requires
        -0x7f00_0000 <= a * b <= 0x7f00_0000,
    ensures
        r == mul8(a as int, b as int),
{
    let t = a * b + 0x80;
    proof {
        lemma_asr8(t);
    }
    let u = (t >> 8) + t;
    proof {
        lemma_asr8(u);
    }
    u >> 8
}

/// `round(a*255/b)` for `b > 0`.
pub fn div_un8(a: i32, b: i32) -> (r: i32)
    requires
        0 <= a <= 0x7f_0000,
        0 < b <= 0x7f_0000,
    ensures
        r == div8(a as int, b as int),
{
    (a * 0xFF + b / 2) / b
}


/// One channel of "over": moves the backdrop toward the source by `sa / ra`,
/// the quotient truncated toward zero.
pub open spec fn over_ch(b: int, s: int, sa: int, ra: int) -> int {
    if s >= b {
        b + (s - b) * sa / ra
    } else {
        b - (b - s) * sa / ra
    }
}

/// Straight-alpha "over" with an extra opacity, the final step of every
/// mode. A fully transparent backdrop takes the source color unchanged.
pub open spec fn normal_px(back: Seq<u8>, src: Seq<u8>, opacity: int) -> Seq<u8> {
    if back[3] == 0 {
        seq![src[0], src[1], src[2], mul8(src[3] as int, opacity) as u8]
    } else if src[3] == 0 {
        back
    } else {
        let ba = back[3] as int;
        let sa = mul8(src[3] as int, opacity);
        let ra = sa + ba - mul8(ba, sa);
        seq![
            over_ch(back[0] as int, src[0] as int, sa, ra) as u8,
            over_ch(back[1] as int, src[1] as int, sa, ra) as u8,
            over_ch(back[2] as int, src[2] as int, sa, ra) as u8,
            ra as u8,
        ]
    }
}

/// Per-channel interpolation by `opacity`, alpha included: the merge step of
/// the blenders Aseprite uses since version 1.3.
pub open spec fn merge_px(back: Seq<u8>, src: Seq<u8>, opacity: int) -> Seq<u8> {
    let ba = back[3] as int;
    let sa = src[3] as int;
    let ra = ba + mul8(sa - ba, opacity);
    if ra == 0 {
        seq![0u8, 0u8, 0u8, 0u8]
    } else if ba == 0 {
        seq![src[0], src[1], src[2], ra as u8]
    } else if sa == 0 {
        seq![back[0], back[1], back[2], ra as u8]
    } else {
        seq![
            (back[0] + mul8(src[0] - back[0], opacity)) as u8,
            (back[1] + mul8(src[1] - back[1], opacity)) as u8,
            (back[2] + mul8(src[2] - back[2], opacity)) as u8,
            ra as u8,
        ]
    }
}

proof fn lemma_prod_bound(a: int, b: int)
    requires
        -255 <= a <= 255,
        -510 <= b <= 510,
    ensures
        -130050 <= a * b <= 130050,
{
    assert(-130050 <= a * b <= 130050) by (nonlinear_arith)
        requires
            -255 <= a <= 255,
            -510 <= b <= 510,
    ;
}

proof fn lemma_mul8_range(a: int, b: int)
    requires
        -255 <= a <= 255,
        0 <= b <= 255,
    ensures
        -255 <= mul8(a, b) <= 255,
        a >= 0 ==> 0 <= mul8(a, b) <= a,
        a < 0 ==> a <= mul8(a, b) <= 0,
{
    if a >= 0 {
        lemma_mul8_rounds(a, b);
    } else {
        let x: i32 = (a * b) as i32;
        assert(-65025 <= a * b <= 0) by (nonlinear_arith)
            requires
                -255 <= a < 0,
                0 <= b <= 255,
        ;
        assert(-65025 <= x <= 0 ==> -255 <= ((x + 128) / 256 + x + 128) / 256 <= 0) by (bit_vector);
        assert(x as int == a * b);
        assert(((x + 128) / 256 + x + 128) / 256 >= a) by (nonlinear_arith)
            requires
                x == a * b,
                -255 <= a < 0,
                0 <= b <= 255,
                -65025 <= x <= 0,
        {
            assert(a * b >= a * 255);
        }
    }
}

/// Straight-alpha "over": the final step of every mode. `opacity` is a byte
/// value, 0 to 255.
pub fn blender_normal(back: Rgba, src: Rgba, opacity: i32) -> (r: Rgba)
    requires
        0 <= opacity <= 255,
    ensures
        r@ == normal_px(back@, src@, opacity as int),
{
    proof {
        lemma_prod_bound(src[3] as int, opacity as int);
        lemma_mul8_rounds(src[3] as int, opacity as int);
    }
    if back[3] == 0 {
        let a = mul_un8(src[3] as i32, opacity);
        let r = [src[0], src[1], src[2], a as u8];
        assert(r@ =~= normal_px(back@, src@, opacity as int));
        return r;
    }
    if src[3] == 0 {
        return back;
    }
    let ba = back[3] as i32;
    let sa = mul_un8(src[3] as i32, opacity);
    proof {
        lemma_prod_bound(ba as int, sa as int);
        lemma_mul8_rounds(ba as int, sa as int);
    }
    let m = mul_un8(ba, sa);
    let ra = sa + ba - m;
    let r = [
        over_channel(back[0], src[0], sa, ra),
        over_channel(back[1], src[1], sa, ra),
        over_channel(back[2], src[2], sa, ra),
        ra as u8,
    ];
    assert(r@ =~= normal_px(back@, src@, opacity as int));
    r
}

fn over_channel(b: u8, s: u8, sa: i32, ra: i32) -> (r: u8)
    requires
        0 <= sa <= 255,
        0 < ra <= 510,
    ensures
        r == over_ch(b as int, s as int, sa as int, ra as int) as u8,
{
    let (b, s) = (b as i32, s as i32);
    proof {
        lemma_prod_bound(s - b, sa as int);
        lemma_prod_bound(b - s, sa as int);
    }
    if s >= b {
        (b + (s - b) * sa / ra) as u8
    } else {
        (b - (b - s) * sa / ra) as u8
    }
}

/// Per-channel interpolation by `opacity`, alpha included.
pub fn blender_merge(back: Rgba, src: Rgba, opacity: i32) -> (r: Rgba)
    requires
        0 <= opacity <= 255,
    ensures
        r@ == merge_px(back@, src@, opacity as int),
{
    let (ba, sa) = (back[3] as i32, src[3] as i32);
    proof {
        lemma_prod_bound(sa - ba, opacity as int);
        lemma_mul8_range(sa - ba, opacity as int);
        lemma_prod_bound(src[0] - back[0], opacity as int);
        lemma_prod_bound(src[1] - back[1], opacity as int);
        lemma_prod_bound(src[2] - back[2], opacity as int);
        lemma_mul8_range(src[0] - back[0], opacity as int);
        lemma_mul8_range(src[1] - back[1], opacity as int);
        lemma_mul8_range(src[2] - back[2], opacity as int);
    }
    let ra = ba + mul_un8(sa - ba, opacity);
    if ra == 0 {
        let r = [0u8, 0u8, 0u8, 0u8];
        assert(r@ =~= merge_px(back@, src@, opacity as int));
        return r;
    }
    let r = if ba == 0 {
        [src[0], src[1], src[2], ra as u8]
    } else if sa == 0 {
        [back[0], back[1], back[2], ra as u8]
    } else {
        [
            (back[0] as i32 + mul_un8(src[0] as i32 - back[0] as i32, opacity)) as u8,
            (back[1] as i32 + mul_un8(src[1] as i32 - back[1] as i32, opacity)) as u8,
            (back[2] as i32 + mul_un8(src[2] as i32 - back[2] as i32, opacity)) as u8,
            ra as u8,
        ]
    };
    assert(r@ =~= merge_px(back@, src@, opacity as int));
    r
}


/// Modes whose color Aseprite computes in floating point.
pub open spec fn is_float_mode(mode: BlendMode) -> bool {
    match mode {
        BlendMode::SoftLight | BlendMode::HslHue | BlendMode::HslSaturation
        | BlendMode::HslColor | BlendMode::HslLuminosity => true,
        _ => false,
    }
}

/// Modes blended by the plain "over" alone.
pub open spec fn is_plain_mode(mode: BlendMode) -> bool {
    mode is Normal || mode is Unknown
}

pub open spec fn hard_light_ch(b: int, s: int) -> int {
    if s < 128 {
        mul8(b, 2 * s)
    } else {
        b + (2 * s - 255) - mul8(b, 2 * s - 255)
    }
}

/// One channel of an integer separable mode, backdrop `b`, source `s`.
pub open spec fn sep_ch(mode: BlendMode, b: int, s: int) -> int {
    match mode {
        BlendMode::Multiply => mul8(b, s),
        BlendMode::Screen => b + s - mul8(b, s),
        BlendMode::Overlay => hard_light_ch(s, b),
        BlendMode::Darken => if b <= s { b } else { s },
        BlendMode::Lighten => if b >= s { b } else { s },
        BlendMode::ColorDodge => if b == 0 {
            0
        } else if b >= 255 - s {
            255
        } else {
            div8(b, 255 - s)
        },
        BlendMode::ColorBurn => if b == 255 {
            255
        } else if 255 - b >= s {
            0
        } else {
            255 - div8(255 - b, s)
        },
        BlendMode::HardLight => hard_light_ch(b, s),
        BlendMode::Difference => if b >= s { b - s } else { s - b },
        BlendMode::Exclusion => b + s - 2 * mul8(b, s),
        BlendMode::Addition => if b + s <= 255 { b + s } else { 255 },
        BlendMode::Subtract => if b >= s { b - s } else { 0 },
        BlendMode::Divide => if b == 0 {
            0
        } else if b >= s {
            255
        } else {
            div8(b, s)
        },
        _ => b,
    }
}

/// What a floating-point blender makes of a mode, a backdrop color and a
/// source color.
pub type FloatBlender = spec_fn(BlendMode, Rgb, Rgb) -> Rgb;

/// A callable that computes the floating-point modes: callable on every
/// input, and a function of its arguments.
pub open spec fn float_ok<F: Fn(BlendMode, Rgb, Rgb) -> Rgb>(f: F) -> bool {
    &&& forall|m: BlendMode, b: Rgb, s: Rgb| #[trigger] f.requires((m, b, s))
    &&& forall|m: BlendMode, b: Rgb, s: Rgb, r1: Rgb, r2: Rgb|
        #[trigger] f.ensures((m, b, s), r1) && #[trigger] f.ensures((m, b, s), r2) ==> r1 == r2
}

/// The function that a callable satisfying [`float_ok`] computes.
pub open spec fn float_oracle<F: Fn(BlendMode, Rgb, Rgb) -> Rgb>(f: F) -> FloatBlender {
    |m: BlendMode, b: Rgb, s: Rgb| choose|r: Rgb| f.ensures((m, b, s), r)
}

pub open spec fn rgb_of(p: Seq<u8>) -> Rgb {
    (p[0], p[1], p[2])
}

/// The blended color of the legacy blender, before compositing.
pub open spec fn legacy_rgb(mode: BlendMode, back: Seq<u8>, src: Seq<u8>, fl: FloatBlender) -> Seq<u8> {
    if is_float_mode(mode) {
        let c = fl(mode, rgb_of(back), rgb_of(src));
        seq![c.0, c.1, c.2]
    } else {
        seq![
            sep_ch(mode, back[0] as int, src[0] as int) as u8,
            sep_ch(mode, back[1] as int, src[1] as int) as u8,
            sep_ch(mode, back[2] as int, src[2] as int) as u8,
        ]
    }
}

/// The legacy blender: the blended color replaces the source color (source
/// alpha kept), then "over".
pub open spec fn legacy_px(mode: BlendMode, back: Seq<u8>, src: Seq<u8>, opacity: int, fl: FloatBlender) -> Seq<u8> {
    normal_px(back, legacy_rgb(mode, back, src, fl).push(src[3]), opacity)
}

/// The blender Aseprite uses since version 1.3: over a transparent backdrop,
/// or in a plain mode, just "over"; otherwise the normal and the legacy
/// results merged by the backdrop alpha, then by the composite alpha.
pub open spec fn blend_px(mode: BlendMode, back: Seq<u8>, src: Seq<u8>, opacity: int, fl: FloatBlender) -> Seq<u8> {
    if is_plain_mode(mode) || back[3] == 0 {
        normal_px(back, src, opacity)
    } else {
        let normal = normal_px(back, src, opacity);
        let blended = legacy_px(mode, back, src, opacity, fl);
        let m1 = merge_px(normal, blended, back[3] as int);
        let composite_alpha = mul8(back[3] as int, mul8(src[3] as int, opacity));
        merge_px(m1, blended, composite_alpha)
    }
}

fn hard_light_channel(b: i32, s: i32) -> (r: i32)
    requires
        0 <= b <= 255,
        0 <= s <= 255,
    ensures
        r == hard_light_ch(b as int, s as int),
{
    proof {
        lemma_prod_bound(b as int, 2 * s - 255);
        lemma_prod_bound(b as int, 2 * s);
    }
    if s < 128 {
        mul_un8(b, s * 2)
    } else {
        b + (s * 2 - 255) - mul_un8(b, s * 2 - 255)
    }
}

/// One channel of an integer separable mode.
fn separable_channel(mode: BlendMode, b: u8, s: u8) -> (r: u8)
    ensures
        r == sep_ch(mode, b as int, s as int) as u8,
{
    let (b, s) = (b as i32, s as i32);
    proof {
        lemma_prod_bound(b as int, s as int);
    }
    let v: i32 = match mode {
        BlendMode::Multiply => mul_un8(b, s),
        BlendMode::Screen => b + s - mul_un8(b, s),
        BlendMode::Overlay => hard_light_channel(s, b),
        BlendMode::Darken => if b <= s { b } else { s },
        BlendMode::Lighten => if b >= s { b } else { s },
        BlendMode::ColorDodge => if b == 0 {
            0
        } else if b >= 255 - s {
            255
        } else {
            div_un8(b, 255 - s)
        },
        BlendMode::ColorBurn => if b == 255 {
            255
        } else if 255 - b >= s {
            0
        } else {
            255 - div_un8(255 - b, s)
        },
        BlendMode::HardLight => hard_light_channel(b, s),
        BlendMode::Difference => if b >= s { b - s } else { s - b },
        BlendMode::Exclusion => b + s - 2 * mul_un8(b, s),
        BlendMode::Addition => if b + s <= 255 { b + s } else { 255 },
        BlendMode::Subtract => if b >= s { b - s } else { 0 },
        BlendMode::Divide => if b == 0 {
            0
        } else if b >= s {
            255
        } else {
            div_un8(b, s)
        },
        _ => b,
    };
    v as u8
}

/// The legacy blender for a mode other than the plain ones: the blended
/// color replaces the source color (source alpha kept), then "over".
/// `float_rgb` computes the floating-point modes.
pub fn blender_legacy<F: Fn(BlendMode, Rgb, Rgb) -> Rgb>(
    mode: BlendMode,
    back: Rgba,
    src: Rgba,
    opacity: i32,
    float_rgb: &F,
) -> (r: Rgba)
    requires
        0 <= opacity <= 255,
        !is_plain_mode(mode),
        float_ok(*float_rgb),
    ensures
        r@ == legacy_px(mode, back@, src@, opacity as int, float_oracle(*float_rgb)),
{
    let rgb: Rgb = match mode {
        BlendMode::SoftLight | BlendMode::HslHue | BlendMode::HslSaturation
        | BlendMode::HslColor | BlendMode::HslLuminosity => {
            let c = float_rgb(mode, (back[0], back[1], back[2]), (src[0], src[1], src[2]));
            proof {
                let args = (mode, (back[0], back[1], back[2]), (src[0], src[1], src[2]));
                let o = float_oracle(*float_rgb)(mode, rgb_of(back@), rgb_of(src@));
                assert(float_rgb.ensures(args, o));
                assert(o == c);
            }
            c
        },
        _ => (
            separable_channel(mode, back[0], src[0]),
            separable_channel(mode, back[1], src[1]),
            separable_channel(mode, back[2], src[2]),
        ),
    };
    let r = blender_normal(back, [rgb.0, rgb.1, rgb.2, src[3]], opacity);
    assert([rgb.0, rgb.1, rgb.2, src[3]]@ =~= legacy_rgb(mode, back@, src@, float_oracle(*float_rgb)).push(src[3]));
    r
}

/// Blends `src` onto `back` in `mode` at `opacity` (0 to 255), the way
/// Aseprite does since version 1.3. Unknown modes blend as normal.
/// `float_rgb` computes the floating-point modes (soft light and the HSL
/// modes); it is called only for those.
pub fn blend<F: Fn(BlendMode, Rgb, Rgb) -> Rgb>(
    mode: BlendMode,
    back: Rgba,
    src: Rgba,
    opacity: i32,
    float_rgb: &F,
) -> (r: Rgba)
    requires
        0 <= opacity <= 255,
        float_ok(*float_rgb),
    ensures
        r@ == blend_px(mode, back@, src@, opacity as int, float_oracle(*float_rgb)),
{
    match mode {
        BlendMode::Normal | BlendMode::Unknown(_) => blender_normal(back, src, opacity),
        _ => {
            if back[3] == 0 {
                return blender_normal(back, src, opacity);
            }
            let normal = blender_normal(back, src, opacity);
            let blended = blender_legacy(mode, back, src, opacity, float_rgb);
            let ba = back[3] as i32;
            let m1 = blender_merge(normal, blended, ba);
            proof {
                lemma_prod_bound(src[3] as int, opacity as int);
                lemma_mul8_rounds(src[3] as int, opacity as int);
            }
            let src_total_alpha = mul_un8(src[3] as i32, opacity);
            proof {
                lemma_prod_bound(ba as int, src_total_alpha as int);
                lemma_mul8_rounds(ba as int, src_total_alpha as int);
            }
            let composite_alpha = mul_un8(ba, src_total_alpha);
            blender_merge(m1, blended, composite_alpha)
        },
    }
}


/// One channel of overlay over an opaque backdrop: the hard light of the
/// source by the backdrop, with the roles of the two swapped. A backdrop
/// channel `b` below 128 scales the source down, `round(s * 2b / 255)`;
/// otherwise the source is screened with `2b - 255`. The value is a byte.
pub open spec fn overlay_channel(b: int, s: int) -> int {
    if b < 128 {
        mul8(s, 2 * b)
    } else {
        s + (2 * b - 255) - mul8(s, 2 * b - 255)
    }
}

proof fn lemma_overlay_channel_byte(b: int, s: int)
    requires
        0 <= b <= 255,
        0 <= s <= 255,
    ensures
        0 <= overlay_channel(b, s) <= 255,
        sep_ch(BlendMode::Overlay, b, s) == overlay_channel(b, s),
{
    if b < 128 {
        lemma_mul8_rounds(s, 2 * b);
    } else {
        let d = 2 * b - 255;
        lemma_mul8_rounds(s, d);
        assert((2 * (s * d) + 255) / 510 >= s + d - 255) by (nonlinear_arith)
            requires
                0 <= s <= 255,
                0 <= d <= 255,
        {
            assert(2 * (s * d) + 255 - 510 * (s + d - 255) == 2 * ((255 - s) * (255 - d)) + 255) by (nonlinear_arith);
            assert((255 - s) * (255 - d) >= 0) by (nonlinear_arith)
                requires
                    0 <= s <= 255,
                    0 <= d <= 255,
            ;
        }
    }
}

/// Overlay of an opaque source at full opacity onto an opaque backdrop
/// gives, in each color channel, [`overlay_channel`] of the backdrop and
/// source channels (for example backdrop 100 and source 200 give 157), and
/// stays opaque.
pub proof fn lemma_overlay_opaque(back: Seq<u8>, src: Seq<u8>, fl: FloatBlender)
    requires
        back.len() == 4,
        src.len() == 4,
        back[3] == 255,
        src[3] == 255,
    ensures
        blend_px(BlendMode::Overlay, back, src, 255, fl).len() == 4,
        forall|c: int|
            0 <= c < 3 ==> #[trigger] blend_px(BlendMode::Overlay, back, src, 255, fl)[c] == overlay_channel(
                back[c] as int,
                src[c] as int,
            ),
        blend_px(BlendMode::Overlay, back, src, 255, fl)[3] == 255,
{
    lemma_opaque_backdrop_blend_is_legacy(BlendMode::Overlay, back, src, 255, fl);
    let c = legacy_rgb(BlendMode::Overlay, back, src, fl).push(src[3]);
    lemma_opaque_source_replaces(back, c);
    lemma_overlay_channel_byte(back[0] as int, src[0] as int);
    lemma_overlay_channel_byte(back[1] as int, src[1] as int);
    lemma_overlay_channel_byte(back[2] as int, src[2] as int);
}

proof fn lemma_mul8_full(d: int)
    requires
        -255 <= d <= 255,
    ensures
        mul8(d, 255) == d,
        mul8(255, d) == d,
{
    let x: i32 = d as i32;
    assert(-255 <= x <= 255 ==> ((x * 255 + 128) / 256 + x * 255 + 128) / 256 == x) by (bit_vector);
    assert(x as int == d);
}

/// An opaque source at full opacity replaces whatever lies below it.
pub proof fn lemma_opaque_source_replaces(back: Seq<u8>, src: Seq<u8>)
    requires
        back.len() == 4,
        src.len() == 4,
        src[3] == 255,
    ensures
        normal_px(back, src, 255) == src,
{
    lemma_mul8_full(255);
    if back[3] != 0 {
        lemma_mul8_full(back[3] as int);
        let ba = back[3] as int;
        assert(mul8(ba, 255) == ba);
        assert(over_ch(back[0] as int, src[0] as int, 255, 255) == src[0]) by (nonlinear_arith);
        assert(over_ch(back[1] as int, src[1] as int, 255, 255) == src[1]) by (nonlinear_arith);
        assert(over_ch(back[2] as int, src[2] as int, 255, 255) == src[2]) by (nonlinear_arith);
    }
    assert(normal_px(back, src, 255) =~= src);
}

proof fn lemma_normal_over_opaque_is_opaque(back: Seq<u8>, src: Seq<u8>, opacity: int)
    requires
        back.len() == 4,
        src.len() == 4,
        back[3] == 255,
        0 <= opacity <= 255,
    ensures
        normal_px(back, src, opacity).len() == 4,
        normal_px(back, src, opacity)[3] == 255,
{
    if src[3] != 0 {
        lemma_mul8_rounds(src[3] as int, opacity);
        lemma_mul8_full(mul8(src[3] as int, opacity));
    }
}

proof fn lemma_merge_opaque_full(x: Seq<u8>, y: Seq<u8>)
    requires
        x.len() == 4,
        y.len() == 4,
        x[3] == 255,
        y[3] == 255,
    ensures
        merge_px(x, y, 255) == y,
{
    lemma_mul8_full(0);
    lemma_mul8_full(y[0] - x[0]);
    lemma_mul8_full(y[1] - x[1]);
    lemma_mul8_full(y[2] - x[2]);
    assert(merge_px(x, y, 255) =~= y);
}

proof fn lemma_merge_same(y: Seq<u8>, opacity: int)
    requires
        y.len() == 4,
        y[3] == 255,
    ensures
        merge_px(y, y, opacity) == y,
{
    assert(mul8(0, opacity) == 0);
    assert(merge_px(y, y, opacity) =~= y);
}

/// Over an opaque backdrop the two merges of the newer blender cancel out:
/// the result is exactly the legacy blender's.
pub proof fn lemma_opaque_backdrop_blend_is_legacy(
    mode: BlendMode,
    back: Seq<u8>,
    src: Seq<u8>,
    opacity: int,
    fl: FloatBlender,
)
    requires
        back.len() == 4,
        src.len() == 4,
        back[3] == 255,
        0 <= opacity <= 255,
        !is_plain_mode(mode),
    ensures
        blend_px(mode, back, src, opacity, fl) == legacy_px(mode, back, src, opacity, fl),
{
    let normal = normal_px(back, src, opacity);
    let blended = legacy_px(mode, back, src, opacity, fl);
    lemma_normal_over_opaque_is_opaque(back, src, opacity);
    lemma_normal_over_opaque_is_opaque(back, legacy_rgb(mode, back, src, fl).push(src[3]), opacity);
    lemma_merge_opaque_full(normal, blended);
    lemma_merge_same(blended, mul8(back[3] as int, mul8(src[3] as int, opacity)));
}

} // verus!
