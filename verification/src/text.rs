//! Message text: decimal and hexadecimal numbers and literal pieces,
//! assembled as UTF-8 bytes and turned into a `String`.
use crate::read::utf8_to_string;
use vstd::prelude::*;
use vstd::utf8::{
    decode_utf8, encode_utf8, encode_utf8_decode_utf8, encode_utf8_valid_utf8, is_ascii_chars,
    is_ascii_chars_encode_utf8,
};

verus! {

/// The digit for `d` (0 to 15): `0`-`9`, then upper-case `A`-`F`.
pub open spec fn digit_char(d: int) -> char {
    if d < 10 {
        (48 + d) as char
    } else {
        (55 + d) as char
    }
}

/// `n` in decimal, without leading zeros.
pub open spec fn dec_chars(n: nat) -> Seq<char>
    decreases n,
{
    if n < 10 {
        seq![digit_char(n as int)]
    } else {
        dec_chars(n / 10).push(digit_char((n % 10) as int))
    }
}

/// `v` as four upper-case hexadecimal digits.
pub open spec fn hex4_chars(v: u16) -> Seq<char> {
    seq![
        digit_char(v as int / 4096),
        digit_char((v as int / 256) % 16),
        digit_char((v as int / 16) % 16),
        digit_char(v as int % 16),
    ]
}

/// Encoding a concatenation concatenates the encodings.
proof fn lemma_encode_concat(a: Seq<char>, b: Seq<char>)
    ensures
        encode_utf8(a + b) == encode_utf8(a) + encode_utf8(b),
    decreases a.len(),
{
    if a.len() > 0 {
        assert((a + b).drop_first() =~= a.drop_first() + b);
        assert((a + b)[0] == a[0]);
        lemma_encode_concat(a.drop_first(), b);
        assert(encode_utf8(a + b) =~= encode_utf8(a) + encode_utf8(b));
    } else {
        assert(a + b =~= b);
    }
}

/// Appends the UTF-8 bytes of `s` to text whose bytes are `out`.
pub(crate) fn push_text(out: &mut Vec<u8>, Ghost(g): Ghost<Seq<char>>, s: &str)
    requires
        old(out)@ == encode_utf8(g),
    ensures
        final(out)@ == encode_utf8(g + s@),
{
    let b = s.as_bytes();
    let ghost start = out@;
    let mut i: usize = 0;
    while i < b.len()
        invariant
            i <= b@.len(),
            b@ == encode_utf8(s@),
            out@ == start + b@.take(i as int),
        decreases b.len() - i,
    {
        out.push(b[i]);
        assert(b@.take(i + 1) =~= b@.take(i as int).push(b@[i as int]));
        i = i + 1;
    }
    assert(b@.take(i as int) =~= b@);
    proof {
        lemma_encode_concat(g, s@);
    }
}

/// Appends the digit for `d`.
fn push_digit(out: &mut Vec<u8>, Ghost(g): Ghost<Seq<char>>, d: u8)
    requires
        old(out)@ == encode_utf8(g),
        d < 16,
    ensures
        final(out)@ == encode_utf8(g.push(digit_char(d as int))),
{
    let c: u8 = if d < 10 {
        48 + d
    } else {
        55 + d
    };
    out.push(c);
    proof {
        let one = seq![digit_char(d as int)];
        assert(is_ascii_chars(one));
        is_ascii_chars_encode_utf8(one);
        assert(encode_utf8(one) =~= seq![c]);
        lemma_encode_concat(g, one);
        assert(g + one =~= g.push(digit_char(d as int)));
    }
}

/// Appends `n` in decimal.
pub(crate) fn push_dec(out: &mut Vec<u8>, Ghost(g): Ghost<Seq<char>>, n: usize)
    requires
        old(out)@ == encode_utf8(g),
    ensures
        final(out)@ == encode_utf8(g + dec_chars(n as nat)),
    decreases n,
{
    if n >= 10 {
        push_dec(out, Ghost(g), n / 10);
        push_digit(out, Ghost(g + dec_chars((n / 10) as nat)), (n % 10) as u8);
        assert(g + dec_chars((n / 10) as nat).push(digit_char((n % 10) as int)) =~= (g + dec_chars(
            (n / 10) as nat,
        )).push(digit_char((n % 10) as int)));
    } else {
        push_digit(out, Ghost(g), n as u8);
        assert(g + dec_chars(n as nat) =~= g.push(digit_char(n as int)));
    }
}

/// Appends `v` as four hexadecimal digits.
pub(crate) fn push_hex4(out: &mut Vec<u8>, Ghost(g): Ghost<Seq<char>>, v: u16)
    requires
        old(out)@ == encode_utf8(g),
    ensures
        final(out)@ == encode_utf8(g + hex4_chars(v)),
{
    let ghost d0 = digit_char(v as int / 4096);
    let ghost d1 = digit_char((v as int / 256) % 16);
    let ghost d2 = digit_char((v as int / 16) % 16);
    push_digit(out, Ghost(g), (v / 4096) as u8);
    push_digit(out, Ghost(g.push(d0)), ((v / 256) % 16) as u8);
    push_digit(out, Ghost(g.push(d0).push(d1)), ((v / 16) % 16) as u8);
    push_digit(out, Ghost(g.push(d0).push(d1).push(d2)), (v % 16) as u8);
    assert(g.push(d0).push(d1).push(d2).push(digit_char(v as int % 16)) =~= g + hex4_chars(v));
}

/// The text whose UTF-8 bytes are `bytes`.
pub(crate) fn into_text(bytes: Vec<u8>, Ghost(g): Ghost<Seq<char>>) -> (r: String)
    requires
        bytes@ == encode_utf8(g),
    ensures
        r@ == g,
{
    proof {
        encode_utf8_valid_utf8(g);
        encode_utf8_decode_utf8(g);
    }
    match utf8_to_string(bytes.as_slice()) {
        Some(s) => s,
        None => String::new(),
    }
}

} // verus!
