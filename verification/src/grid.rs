//! The "WxH" cell size of the sprite-frames importer's `split_grid` option,
//! which chops each frame's canvas into cells of that size.
use vstd::prelude::*;
use vstd::string::StrSliceExecFns;

verus! {

/// Whether `c` has the Unicode `White_Space` property, the whitespace that
/// `str::trim` removes.
pub open spec fn is_white_space(c: char) -> bool {
    let v = c as u32;
    ||| 0x09 <= v <= 0x0D
    ||| v == 0x20 || v == 0x85 || v == 0xA0 || v == 0x1680
    ||| 0x2000 <= v <= 0x200A
    ||| v == 0x2028 || v == 0x2029 || v == 0x202F || v == 0x205F || v == 0x3000
}

/// `s` without its leading white space.
pub open spec fn trim_start(s: Seq<char>) -> Seq<char>
    decreases s.len(),
{
    if s.len() > 0 && is_white_space(s[0]) {
        trim_start(s.drop_first())
    } else {
        s
    }
}

/// `s` without its trailing white space.
pub open spec fn trim_end(s: Seq<char>) -> Seq<char>
    decreases s.len(),
{
    if s.len() > 0 && is_white_space(s.last()) {
        trim_end(s.drop_last())
    } else {
        s
    }
}

/// `s` without white space at either end.
pub open spec fn trim(s: Seq<char>) -> Seq<char> {
    trim_end(trim_start(s))
}

pub open spec fn is_x(c: char) -> bool {
    c == 'x' || c == 'X'
}

/// `i` is the position of the first `x` or `X` in `t`.
pub open spec fn first_x(t: Seq<char>, i: int) -> bool {
    &&& 0 <= i < t.len()
    &&& is_x(t[i])
    &&& forall|j: int| 0 <= j < i ==> !is_x(#[trigger] t[j])
}

pub open spec fn is_digit(c: char) -> bool {
    0x30 <= c as u32 <= 0x39
}

/// The number that the decimal digits `d` spell.
pub open spec fn digits_value(d: Seq<char>) -> int
    decreases d.len(),
{
    if d.len() == 0 {
        0
    } else {
        digits_value(d.drop_last()) * 10 + (d.last() as u32 - 0x30)
    }
}

/// `s` without one leading `+`.
pub open spec fn unsigned_digits(s: Seq<char>) -> Seq<char> {
    if s.len() > 0 && s[0] == '+' {
        s.drop_first()
    } else {
        s
    }
}

/// What `str::parse::<u32>` gives for `s`: an optional `+`, then one or
/// more decimal digits whose value fits in a `u32`.
pub open spec fn parse_u32(s: Seq<char>) -> Option<u32> {
    let d = unsigned_digits(s);
    if d.len() > 0 && (forall|k: int| 0 <= k < d.len() ==> is_digit(#[trigger] d[k])) && digits_value(d)
        <= u32::MAX {
        Some(digits_value(d) as u32)
    } else {
        None
    }
}

/// The cell size that the option `s` names: the trimmed text split at its
/// first `x` or `X`, each side trimmed and read as a `u32`.
pub open spec fn grid_cells(s: Seq<char>) -> Option<(u32, u32)> {
    let t = trim(s);
    if exists|i: int| first_x(t, i) {
        let i = choose|i: int| first_x(t, i);
        match (parse_u32(trim(t.take(i))), parse_u32(trim(t.skip(i + 1)))) {
            (Some(w), Some(h)) => Some((w, h)),
            _ => None,
        }
    } else {
        None
    }
}

proof fn lemma_trim_start_at(s: Seq<char>, a: int)
    requires
        0 <= a <= s.len(),
        forall|k: int| 0 <= k < a ==> is_white_space(#[trigger] s[k]),
        a == s.len() || !is_white_space(s[a]),
    ensures
        trim_start(s) == s.skip(a),
    decreases a,
{
    if a == 0 {
        assert(s.skip(0) =~= s);
    } else {
        assert(is_white_space(s[0]));
        let r = s.drop_first();
        assert forall|k: int| 0 <= k < a - 1 implies is_white_space(#[trigger] r[k]) by {
            assert(r[k] == s[k + 1]);
        }
        lemma_trim_start_at(r, a - 1);
        assert(r.skip(a - 1) =~= s.skip(a));
    }
}

proof fn lemma_trim_end_at(t: Seq<char>, m: int)
    requires
        0 <= m <= t.len(),
        forall|k: int| m <= k < t.len() ==> is_white_space(#[trigger] t[k]),
        m == 0 || !is_white_space(t[m - 1]),
    ensures
        trim_end(t) == t.take(m),
    decreases t.len() - m,
{
    if m == t.len() {
        assert(t.take(m) =~= t);
    } else {
        assert(is_white_space(t.last()));
        let r = t.drop_last();
        assert forall|k: int| m <= k < r.len() implies is_white_space(#[trigger] r[k]) by {
            assert(r[k] == t[k]);
        }
        lemma_trim_end_at(r, m);
        assert(r.take(m) =~= t.take(m));
    }
}

proof fn lemma_digits_prefix(d: Seq<char>, k: int)
    requires
        0 <= k <= d.len(),
        forall|j: int| 0 <= j < d.len() ==> is_digit(#[trigger] d[j]),
    ensures
        0 <= digits_value(d.take(k)) <= digits_value(d),
    decreases d.len(),
{
    if k == d.len() {
        assert(d.take(k) =~= d);
        if d.len() > 0 {
            lemma_digits_prefix(d.drop_last(), k - 1);
        }
    } else {
        let r = d.drop_last();
        assert(r.take(k) =~= d.take(k));
        lemma_digits_prefix(r, k);
        assert(is_digit(d[d.len() - 1]));
    }
}

/// The bounds of `s@[lo..hi]` without white space at either end.
fn trim_range(s: &str, lo: usize, hi: usize) -> (r: (usize, usize))
    requires
        lo <= hi <= s@.len(),
    ensures
        lo <= r.0 <= r.1 <= hi,
        trim(s@.subrange(lo as int, hi as int)) == s@.subrange(r.0 as int, r.1 as int),
{
    let ghost t = s@.subrange(lo as int, hi as int);
    let mut a = lo;
    while a < hi && is_white_space_char(s.get_char(a))
        invariant
            lo <= a <= hi <= s@.len(),
            forall|k: int| lo <= k < a ==> is_white_space(#[trigger] s@[k]),
        decreases hi - a,
    {
        a = a + 1;
    }
    proof {
        assert forall|k: int| 0 <= k < a - lo implies is_white_space(#[trigger] t[k]) by {
            assert(t[k] == s@[lo + k]);
        }
        lemma_trim_start_at(t, a - lo);
    }
    let mut b = hi;
    while b > a && is_white_space_char(s.get_char(b - 1))
        invariant
            lo <= a <= b <= hi <= s@.len(),
            forall|k: int| b <= k < hi ==> is_white_space(#[trigger] s@[k]),
        decreases b - a,
    {
        b = b - 1;
    }
    proof {
        let u = s@.subrange(a as int, hi as int);
        assert(t.skip(a - lo) =~= u);
        assert forall|k: int| b - a <= k < u.len() implies is_white_space(#[trigger] u[k]) by {
            assert(u[k] == s@[a + k]);
        }
        lemma_trim_end_at(u, b - a);
        assert(u.take(b - a) =~= s@.subrange(a as int, b as int));
    }
    (a, b)
}

fn is_white_space_char(c: char) -> (b: bool)
    ensures
        b == is_white_space(c),
{
    let v = c as u32;
    (0x09 <= v && v <= 0x0D) || v == 0x20 || v == 0x85 || v == 0xA0 || v == 0x1680 || (0x2000 <= v && v
        <= 0x200A) || v == 0x2028 || v == 0x2029 || v == 0x202F || v == 0x205F || v == 0x3000
}

/// Reads `s@[lo..hi]` as `str::parse::<u32>` does.
fn parse_u32_range(s: &str, lo: usize, hi: usize) -> (r: Option<u32>)
    requires
        lo <= hi <= s@.len(),
    ensures
        r == parse_u32(s@.subrange(lo as int, hi as int)),
{
    let ghost w = s@.subrange(lo as int, hi as int);
    let start = if lo < hi && s.get_char(lo) == '+' {
        lo + 1
    } else {
        lo
    };
    let ghost d = s@.subrange(start as int, hi as int);
    proof {
        if lo < hi && w[0] == '+' {
            assert(w.drop_first() =~= d);
        } else {
            assert(w =~= d);
        }
    }
    if start == hi {
        return None;
    }
    let mut acc: u64 = 0;
    let mut k = start;
    while k < hi
        invariant
            lo <= start <= k <= hi <= s@.len(),
            d == s@.subrange(start as int, hi as int),
            w == s@.subrange(lo as int, hi as int),
            d == unsigned_digits(w),
            d.len() > 0,
            forall|j: int| start <= j < k ==> is_digit(#[trigger] s@[j]),
            acc == digits_value(s@.subrange(start as int, k as int)),
            acc <= u32::MAX,
        decreases hi - k,
    {
        let c = s.get_char(k);
        let v = c as u32;
        if !(0x30 <= v && v <= 0x39) {
            proof {
                assert(d[k - start] == s@[k as int]);
                assert(!is_digit(d[k - start]));
                assert(parse_u32(w) is None);
            }
            return None;
        }
        let digit = (v - 0x30) as u64;
        proof {
            let p = s@.subrange(start as int, k + 1);
            assert(p.drop_last() =~= s@.subrange(start as int, k as int));
            assert(p.last() == c);
        }
        acc = acc * 10 + digit;
        k = k + 1;
        if acc > 0xFFFF_FFFF {
            proof {
                let p = s@.subrange(start as int, k as int);
                let j0 = k - start;
                if forall|q: int| 0 <= q < d.len() ==> is_digit(#[trigger] d[q]) {
                    assert(d.take(j0) =~= p);
                    lemma_digits_prefix(d, j0);
                }
            }
            return None;
        }
    }
    proof {
        assert(d =~= s@.subrange(start as int, k as int));
        assert forall|q: int| 0 <= q < d.len() implies is_digit(#[trigger] d[q]) by {
            assert(d[q] == s@[start + q]);
        }
    }
    Some(acc as u32)
}

/// Reads the sprite-frames importer's `split_grid` option. A blank option
/// gives `Ok(None)` (no grid); `Ok(Some((w, h)))` where the trimmed text is
/// two whole numbers around its first `x` or `X`, each side optionally
/// padded with white space, as in `"16x16"` or `" 8 X 4 "`; `Err(())`
/// otherwise.
pub fn parse_split_grid(s: &str) -> (r: Result<Option<(u32, u32)>, ()>)
    ensures
        trim(s@).len() == 0 ==> r == Ok::<Option<(u32, u32)>, ()>(None),
        trim(s@).len() > 0 ==> r == match grid_cells(s@) {
            Some(c) => Ok::<Option<(u32, u32)>, ()>(Some(c)),
            None => Err(()),
        },
{
    let n = s.unicode_len();
    let (a, b) = trim_range(s, 0, n);
    let ghost t = trim(s@);
    proof {
        assert(s@.subrange(0, n as int) =~= s@);
    }
    if a == b {
        return Ok(None);
    }
    let mut i = a;
    while i < b && !(s.get_char(i) == 'x' || s.get_char(i) == 'X')
        invariant
            a <= i <= b <= s@.len(),
            t == s@.subrange(a as int, b as int),
            forall|j: int| a <= j < i ==> !is_x(#[trigger] s@[j]),
        decreases b - i,
    {
        i = i + 1;
    }
    if i == b {
        proof {
            assert forall|q: int| !first_x(t, q) by {
                if first_x(t, q) {
                    assert(t[q] == s@[a + q]);
                }
            }
        }
        return Err(());
    }
    let ghost x = i - a;
    proof {
        assert(first_x(t, x)) by {
            assert forall|j: int| 0 <= j < x implies !is_x(#[trigger] t[j]) by {
                assert(t[j] == s@[a + j]);
            }
        }
        let c = choose|q: int| first_x(t, q);
        assert(c == x) by {
            if c < x {
                assert(t[c] == s@[a + c]);
            } else if c > x {
                assert(!is_x(t[x]));
            }
        }
        assert(t.take(x) =~= s@.subrange(a as int, i as int));
        assert(t.skip(x + 1) =~= s@.subrange(i + 1, b as int));
    }
    let (wa, wb) = trim_range(s, a, i);
    let (ha, hb) = trim_range(s, i + 1, b);
    match (parse_u32_range(s, wa, wb), parse_u32_range(s, ha, hb)) {
        (Some(w), Some(h)) => Ok(Some((w, h))),
        _ => Err(()),
    }
}

} // verus!
