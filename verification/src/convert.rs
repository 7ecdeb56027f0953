//! What an importer derives from a document: animations from tags (with
//! their playback order), their key timelines, layer visibility adjusted by
//! import options, and which tracks a reimport keeps.
use crate::file::{AseFile, AseFileV};
use crate::model::{AniDir, Cel, CelV, Layer, LayerV};
use crate::parse::layer::layers_view;
use vstd::prelude::*;
use vstd::utf8::encode_utf8;

verus! {

/// Options shared by the importers.
pub struct ConvertOptions {
    /// Case-sensitive substring matched against layer names; matching
    /// layers are hidden.
    pub exclude_layers: String,
    /// Render layers that are hidden in Aseprite too.
    pub include_hidden_layers: bool,
}

/// An animation: its name, the frames it plays in order, and whether it
/// loops.
pub struct Anim {
    pub name: String,
    pub order: Vec<usize>,
    pub looped: bool,
}

/// `a, a + 1, ..., b`; empty when `b < a`.
pub open spec fn range_up(a: int, b: int) -> Seq<usize> {
    Seq::new(if b >= a { (b - a + 1) as nat } else { 0 }, |i: int| (a + i) as usize)
}

/// `b, b - 1, ..., a`; empty when `b < a`.
pub open spec fn range_down(a: int, b: int) -> Seq<usize> {
    Seq::new(if b >= a { (b - a + 1) as nat } else { 0 }, |i: int| (b - i) as usize)
}

/// Playback order of frames `from..=to` in a direction. Ping-pong plays
/// there and back without repeating the endpoints.
pub open spec fn frame_order(from: int, to: int, direction: AniDir) -> Seq<usize> {
    match direction {
        AniDir::Forward => range_up(from, to),
        AniDir::Reverse => range_down(from, to),
        AniDir::PingPong => range_up(from, to) + if to > from + 1 {
            range_down(from + 1, to - 1)
        } else {
            Seq::empty()
        },
        AniDir::PingPongReverse => range_down(from, to) + if to > from + 1 {
            range_up(from + 1, to - 1)
        } else {
            Seq::empty()
        },
    }
}

/// Appends `a, a + 1, ..., b - 1` (`b` exclusive).
fn push_up(v: &mut Vec<usize>, a: usize, b: usize)
    ensures
        final(v)@ == old(v)@ + range_up(a as int, b - 1),
{
    let ghost start = v@;
    let mut i = a;
    while i < b
        invariant
            a <= i <= b || (a > b && i == a),
            v@ == start + range_up(a as int, i - 1),
        decreases b - i,
    {
        v.push(i);
        assert(range_up(a as int, i as int) =~= range_up(a as int, i - 1).push(i));
        i = i + 1;
    }
    assert(range_up(a as int, i - 1) =~= range_up(a as int, b - 1));
}

/// Appends `b - 1, b - 2, ..., a` (`b` exclusive).
fn push_down(v: &mut Vec<usize>, a: usize, b: usize)
    ensures
        final(v)@ == old(v)@ + range_down(a as int, b - 1),
{
    let ghost start = v@;
    let mut i = b;
    while i > a
        invariant
            a <= i <= b || (a > b && i == b),
            v@ == start + Seq::new((b - i) as nat, |j: int| (b - 1 - j) as usize),
        decreases i,
    {
        v.push(i - 1);
        assert(Seq::new((b - (i - 1)) as nat, |j: int| (b - 1 - j) as usize) =~= Seq::new(
            (b - i) as nat,
            |j: int| (b - 1 - j) as usize,
        ).push((i - 1) as usize));
        i = i - 1;
    }
    assert(Seq::new((b - i) as nat, |j: int| (b - 1 - j) as usize) =~= range_down(a as int, b - 1));
}

/// Frame playback order for a tag range per its direction: 0,1,2,3 plays
/// 0,1,2,3,2,1 in ping-pong (endpoints are not doubled when looping).
pub fn tag_frame_order(from: usize, to: usize, direction: AniDir) -> (r: Vec<usize>)
    requires
        to < usize::MAX,
    ensures
        r@ == frame_order(from as int, to as int, direction),
{
    let mut v: Vec<usize> = Vec::new();
    match direction {
        AniDir::Forward => {
            push_up(&mut v, from, to + 1);
        },
        AniDir::Reverse => {
            push_down(&mut v, from, to + 1);
        },
        AniDir::PingPong => {
            push_up(&mut v, from, to + 1);
            if from < to && to - from > 1 {
                push_down(&mut v, from + 1, to);
            } else {
                assert(v@ =~= v@ + Seq::<usize>::empty());
            }
        },
        AniDir::PingPongReverse => {
            push_down(&mut v, from, to + 1);
            if from < to && to - from > 1 {
                push_up(&mut v, from + 1, to);
            } else {
                assert(v@ =~= v@ + Seq::<usize>::empty());
            }
        },
    }
    assert(v@ =~= frame_order(from as int, to as int, direction));
    v
}


/// Ping-pong never plays a frame twice in a row, looping included: over a
/// range of two or more frames it plays `2 * (to - from)` frames, and
/// cyclically consecutive ones always differ by exactly one.
pub proof fn lemma_ping_pong_no_doubled_endpoints(from: int, to: int, direction: AniDir)
    requires
        0 <= from < to,
        to < usize::MAX,
        direction is PingPong || direction is PingPongReverse,
    ensures
        ({
            let s = frame_order(from, to, direction);
            &&& s.len() == 2 * (to - from)
            &&& forall|i: int|
                0 <= i < s.len() ==> (#[trigger] s[i] - s[(i + 1) % (s.len() as int)] == 1 || s[i] - s[(i + 1) % (s.len() as int)]
                    == -1)
        }),
{
    let s = frame_order(from, to, direction);
    let n = s.len() as int;
    assert forall|i: int| 0 <= i < n implies (#[trigger] s[i] - s[(i + 1) % n] == 1 || s[i] - s[(i + 1) % n]
        == -1) by {
        if i + 1 < n {
            vstd::arithmetic::div_mod::lemma_small_mod((i + 1) as nat, n as nat);
        } else {
            vstd::arithmetic::div_mod::lemma_mod_self_0(n);
        }
    }
}

/// Model of an [`Anim`]: name, frame order, whether it loops.
pub open spec fn anim_view(a: Anim) -> (Seq<char>, Seq<usize>, bool) {
    (a.name@, a.order@, a.looped)
}

pub open spec fn anims_view(v: Seq<Anim>) -> Seq<(Seq<char>, Seq<usize>, bool)> {
    v.map_values(|a: Anim| anim_view(a))
}

/// The animation a tag makes, its range clamped to the frames there are.
pub open spec fn tag_anim(f: AseFileV, i: int) -> (Seq<char>, Seq<usize>, bool) {
    let t = f.tags[i];
    let last = if f.frames.len() >= 1 { f.frames.len() - 1 } else { 0 };
    let to = if t.to_frame < last { t.to_frame as int } else { last };
    (t.name, frame_order(t.from_frame as int, to, t.direction), t.repeat == 0)
}

/// Tags become animations (a repeat count of 0 loops forever); an untagged
/// file becomes one looping "default" animation over all frames.
pub open spec fn animations_spec(f: AseFileV) -> Seq<(Seq<char>, Seq<usize>, bool)> {
    if f.tags.len() == 0 {
        seq![("default"@, range_up(0, f.frames.len() - 1), true)]
    } else {
        Seq::new(f.tags.len(), |i: int| tag_anim(f, i))
    }
}

/// The animations of a document.
pub fn animations(file: &AseFile) -> (r: Vec<Anim>)
    ensures
        anims_view(r@) == animations_spec(file@),
{
    let ghost fv = file@;
    if file.tags.len() == 0 {
        let mut order: Vec<usize> = Vec::new();
        push_up(&mut order, 0, file.frames.len());
        let r = vec![Anim { name: "default".to_owned(), order, looped: true }];
        assert(anims_view(r@) =~= animations_spec(fv));
        return r;
    }
    let last = if file.frames.len() >= 1 { file.frames.len() - 1 } else { 0 };
    let mut out: Vec<Anim> = Vec::new();
    let mut i: usize = 0;
    while i < file.tags.len()
        invariant
            i <= file.tags.len(),
            fv == file@,
            fv.tags.len() > 0,
            last == (if fv.frames.len() >= 1 { fv.frames.len() - 1 } else { 0 }),
            anims_view(out@) == animations_spec(fv).take(i as int),
            out@.len() == i,
        decreases file.tags.len() - i,
    {
        let t = &file.tags[i];
        assert(fv.tags[i as int] == t@);
        let from = t.from_frame as usize;
        let to = if (t.to_frame as usize) < last { t.to_frame as usize } else { last };
        let order = tag_frame_order(from, to, t.direction);
        let ghost before = out@;
        out.push(Anim { name: t.name.clone(), order, looped: t.repeat == 0 });
        assert(anims_view(out@) =~= animations_spec(fv).take(i + 1)) by {
            assert forall|j: int| 0 <= j < i implies #[trigger] anims_view(out@)[j]
                == animations_spec(fv).take(i + 1)[j] by {
                assert(out@[j] == before[j]);
                assert(anims_view(before)[j] == animations_spec(fv).take(i as int)[j]);
            }
        }
        i = i + 1;
    }
    assert(animations_spec(fv).take(i as int) =~= animations_spec(fv));
    out
}


/// Milliseconds it takes to play the frames `order` once.
pub open spec fn play_ms(f: AseFileV, order: Seq<usize>) -> int
    decreases order.len(),
{
    if order.len() == 0 {
        0
    } else {
        play_ms(f, order.drop_last()) + f.frames[order.last() as int].duration_ms
    }
}

/// The method calls the cels of a frame starting at `t` ms make: each
/// non-empty cel user-data text, in cel order.
pub open spec fn cel_calls(cels: Seq<CelV>, t: int) -> Seq<(u32, Seq<char>)>
    decreases cels.len(),
{
    if cels.len() == 0 {
        Seq::empty()
    } else {
        cel_calls(cels.drop_last(), t) + match cels.last().user_data.text {
            Some(s) => if s.len() > 0 {
                seq![(t as u32, s)]
            } else {
                Seq::empty()
            },
            None => Seq::empty(),
        }
    }
}

/// The method calls made while playing the frames `order`, each at the
/// start of its frame.
pub open spec fn calls_of(f: AseFileV, order: Seq<usize>) -> Seq<(u32, Seq<char>)>
    decreases order.len(),
{
    if order.len() == 0 {
        Seq::empty()
    } else {
        calls_of(f, order.drop_last()) + cel_calls(
            f.frames[order.last() as int].cels,
            play_ms(f, order.drop_last()),
        )
    }
}

/// The keys of an animation track: its length, the frame shown from each
/// start time, and the method calls (cel user-data text) keyed at the start
/// of their frame. Times are in milliseconds.
pub struct Timeline {
    pub length_ms: u32,
    pub frame_keys: Vec<(u32, usize)>,
    pub calls: Vec<(u32, String)>,
}

/// Models of method-call keys.
pub open spec fn calls_view(v: Seq<(u32, String)>) -> Seq<(u32, Seq<char>)> {
    v.map_values(|c: (u32, String)| (c.0, c.1@))
}

/// Playing a prefix takes no longer than playing the whole order.
proof fn lemma_play_prefix(f: AseFileV, order: Seq<usize>, k: int)
    requires
        0 <= k <= order.len(),
    ensures
        play_ms(f, order.take(k)) <= play_ms(f, order),
    decreases order.len(),
{
    if k < order.len() {
        lemma_play_prefix(f, order.drop_last(), k);
        assert(order.drop_last().take(k) =~= order.take(k));
    } else {
        assert(order.take(k) =~= order);
    }
}

/// Appends the method calls of `cels`, all keyed at `t`.
fn push_cel_calls(cels: &Vec<Cel>, t: u32, calls: &mut Vec<(u32, String)>)
    ensures
        calls_view(final(calls)@) == calls_view(old(calls)@) + cel_calls(
            cels@.map_values(|c: Cel| c@),
            t as int,
        ),
{
    let ghost cv = cels@.map_values(|c: Cel| c@);
    let ghost base = calls_view(calls@);
    let mut c: usize = 0;
    assert(cv.take(0) =~= Seq::<CelV>::empty());
    assert(base + cel_calls(cv.take(0), t as int) =~= base);
    while c < cels.len()
        invariant
            c <= cels.len(),
            cv == cels@.map_values(|c: Cel| c@),
            calls_view(calls@) == base + cel_calls(cv.take(c as int), t as int),
        decreases cels.len() - c,
    {
        assert(cv.take(c + 1).drop_last() =~= cv.take(c as int));
        assert(cv.take(c + 1).last() == cels@[c as int]@);
        let ghost before = calls@;
        if let Some(text) = &cels[c].user_data.text {
            if !text.as_str().is_empty() {
                calls.push((t, text.clone()));
                assert(calls_view(calls@) =~= calls_view(before).push((t, text@)));
            }
        }
        assert(calls_view(calls@) =~= base + cel_calls(cv.take(c + 1), t as int));
        c = c + 1;
    }
    assert(cv.take(c as int) =~= cv);
}

/// The key timeline of an animation: a frame key at the start of every
/// step, the method calls of each frame's cels at its start, and the total
/// length.
pub fn animation_timeline(file: &AseFile, anim: &Anim) -> (r: Timeline)
    requires
        forall|k: int| 0 <= k < anim.order@.len() ==> #[trigger] anim.order@[k] < file@.frames.len(),
        play_ms(file@, anim.order@) <= u32::MAX,
    ensures
        r.length_ms == play_ms(file@, anim.order@),
        r.frame_keys@.len() == anim.order@.len(),
        forall|k: int|
            0 <= k < anim.order@.len() ==> #[trigger] r.frame_keys@[k] == (
                play_ms(file@, anim.order@.take(k)) as u32,
                anim.order@[k],
            ),
        calls_view(r.calls@) == calls_of(file@, anim.order@),
{
    let ghost f = file@;
    let ghost order = anim.order@;
    let mut frame_keys: Vec<(u32, usize)> = Vec::new();
    let mut calls: Vec<(u32, String)> = Vec::new();
    let mut t: u32 = 0;
    let mut k: usize = 0;
    assert(order.take(0) =~= Seq::<usize>::empty());
    while k < anim.order.len()
        invariant
            k <= order.len(),
            f == file@,
            order == anim.order@,
            forall|j: int| 0 <= j < order.len() ==> #[trigger] order[j] < f.frames.len(),
            play_ms(f, order) <= u32::MAX,
            t == play_ms(f, order.take(k as int)),
            frame_keys@.len() == k,
            forall|j: int|
                0 <= j < k ==> #[trigger] frame_keys@[j] == (
                    play_ms(f, order.take(j)) as u32,
                    order[j],
                ),
            calls_view(calls@) == calls_of(f, order.take(k as int)),
        decreases order.len() - k,
    {
        let idx = anim.order[k];
        assert(order[k as int] == idx);
        frame_keys.push((t, idx));
        let frame = &file.frames[idx];
        assert(f.frames[idx as int] == frame@);
        push_cel_calls(&frame.cels, t, &mut calls);
        proof {
            lemma_play_prefix(f, order, k + 1);
            assert(order.take(k + 1).drop_last() =~= order.take(k as int));
            assert(order.take(k + 1).last() == idx);
        }
        t = t + frame.duration_ms as u32;
        k = k + 1;
    }
    assert(order.take(k as int) =~= order);
    Timeline { length_ms: t, frame_keys, calls }
}

/// The frames a range plays lie within it.
proof fn lemma_frame_order_within(from: int, to: int, direction: AniDir)
    requires
        0 <= from,
        to <= usize::MAX,
    ensures
        forall|k: int|
            0 <= k < frame_order(from, to, direction).len() ==> from <= #[trigger] frame_order(
                from,
                to,
                direction,
            )[k] <= to,
{
    let s = frame_order(from, to, direction);
    let up = range_up(from, to);
    let down = range_down(from, to);
    assert forall|k: int| 0 <= k < s.len() implies from <= #[trigger] s[k] <= to by {
        if k < up.len() {
            assert(s[k] == up[k] || s[k] == down[k]);
        }
    }
}

/// Every animation of a document that has frames plays only frames it has.
pub proof fn lemma_animations_in_range(f: AseFileV)
    requires
        0 < f.frames.len() <= usize::MAX,
    ensures
        forall|a: int, k: int|
            0 <= a < animations_spec(f).len() && 0 <= k < animations_spec(f)[a].1.len()
                ==> #[trigger] animations_spec(f)[a].1[k] < f.frames.len(),
{
    let anims = animations_spec(f);
    assert forall|a: int, k: int| 0 <= a < anims.len() && 0 <= k < anims[a].1.len() implies #[trigger] anims[a].1[k]
        < f.frames.len() by {
        if f.tags.len() > 0 {
            let t = f.tags[a];
            let last = f.frames.len() - 1;
            let to = if t.to_frame < last { t.to_frame as int } else { last };
            assert(anims[a] == tag_anim(f, a));
            lemma_frame_order_within(t.from_frame as int, to, t.direction);
            assert(frame_order(t.from_frame as int, to, t.direction)[k] <= to);
        }
    }
}

/// Indices, in order, of the tracks among `paths` whose path is not in
/// `claimed`.
pub open spec fn unclaimed(paths: Seq<Seq<char>>, claimed: Seq<Seq<char>>) -> Seq<usize>
    decreases paths.len(),
{
    if paths.len() == 0 {
        Seq::empty()
    } else {
        unclaimed(paths.drop_last(), claimed) + if claimed.contains(paths.last()) {
            Seq::empty()
        } else {
            seq![(paths.len() - 1) as usize]
        }
    }
}

/// Models of a list of strings.
pub open spec fn strings_view(v: Seq<String>) -> Seq<Seq<char>> {
    v.map_values(|s: String| s@)
}

/// Whether `path` is one of `claimed`.
fn is_claimed(claimed: &Vec<String>, path: &String) -> (r: bool)
    ensures
        r == strings_view(claimed@).contains(path@),
{
    let ghost cv = strings_view(claimed@);
    let mut i: usize = 0;
    while i < claimed.len()
        invariant
            i <= claimed.len(),
            cv == strings_view(claimed@),
            forall|j: int| 0 <= j < i ==> cv[j] != path@,
        decreases claimed.len() - i,
    {
        if claimed[i] == *path {
            assert(cv[i as int] == path@);
            return true;
        }
        i = i + 1;
    }
    assert(!cv.contains(path@)) by {
        if cv.contains(path@) {
            let j = choose|j: int| 0 <= j < cv.len() && cv[j] == path@;
            assert(cv[j] != path@);
        }
    }
    false
}

/// Reimporting into an existing animation replaces the tracks a previous
/// import made: given the track paths of the existing animation and those
/// of the newly built one, the indices of the existing tracks to keep
/// (hand-made tracks on other paths), in order.
pub fn tracks_to_keep(paths: &Vec<String>, claimed: &Vec<String>) -> (r: Vec<usize>)
    ensures
        r@ == unclaimed(strings_view(paths@), strings_view(claimed@)),
{
    let ghost pv = strings_view(paths@);
    let ghost cv = strings_view(claimed@);
    let mut out: Vec<usize> = Vec::new();
    let mut i: usize = 0;
    assert(pv.take(0) =~= Seq::<Seq<char>>::empty());
    while i < paths.len()
        invariant
            i <= paths.len(),
            pv == strings_view(paths@),
            cv == strings_view(claimed@),
            out@ == unclaimed(pv.take(i as int), cv),
        decreases paths.len() - i,
    {
        assert(pv.take(i + 1).drop_last() =~= pv.take(i as int));
        assert(pv.take(i + 1).last() == paths@[i as int]@);
        if !is_claimed(claimed, &paths[i]) {
            out.push(i);
        }
        assert(out@ =~= unclaimed(pv.take(i + 1), cv));
        i = i + 1;
    }
    assert(pv.take(i as int) =~= pv);
    out
}

/// `p` occurs in `s` as a contiguous run.
pub open spec fn has_infix(s: Seq<u8>, p: Seq<u8>) -> bool {
    exists|i: int| 0 <= i && i + p.len() <= s.len() && #[trigger] s.subrange(i, i + p.len()) == p
}

/// Whether `p` occurs in `s`.
fn contains_bytes(s: &[u8], p: &[u8]) -> (r: bool)
    ensures
        r == has_infix(s@, p@),
{
    if p.len() > s.len() {
        return false;
    }
    let mut i: usize = 0;
    while i <= s.len() - p.len()
        invariant
            p.len() <= s.len(),
            i <= s.len() - p.len() + 1,
            forall|j: int| 0 <= j < i ==> #[trigger] s@.subrange(j, j + p.len()) != p@,
        decreases s.len() - i,
    {
        let mut k: usize = 0;
        while k < p.len() && s[i + k] == p[k]
            invariant
                k <= p.len(),
                i + p.len() <= s.len(),
                forall|m: int| 0 <= m < k ==> s@[i + m] == p@[m],
            decreases p.len() - k,
        {
            k = k + 1;
        }
        if k == p.len() {
            assert(s@.subrange(i as int, i + p.len()) =~= p@);
            return true;
        }
        assert(s@.subrange(i as int, i + p.len())[k as int] != p@[k as int]);
        i = i + 1;
    }
    assert forall|j: int| 0 <= j && j + p.len() <= s.len() implies #[trigger] s@.subrange(j, j + p.len()) != p@ by {
        assert(j < i);
    }
    false
}

/// Layer flags after the options: hidden layers made visible when asked;
/// layers whose name contains the exclusion pattern hidden.
pub open spec fn adjusted_flags(flags: u16, include_hidden: bool, excluded: bool) -> u16 {
    let f = if include_hidden { flags | 1u16 } else { flags };
    if excluded {
        f & !1u16
    } else {
        f
    }
}

/// Whether the exclusion pattern hides a layer of this name.
pub open spec fn excluded_by(name: Seq<char>, pattern: Seq<char>) -> bool {
    pattern.len() > 0 && has_infix(encode_utf8(name), encode_utf8(pattern))
}

/// A layer with its visibility adjusted by the options.
pub open spec fn adjusted_layer(l: LayerV, opts_exclude: Seq<char>, include_hidden: bool) -> LayerV {
    LayerV { flags: adjusted_flags(l.flags, include_hidden, excluded_by(l.name, opts_exclude)), ..l }
}

impl ConvertOptions {
    /// The document with layer visibility adjusted per the options; nothing
    /// else changes.
    pub fn apply(&self, file: AseFile) -> (r: AseFile)
        ensures
            r@.layers.len() == file@.layers.len(),
            forall|i: int|
                0 <= i < file@.layers.len() ==> #[trigger] r@.layers[i] == adjusted_layer(
                    file@.layers[i],
                    self.exclude_layers@,
                    self.include_hidden_layers,
                ),
            r@ == (AseFileV { layers: r@.layers, ..file@ }),
    {
        let ghost old_file = file@;
        let mut file = file;
        let mut layers: Vec<Layer> = Vec::new();
        std::mem::swap(&mut layers, &mut file.layers);
        let ghost src = layers@;
        let pattern = self.exclude_layers.as_str();
        let pattern_bytes = pattern.as_bytes();
        let mut out: Vec<Layer> = Vec::new();
        let mut i: usize = 0;
        let n = layers.len();
        while i < n
            invariant
                i <= n,
                n == src.len(),
                layers@ == src.skip(i as int),
                out@.len() == i,
                pattern@ == self.exclude_layers@,
                pattern_bytes@ == encode_utf8(pattern@),
                forall|j: int|
                    0 <= j < i ==> #[trigger] out@[j]@ == adjusted_layer(
                        src[j]@,
                        self.exclude_layers@,
                        self.include_hidden_layers,
                    ),
            decreases n - i,
        {
            let mut l = layers.remove(0);
            assert(l == src[i as int]);
            let mut f = l.flags;
            if self.include_hidden_layers {
                f = f | 1;
            }
            if !pattern.is_empty() && contains_bytes(l.name.as_str().as_bytes(), pattern_bytes) {
                f = f & !1u16;
            }
            l.flags = f;
            out.push(l);
            assert(layers@ =~= src.skip(i + 1));
            i = i + 1;
        }
        file.layers = out;
        assert(file@.layers =~= layers_view(src).map_values(
            |lv: LayerV| adjusted_layer(lv, self.exclude_layers@, self.include_hidden_layers),
        ));
        file
    }
}

} // verus!
