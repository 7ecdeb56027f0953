//! Lookups that scripts and tools make on a parsed document: frame
//! durations, layer and tag names, tag ranges by name, and the slices in
//! effect at a frame.
use crate::file::AseFile;
use crate::model::{last_key_at, SliceKey, SliceV, TagV};
use vstd::prelude::*;

verus! {

/// Duration of `frame` in milliseconds; 0 for a frame that does not exist.
pub fn frame_duration_ms(file: &AseFile, frame: usize) -> (r: u16)
    ensures
        r == (if frame < file@.frames.len() {
            file@.frames[frame as int].duration_ms
        } else {
            0u16
        }),
{
    if frame < file.frames.len() {
        file.frames[frame].duration_ms
    } else {
        0
    }
}

/// The layer names, in file order.
pub fn layer_names(file: &AseFile) -> (r: Vec<String>)
    ensures
        r@.len() == file@.layers.len(),
        forall|i: int| 0 <= i < r@.len() ==> (#[trigger] r@[i])@ == file@.layers[i].name,
{
    let mut out: Vec<String> = Vec::new();
    let mut i: usize = 0;
    while i < file.layers.len()
        invariant
            i <= file.layers.len(),
            out@.len() == i,
            forall|j: int| 0 <= j < i ==> (#[trigger] out@[j])@ == file@.layers[j].name,
        decreases file.layers.len() - i,
    {
        out.push(file.layers[i].name.clone());
        i = i + 1;
    }
    out
}

/// The tag names, in file order.
pub fn tag_names(file: &AseFile) -> (r: Vec<String>)
    ensures
        r@.len() == file@.tags.len(),
        forall|i: int| 0 <= i < r@.len() ==> (#[trigger] r@[i])@ == file@.tags[i].name,
{
    let mut out: Vec<String> = Vec::new();
    let mut i: usize = 0;
    while i < file.tags.len()
        invariant
            i <= file.tags.len(),
            out@.len() == i,
            forall|j: int| 0 <= j < i ==> (#[trigger] out@[j])@ == file@.tags[j].name,
        decreases file.tags.len() - i,
    {
        out.push(file.tags[i].name.clone());
        i = i + 1;
    }
    out
}

/// Index of the first tag at or after `i` named `name`.
pub open spec fn first_tag_named(tags: Seq<TagV>, name: Seq<char>, i: int) -> Option<int>
    decreases tags.len() - i,
{
    if i < 0 || i >= tags.len() {
        None
    } else if tags[i].name == name {
        Some(i)
    } else {
        first_tag_named(tags, name, i + 1)
    }
}

/// The inclusive frame range of the first tag named `name`, if there is
/// one.
pub fn tag_range(file: &AseFile, name: &String) -> (r: Option<(u16, u16)>)
    ensures
        match first_tag_named(file@.tags, name@, 0) {
            Some(i) => r == Some((file@.tags[i].from_frame, file@.tags[i].to_frame)),
            None => r is None,
        },
{
    let ghost tags = file@.tags;
    let mut i: usize = 0;
    while i < file.tags.len()
        invariant
            i <= file.tags.len(),
            tags == file@.tags,
            first_tag_named(tags, name@, 0) == first_tag_named(tags, name@, i as int),
        decreases file.tags.len() - i,
    {
        let t = &file.tags[i];
        assert(tags[i as int] == t@);
        if t.name == *name {
            return Some((t.from_frame, t.to_frame));
        }
        i = i + 1;
    }
    None
}

/// The key of slice `s` in effect at `frame`, unless it is missing or has
/// zero size (the slice is hidden from that frame on).
pub open spec fn shown_key(s: SliceV, frame: u32) -> Option<SliceKey> {
    match last_key_at(s.keys, frame) {
        Some(k) => if s.keys[k].width == 0 || s.keys[k].height == 0 {
            None
        } else {
            Some(s.keys[k])
        },
        None => None,
    }
}

/// The slices shown at `frame`, in file order, each with its index and the
/// key in effect.
pub open spec fn shown_slices(ss: Seq<SliceV>, frame: u32) -> Seq<(usize, SliceKey)>
    decreases ss.len(),
{
    if ss.len() == 0 {
        Seq::empty()
    } else {
        shown_slices(ss.drop_last(), frame) + match shown_key(ss.last(), frame) {
            Some(k) => seq![((ss.len() - 1) as usize, k)],
            None => Seq::empty(),
        }
    }
}

/// The slices shown at `frame`, each with its index in the document and
/// the key in effect: rect, 9-patch center and pivot.
pub fn slices_at(file: &AseFile, frame: u32) -> (r: Vec<(usize, SliceKey)>)
    ensures
        r@ == shown_slices(file@.slices, frame),
{
    let ghost ss = file@.slices;
    let mut out: Vec<(usize, SliceKey)> = Vec::new();
    let mut i: usize = 0;
    assert(ss.take(0) =~= Seq::<SliceV>::empty());
    while i < file.slices.len()
        invariant
            i <= file.slices.len(),
            ss == file@.slices,
            out@ == shown_slices(ss.take(i as int), frame),
        decreases file.slices.len() - i,
    {
        let s = &file.slices[i];
        assert(ss[i as int] == s@);
        assert(ss.take(i + 1).drop_last() =~= ss.take(i as int));
        if let Some(key) = s.key_for(frame) {
            if key.width != 0 && key.height != 0 {
                out.push((i, *key));
            }
        }
        assert(out@ =~= shown_slices(ss.take(i + 1), frame));
        i = i + 1;
    }
    assert(ss.take(i as int) =~= ss);
    out
}

} // verus!
