//! Live window capture. Capture needs the Windows window manager, which this
//! platform does not have, so every capture reports "nothing available" and
//! callers fall back to file-based frames.

use vstd::prelude::*;
use crate::frame::Frame;
use crate::ocr::text::chars_of;

verus! {

/// Every visible titled window: none on this platform.
pub fn list_windows() -> (r: Vec<String>)
    ensures
        r@.len() == 0,
{
    Vec::new()
}

/// Capture the first visible window whose title contains `search_title`:
/// never available on this platform.
pub fn capture_window_by_title_info(search_title: &str) -> (r: Option<(String, Frame)>)
    ensures
        r is None,
{
    None
}

/// How many pixels of a captured surface [`is_blank`] samples, at most.
pub const BLANK_SAMPLES: usize = 512;

/// The distance between sampled pixels of a surface of `pixels` pixels.
pub open spec fn blank_stride(pixels: int) -> int {
    if pixels / 512 >= 1 { pixels / 512 } else { 1 }
}

/// Do the colour samples (the first three of four) of pixel `index` equal
/// those of pixel 0?
pub open spec fn same_color_as_first(buffer: Seq<u8>, index: int) -> bool {
    &&& buffer[index * 4] == buffer[0]
    &&& buffer[index * 4 + 1] == buffer[1]
    &&& buffer[index * 4 + 2] == buffer[2]
}

/// Is a captured BGRA surface (four bytes per pixel) featureless: does
/// every sampled pixel, one per stride, have the colour of the first? A
/// surface of no whole pixel is blank.
pub open spec fn is_blank_spec(buffer: Seq<u8>) -> bool {
    let pixels = (buffer.len() / 4) as int;
    forall|i: int| 0 <= i < pixels && i % blank_stride(pixels) == 0 ==> #[trigger] same_color_as_first(buffer, i)
}

/// Is this captured surface effectively featureless?
///
/// Used to spot a capture that "succeeded" but returned nothing drawable.
/// Sampling rather than scanning every pixel keeps this off the per-frame
/// cost; a real frame varies within any few hundred samples, so a uniform
/// sample means a uniform image.
pub fn is_blank(buffer: &[u8]) -> (r: bool)
    ensures
        r == is_blank_spec(buffer@),
{
    let len = buffer.len();
    let pixels = len / 4;
    if pixels == 0 {
        return true;
    }
    let stride = if pixels / BLANK_SAMPLES >= 1 { pixels / BLANK_SAMPLES } else { 1 };
    let mut index: usize = 0;
    while index < pixels
        invariant
            pixels == buffer@.len() / 4,
            len == buffer@.len(),
            pixels >= 1,
            stride == blank_stride(pixels as int),
            stride >= 1,
            index % stride == 0,
            forall|i: int| 0 <= i < index && i < pixels && i % (stride as int) == 0 ==> #[trigger] same_color_as_first(buffer@, i),
        decreases pixels - index,
    {
        assert(index * 4 + 3 < buffer@.len()) by (nonlinear_arith)
            requires index < pixels, pixels == buffer@.len() / 4;
        let at = index * 4;
        if buffer[at] != buffer[0] || buffer[at + 1] != buffer[1] || buffer[at + 2] != buffer[2] {
            assert(!same_color_as_first(buffer@, index as int));
            return false;
        }
        proof {
            assert forall|i: int| 0 <= i < index + stride && i < pixels && i % (stride as int) == 0 implies #[trigger] same_color_as_first(buffer@, i) by {
                if i >= index {
                    assert(i == index) by (nonlinear_arith)
                        requires
                            index <= i < index + stride,
                            i % (stride as int) == 0,
                            (index as int) % (stride as int) == 0,
                            stride >= 1;
                }
            }
        }
        if pixels - index <= stride {
            return true;
        }
        assert(((index + stride) as int) % (stride as int) == 0) by (nonlinear_arith)
            requires (index as int) % (stride as int) == 0, stride >= 1;
        index = index + stride;
    }
    true
}

/// Turn the BGRA samples a capture reads into opaque RGBA in place: in each
/// whole pixel the blue and red samples trade places and alpha becomes 255;
/// trailing bytes of a partial pixel stay as they are.
pub fn bgra_to_rgba(buffer: &mut Vec<u8>)
    ensures
        final(buffer)@.len() == old(buffer)@.len(),
        forall|i: int| 0 <= i < old(buffer)@.len() / 4 ==> {
            &&& #[trigger] final(buffer)@[4 * i] == old(buffer)@[4 * i + 2]
            &&& final(buffer)@[4 * i + 1] == old(buffer)@[4 * i + 1]
            &&& final(buffer)@[4 * i + 2] == old(buffer)@[4 * i]
            &&& final(buffer)@[4 * i + 3] == 255
        },
        forall|j: int| 4 * (old(buffer)@.len() / 4) <= j < old(buffer)@.len() ==> #[trigger] final(buffer)@[j]
            == old(buffer)@[j],
{
    let ghost input = buffer@;
    let len = buffer.len();
    let pixels = len / 4;
    let mut i: usize = 0;
    while i < pixels
        invariant
            len == input.len(),
            pixels == input.len() / 4,
            0 <= i <= pixels,
            buffer@.len() == input.len(),
            forall|p: int| 0 <= p < i ==> {
                &&& #[trigger] buffer@[4 * p] == input[4 * p + 2]
                &&& buffer@[4 * p + 1] == input[4 * p + 1]
                &&& buffer@[4 * p + 2] == input[4 * p]
                &&& buffer@[4 * p + 3] == 255
            },
            forall|j: int| 4 * i <= j < input.len() ==> #[trigger] buffer@[j] == input[j],
        decreases pixels - i,
    {
        assert(4 * i + 3 < len) by (nonlinear_arith)
            requires i < pixels, pixels == len / 4;
        let at = 4 * i;
        let ghost before = buffer@;
        assert(before[at + 1] == input[at + 1]);
        let blue = buffer[at];
        let red = buffer[at + 2];
        buffer.set(at, red);
        buffer.set(at + 2, blue);
        buffer.set(at + 3, 255);
        proof {
            assert forall|p: int| 0 <= p < i + 1 implies {
                &&& #[trigger] buffer@[4 * p] == input[4 * p + 2]
                &&& buffer@[4 * p + 1] == input[4 * p + 1]
                &&& buffer@[4 * p + 2] == input[4 * p]
                &&& buffer@[4 * p + 3] == 255
            } by {
                if p < i {
                    assert(4 * p + 3 < at);
                    assert(buffer@[4 * p] == before[4 * p]);
                } else {
                    assert(p == i);
                }
            }
        }
        i = i + 1;
    }
}

/// What `str::to_lowercase` returns for `s`: its Unicode lowercase, a
/// function of `s` alone.
pub uninterp spec fn unicode_lowercase(s: Seq<char>) -> Seq<char>;

/// Calls `str::to_lowercase`, documented as returning the lowercase
/// equivalent of the string by the Unicode `Lowercase` mapping; its result
/// is named, not spelled out.
#[verifier::external_body]
fn lowercase(s: &str) -> (r: String)
    ensures
        r@ == unicode_lowercase(s@),
{
    s.to_lowercase()
}

/// Does `query` occur in `text` at position `at`?
pub open spec fn occurs_at(text: Seq<char>, query: Seq<char>, at: int) -> bool {
    0 <= at && at + query.len() <= text.len() && text.subrange(at, at + query.len()) == query
}

/// Does `query` occur anywhere in `text`?
pub open spec fn contains_spec(text: Seq<char>, query: Seq<char>) -> bool {
    exists|at: int| #[trigger] occurs_at(text, query, at)
}

/// Does the window title `title`, lowercased, contain `query`?
pub open spec fn title_contains(title: Seq<char>, query: Seq<char>) -> bool {
    contains_spec(unicode_lowercase(title), query)
}

/// Does `query` occur anywhere in `text` (`str::contains` on a string
/// pattern)?
pub fn contains_text(text: &str, query: &str) -> (r: bool)
    ensures
        r == contains_spec(text@, query@),
{
    let t = chars_of(text);
    let q = chars_of(query);
    let ghost text_v = t@;
    if q.len() > t.len() {
        assert forall|at: int| !occurs_at(text_v, q@, at) by {}
        return false;
    }
    let mut at: usize = 0;
    let last = t.len() - q.len();
    while at <= last
        invariant
            text_v == t@,
            text_v == text@,
            q@ == query@,
            q.len() <= t.len(),
            last == t.len() - q.len(),
            at <= last + 1,
            forall|k: int| 0 <= k < at ==> !#[trigger] occurs_at(text_v, q@, k),
        decreases last + 1 - at,
    {
        let mut k: usize = 0;
        while k < q.len() && t[at + k] == q[k]
            invariant
                at + q.len() <= t.len(),
                k <= q.len(),
                forall|m: int| 0 <= m < k ==> t@[at + m] == q@[m],
            decreases q.len() - k,
        {
            k = k + 1;
        }
        if k == q.len() {
            assert(text_v.subrange(at as int, at + q.len()) =~= q@);
            assert(occurs_at(text_v, q@, at as int));
            return true;
        }
        assert(text_v.subrange(at as int, at + q.len())[k as int] != q@[k as int]);
        at = at + 1;
    }
    assert forall|k: int| !occurs_at(text_v, q@, k) by {
        if 0 <= k < at {
        }
    }
    false
}

/// Does the window title `title`, lowercased, contain `query` (already
/// lowercased)?
pub fn title_has(title: &str, query: &str) -> (r: bool)
    ensures
        r == title_contains(title@, query@),
{
    let lowered = lowercase(title);
    contains_text(lowered.as_str(), query)
}

/// The first of the visible window `titles` (in the order the window
/// manager lists them) whose lowercase contains the lowercase of
/// `search_title`: the window a case-insensitive capture by title picks.
pub fn first_matching_title(titles: &Vec<String>, search_title: &str) -> (r: Option<usize>)
    ensures
        match r {
            None => forall|k: int| 0 <= k < titles@.len() ==> !title_contains(#[trigger] titles@[k]@, unicode_lowercase(search_title@)),
            Some(k) => k < titles@.len() && title_contains(titles@[k as int]@, unicode_lowercase(search_title@))
                && forall|j: int| 0 <= j < k ==> !title_contains(#[trigger] titles@[j]@, unicode_lowercase(search_title@)),
        },
{
    let query = lowercase(search_title);
    let mut i: usize = 0;
    while i < titles.len()
        invariant
            0 <= i <= titles@.len(),
            query@ == unicode_lowercase(search_title@),
            forall|j: int| 0 <= j < i ==> !title_contains(#[trigger] titles@[j]@, query@),
        decreases titles@.len() - i,
    {
        if title_has(titles[i].as_str(), query.as_str()) {
            return Some(i);
        }
        i = i + 1;
    }
    None
}

} // verus!
