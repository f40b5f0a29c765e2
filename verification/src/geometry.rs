//! Rectangles, pixel-run segmentation, region grouping, and bar-fill
//! measurement.
//!
//! Functions that classify pixels take the classifying predicate as an
//! argument; the predicate sees a pixel's four samples. Their contracts speak
//! of a *verdict mask*: the predicate's answer for each pixel they examine.

use vstd::prelude::*;
use crate::frame::{Frame, Pixel, frame_dims, frame_samples};
use std::collections::HashMap;
use vstd::std_specs::hash::spec_hash_map_iter;
use vstd::std_specs::iter::IteratorSpec;

verus! {

broadcast use vstd::std_specs::hash::group_hash_axioms;

/// `a + b`, saturating at `u32::MAX`.
pub open spec fn sat_add(a: int, b: int) -> int {
    if a + b > u32::MAX { u32::MAX as int } else { a + b }
}

/// `a - b`, saturating at 0.
pub open spec fn sat_sub(a: int, b: int) -> int {
    if a - b < 0 { 0 } else { a - b }
}

pub open spec fn min(a: int, b: int) -> int {
    if a <= b { a } else { b }
}

pub open spec fn max(a: int, b: int) -> int {
    if a >= b { a } else { b }
}

/// A generic rectangle in image coordinates.
#[derive(Debug, Clone, Copy, PartialEq, Eq, Structural)]
pub struct Rect {
    pub x: u32,
    pub y: u32,
    pub w: u32,
    pub h: u32,
}

/// The inclusive end coordinate of a span starting at `start` of length
/// `len`, saturating at both ends.
pub open spec fn span_end(start: int, len: int) -> int {
    sat_add(start, sat_sub(len, 1))
}

impl Rect {
    pub open spec fn x2_spec(self) -> int {
        span_end(self.x as int, self.w as int)
    }

    pub open spec fn y2_spec(self) -> int {
        span_end(self.y as int, self.h as int)
    }

    pub open spec fn area_spec(self) -> int {
        min((self.w as int) * (self.h as int), u32::MAX as int)
    }

    /// End X coordinate inclusive.
    pub fn x2(&self) -> (r: u32)
        ensures
            r == self.x2_spec(),
    {
        self.x.saturating_add(self.w.saturating_sub(1))
    }

    /// End Y coordinate inclusive.
    pub fn y2(&self) -> (r: u32)
        ensures
            r == self.y2_spec(),
    {
        self.y.saturating_add(self.h.saturating_sub(1))
    }

    /// Rectangle area in pixels, saturating at `u32::MAX`.
    pub fn area(&self) -> (r: u32)
        ensures
            r == self.area_spec(),
    {
        match self.w.checked_mul(self.h) {
            Some(area) => area,
            None => u32::MAX,
        }
    }
}

// ----- Runs along one row -----

/// Length of the leading run of `true` in `m`.
pub open spec fn lead_true(m: Seq<bool>) -> nat
    decreases m.len(),
{
    if m.len() == 0 || !m[0] {
        0
    } else {
        1 + lead_true(m.drop_first())
    }
}

/// The maximal runs of `true` in `m`, at least `min_width` long, left to
/// right, as inclusive `(first, last)` positions where `m[0]` sits at
/// `start`.
pub open spec fn mask_runs(m: Seq<bool>, start: int, min_width: int) -> Seq<(u32, u32)>
    decreases m.len(),
{
    if m.len() == 0 {
        seq![]
    } else if !m[0] {
        mask_runs(m.drop_first(), start + 1, min_width)
    } else {
        let k = lead_true(m);
        proof {
            lemma_lead_true_bounds(m);
        }
        let rest = mask_runs(m.skip(k as int), start + k, min_width);
        if k >= min_width {
            seq![(start as u32, (start + k - 1) as u32)] + rest
        } else {
            rest
        }
    }
}

pub proof fn lemma_lead_true_bounds(m: Seq<bool>)
    ensures
        lead_true(m) <= m.len(),
        m.len() > 0 && m[0] ==> lead_true(m) >= 1,
        forall|i: int| 0 <= i < lead_true(m) ==> m[i],
        lead_true(m) < m.len() ==> !m[lead_true(m) as int],
    decreases m.len(),
{
    if m.len() > 0 && m[0] {
        lemma_lead_true_bounds(m.drop_first());
        assert forall|i: int| 0 <= i < lead_true(m) implies m[i] by {
            if i > 0 {
                assert(m.drop_first()[i - 1] == m[i]);
            }
        }
    }
}

/// A run of `k` trues followed by a false (or the end) has lead length `k`.
pub proof fn lemma_lead_true_exact(m: Seq<bool>, k: int)
    requires
        0 <= k <= m.len(),
        forall|i: int| 0 <= i < k ==> m[i],
        k < m.len() ==> !m[k],
    ensures
        lead_true(m) == k,
    decreases k,
{
    if k > 0 {
        lemma_lead_true_exact(m.drop_first(), k - 1);
    }
}

/// The inclusive runs of `true` in `mask`, where `mask[0]` is column `x0`,
/// that are at least `min_width` long, left to right.
pub fn row_runs(mask: &Vec<bool>, x0: u32, min_width: u32) -> (r: Vec<(u32, u32)>)
    requires
        x0 + mask@.len() <= u32::MAX,
    ensures
        r@ == mask_runs(mask@, x0 as int, min_width as int),
{
    let n = mask.len();
    let ghost m = mask@;
    let mut result: Vec<(u32, u32)> = Vec::new();
    let mut start: Option<u32> = None;
    let mut i: usize = 0;
    assert(m.skip(0) =~= m);
    while i < n
        invariant
            n == m.len(),
            m == mask@,
            x0 + n <= u32::MAX,
            0 <= i <= n,
            match start {
                Some(s) => {
                    &&& x0 <= s < x0 + i
                    &&& forall|j: int| s - x0 <= j < i ==> m[j]
                    &&& result@ + mask_runs(m.skip(s - x0), s as int, min_width as int) == mask_runs(m, x0 as int, min_width as int)
                },
                None => result@ + mask_runs(m.skip(i as int), x0 + i, min_width as int) == mask_runs(m, x0 as int, min_width as int),
            },
        decreases n - i,
    {
        let x = x0 + i as u32;
        if mask[i] {
            if start.is_none() {
                start = Some(x);
            }
        } else {
            match start {
                Some(begin) => {
                    let ghost tail = m.skip(begin - x0);
                    proof {
                        assert forall|j: int| 0 <= j < x - begin implies tail[j] by {
                            assert(tail[j] == m[begin - x0 + j]);
                        }
                        lemma_lead_true_exact(tail, x - begin);
                        assert(tail.skip(x - begin) =~= m.skip(i as int));
                        assert(m.skip(i as int).drop_first() =~= m.skip(i + 1));
                    }
                    let ghost prior = result@;
                    let len = x - begin;
                    if len >= min_width {
                        result.push((begin, x - 1));
                    }
                    start = None;
                    proof {
                        assert(tail[0]);
                        let rest = mask_runs(m.skip(i as int), x0 + i, min_width as int);
                        assert(mask_runs(tail, begin as int, min_width as int) == if len >= min_width {
                            seq![(begin, (x - 1) as u32)] + rest
                        } else {
                            rest
                        });
                        assert(rest == mask_runs(m.skip(i + 1), x0 + i + 1, min_width as int));
                        if len >= min_width {
                            assert(result@ =~= prior + seq![(begin, (x - 1) as u32)]);
                            assert(prior + (seq![(begin, (x - 1) as u32)] + rest) =~= result@ + rest);
                        }
                    }
                },
                None => {
                    proof {
                        assert(m.skip(i as int).drop_first() =~= m.skip(i + 1));
                    }
                },
            }
        }
        i = i + 1;
    }
    if let Some(begin) = start {
        let ghost tail = m.skip(begin - x0);
        let ghost prior = result@;
        proof {
            assert forall|j: int| 0 <= j < n - (begin - x0) implies tail[j] by {
                assert(tail[j] == m[begin - x0 + j]);
            }
            lemma_lead_true_exact(tail, n - (begin - x0));
            assert(tail.skip(n - (begin - x0)) =~= seq![]);
            assert(tail[0]);
        }
        let last = x0 + (n - 1) as u32;
        let len = last - begin + 1;
        if len >= min_width {
            result.push((begin, last));
        }
        proof {
            let empty: Seq<bool> = seq![];
            assert(mask_runs(empty, (begin + len) as int, min_width as int) =~= seq![]);
            if len >= min_width {
                assert(mask_runs(tail, begin as int, min_width as int) =~= seq![(begin, last)]);
                assert(result@ =~= prior + seq![(begin, last)]);
            } else {
                assert(mask_runs(tail, begin as int, min_width as int) =~= seq![]);
            }
        }
    } else {
        proof {
            assert(m.skip(n as int) =~= seq![]);
            let empty: Seq<bool> = seq![];
            assert(mask_runs(empty, x0 + n, min_width as int) =~= seq![]);
        }
    }
    proof {
        assert(result@ =~= mask_runs(m, x0 as int, min_width as int));
    }
    result
}

/// The predicate answered `verdict` for pixel `(x, y)` of `image`.
pub open spec fn pixel_verdict<F: Fn(&Pixel) -> bool>(predicate: F, image: Frame, x: int, y: int, verdict: bool) -> bool {
    forall|p: Pixel| p@ == image.pixel(x, y) ==> #[trigger] predicate.ensures((&p,), verdict)
}

/// `mask` holds the predicate's verdicts for the pixels of row `y` from
/// column `x0` on, one per column.
pub open spec fn row_verdicts<F: Fn(&Pixel) -> bool>(predicate: F, image: Frame, y: int, x0: int, mask: Seq<bool>) -> bool {
    forall|i: int| 0 <= i < mask.len() ==> pixel_verdict(predicate, image, x0 + i, y, #[trigger] mask[i])
}

/// The predicate may be asked about any pixel.
pub open spec fn accepts_all<F: Fn(&Pixel) -> bool>(predicate: F) -> bool {
    forall|p: Pixel| #[trigger] predicate.requires((&p,))
}

/// The last column a scan of row `y` from `x0` to `x1` reads: `x1` clipped
/// to the frame.
pub open spec fn clip_x1(image: Frame, x1: int) -> int {
    min(x1, sat_sub(image.width_spec(), 1))
}

/// How many columns a scan from `x0` to the clipped `x1` reads.
pub open spec fn scan_len(image: Frame, x0: int, x1: int) -> int {
    if x0 <= clip_x1(image, x1) { clip_x1(image, x1) - x0 + 1 } else { 0 }
}

/// A scan of row `y` from `x0` to the clipped `x1` stays inside the frame.
pub open spec fn scan_in_frame(image: Frame, y: int, x0: int, x1: int) -> bool {
    x0 <= clip_x1(image, x1) ==> (image.width_spec() >= 1 && 0 <= y < image.height_spec())
}

/// The predicate's verdicts for row `y`, columns `x0..=x1` clipped to the
/// frame.
fn row_mask<F: Fn(&Pixel) -> bool>(image: &Frame, y: u32, x0: u32, x1: u32, predicate: &F) -> (r: Vec<bool>)
    requires
        accepts_all(*predicate),
        scan_in_frame(*image, y as int, x0 as int, x1 as int),
    ensures
        r@.len() == scan_len(*image, x0 as int, x1 as int),
        row_verdicts(*predicate, *image, y as int, x0 as int, r@),
{
    let width = image.width();
    let x1 = if x1 < width.saturating_sub(1) { x1 } else { width.saturating_sub(1) };
    let mut mask: Vec<bool> = Vec::new();
    if x0 > x1 {
        return mask;
    }
    let end = x1 + 1;
    let mut x = x0;
    while x < end
        invariant
            x0 <= x <= end,
            end == x1 + 1,
            x1 < width,
            width == image.width_spec(),
            0 <= y < image.height_spec(),
            accepts_all(*predicate),
            mask@.len() == x - x0,
            row_verdicts(*predicate, *image, y as int, x0 as int, mask@),
        decreases end - x,
    {
        let pixel = image.get_pixel(x, y);
        let verdict = predicate(&pixel);
        proof {
            assert forall|p: Pixel| p@ == image.pixel(x as int, y as int) implies #[trigger] predicate.ensures((&p,), verdict) by {
                assert(p =~= pixel);
            }
        }
        let ghost before = mask@;
        mask.push(verdict);
        proof {
            assert forall|i: int| 0 <= i < mask@.len() implies pixel_verdict(*predicate, *image, x0 + i, y as int, #[trigger] mask@[i]) by {
                if i < before.len() {
                    assert(mask@[i] == before[i]);
                }
            }
        }
        x = x + 1;
    }
    mask
}

/// Find runs of `min_width`-or-longer consecutive pixels along row `y` in
/// `[x0, x1]` matching `predicate`. Returns inclusive `(start_x, end_x)`
/// pairs, left to right.
pub fn segment_row<F: Fn(&Pixel) -> bool>(
    image: &Frame,
    y: u32,
    x0: u32,
    x1: u32,
    min_width: u32,
    predicate: F,
) -> (r: Vec<(u32, u32)>)
    requires
        accepts_all(predicate),
        scan_in_frame(*image, y as int, x0 as int, x1 as int),
    ensures
        exists|mask: Seq<bool>|
            {
                &&& mask.len() == scan_len(*image, x0 as int, x1 as int)
                &&& #[trigger] row_verdicts(predicate, *image, y as int, x0 as int, mask)
                &&& r@ == mask_runs(mask, x0 as int, min_width as int)
            },
{
    let mask = row_mask(image, y, x0, x1, &predicate);
    let runs = row_runs(&mask, x0, min_width);
    assert(row_verdicts(predicate, *image, y as int, x0 as int, mask@));
    runs
}

// ----- Grouping row segments into rectangles -----

/// Overlap, in units, of the inclusive spans `[a0, a1]` and `[b0, b1]`.
pub open spec fn overlap_spec(a0: int, a1: int, b0: int, b1: int) -> int {
    if a1 < b0 || b1 < a0 {
        0
    } else {
        sat_add(sat_sub(min(a1, b1), max(a0, b0)), 1)
    }
}

/// Number of overlapping units between two inclusive 1-D spans.
pub fn overlap(a: (u32, u32), b: (u32, u32)) -> (r: u32)
    ensures
        r == overlap_spec(a.0 as int, a.1 as int, b.0 as int, b.1 as int),
{
    if a.1 < b.0 || b.1 < a.0 {
        return 0;
    }
    let left = if a.0 >= b.0 { a.0 } else { b.0 };
    let right = if a.1 <= b.1 { a.1 } else { b.1 };
    right.saturating_sub(left).saturating_add(1)
}

/// Overlap of a rectangle's column span with the segment `[s0, s1]`.
pub open spec fn rect_overlap(rect: Rect, s0: int, s1: int) -> int {
    overlap_spec(rect.x as int, rect.x2_spec(), s0, s1)
}

/// Among the first `n` active rectangles, the first one whose overlap with
/// `[s0, s1]` is largest, with that overlap; `(None, 0)` when none overlaps.
pub open spec fn best_upto(active: Seq<Rect>, s0: int, s1: int, n: int) -> (Option<int>, int)
    decreases n,
{
    if n <= 0 {
        (None, 0)
    } else {
        let (best, best_overlap) = best_upto(active, s0, s1, n - 1);
        let o = rect_overlap(active[n - 1], s0, s1);
        if o > best_overlap {
            (Some(n - 1), o)
        } else {
            (best, best_overlap)
        }
    }
}

/// The active rectangle that segment `[s0, s1]` continues: the best
/// overlapping one, provided the overlap is at least a third of the wider
/// of the segment and that rectangle.
pub open spec fn continued_by(active: Seq<Rect>, s0: int, s1: int) -> Option<int> {
    let (best, best_overlap) = best_upto(active, s0, s1, active.len() as int);
    match best {
        Some(idx) => if best_overlap * 3 >= max(s1 - s0 + 1, active[idx].w as int) {
            Some(idx)
        } else {
            None
        },
        None => None,
    }
}

/// `rect` grown by segment `[s0, s1]` of row `y`: its columns run from the
/// leftmost to the rightmost of the rectangle's and the segment's, its rows
/// down to row `y`.
pub open spec fn extend_rect(rect: Rect, s0: int, s1: int, y: int) -> Rect {
    let x = min(rect.x as int, s0);
    let right = max(rect.x2_spec(), s1);
    Rect {
        x: x as u32,
        y: rect.y,
        w: sat_add(sat_sub(right, x), 1) as u32,
        h: sat_add(sat_sub(y, rect.y as int), 1) as u32,
    }
}

/// The one-row rectangle a segment `[s0, s1]` of row `y` starts.
pub open spec fn fresh_rect(s0: int, s1: int, y: int) -> Rect {
    Rect { x: s0 as u32, y: y as u32, w: sat_add(sat_sub(s1, s0), 1) as u32, h: 1 }
}

/// The rectangles carried into the next row, and for each active one the
/// position of its continuation among them, after matching the first `n`
/// segments of row `y` against `active`.
pub open spec fn row_step(active: Seq<Rect>, segments: Seq<(u32, u32, u32)>, y: int, n: int) -> (Seq<Rect>, Seq<Option<usize>>)
    decreases n,
{
    if n <= 0 {
        (seq![], Seq::new(active.len(), |i: int| None))
    } else {
        let (next, cont) = row_step(active, segments, y, n - 1);
        let s0 = segments[n - 1].1 as int;
        let s1 = segments[n - 1].2 as int;
        match continued_by(active, s0, s1) {
            Some(idx) => {
                let (target, next2, cont2) = match cont[idx] {
                    Some(position) => (position as int, next, cont),
                    None => (
                        next.len() as int,
                        next.push(active[idx]),
                        cont.update(idx, Some(next.len() as usize)),
                    ),
                };
                (next2.update(target, extend_rect(next2[target], s0, s1, y)), cont2)
            },
            None => (next.push(fresh_rect(s0, s1, y)), cont),
        }
    }
}

/// The first `n` active rectangles that were not continued and are at
/// least `min_height` tall, in order.
pub open spec fn finished(active: Seq<Rect>, cont: Seq<Option<usize>>, min_height: int, n: int) -> Seq<Rect>
    decreases n,
{
    if n <= 0 {
        seq![]
    } else {
        finished(active, cont, min_height, n - 1) + if cont[n - 1] is None && active[n - 1].h >= min_height {
            seq![active[n - 1]]
        } else {
            seq![]
        }
    }
}

/// The rectangles of `rects` at least `min_height` tall, in order.
pub open spec fn keep_tall(rects: Seq<Rect>, min_height: int) -> Seq<Rect>
    decreases rects.len(),
{
    if rects.len() == 0 {
        seq![]
    } else {
        keep_tall(rects.drop_last(), min_height) + if rects.last().h >= min_height {
            seq![rects.last()]
        } else {
            seq![]
        }
    }
}

/// Grouping state: active rectangles, completed rectangles, last row seen.
pub type GroupState = (Seq<Rect>, Seq<Rect>, Option<u32>);

/// Does row `y`, coming after row `prev`, leave a vertical gap wider than
/// `max_gap`?
pub open spec fn gap_before(prev: Option<u32>, y: int, max_gap: int) -> bool {
    match prev {
        Some(p) => y > sat_add(sat_add(p as int, max_gap), 1),
        None => false,
    }
}

/// The grouping state after row `y`, whose segments are `segments`.
pub open spec fn after_row(state: GroupState, y: u32, segments: Seq<(u32, u32, u32)>, min_height: int, max_gap: int) -> GroupState {
    let gap = gap_before(state.2, y as int, max_gap);
    let active = if gap { seq![] } else { state.0 };
    let completed = if gap { state.1 + keep_tall(state.0, min_height) } else { state.1 };
    let (next, cont) = row_step(active, segments, y as int, segments.len() as int);
    (next, completed + finished(active, cont, min_height, active.len() as int), Some(y))
}

/// The end of the run of segments from `j` on that belong to row `y`.
pub open spec fn row_group_end(rows: Seq<(u32, u32, u32)>, y: u32, j: int) -> int
    decreases rows.len() - j,
{
    if j < 0 || j >= rows.len() || rows[j].0 != y {
        j
    } else {
        row_group_end(rows, y, j + 1)
    }
}

pub proof fn lemma_row_group_end(rows: Seq<(u32, u32, u32)>, y: u32, j: int)
    requires
        0 <= j <= rows.len(),
    ensures
        j <= row_group_end(rows, y, j) <= rows.len(),
        forall|k: int| j <= k < row_group_end(rows, y, j) ==> rows[k].0 == y,
        row_group_end(rows, y, j) < rows.len() ==> rows[row_group_end(rows, y, j)].0 != y,
    decreases rows.len() - j,
{
    if j < rows.len() && rows[j].0 == y {
        lemma_row_group_end(rows, y, j + 1);
    }
}

/// The rectangles grouped from `rows[i..]`, starting from `state`.
pub open spec fn group_from(rows: Seq<(u32, u32, u32)>, i: int, state: GroupState, min_height: int, max_gap: int) -> Seq<Rect>
    decreases rows.len() - i,
{
    if i < 0 || i >= rows.len() {
        state.1 + keep_tall(state.0, min_height)
    } else {
        let y = rows[i].0;
        let j = row_group_end(rows, y, i + 1);
        proof {
            lemma_row_group_end(rows, y, i + 1);
        }
        group_from(rows, j, after_row(state, y, rows.subrange(i, j), min_height, max_gap), min_height, max_gap)
    }
}

/// The rectangles `group_segments` builds from `rows`.
pub open spec fn grouped(rows: Seq<(u32, u32, u32)>, min_height: int, max_gap: int) -> Seq<Rect> {
    group_from(rows, 0, (seq![], seq![], None), min_height, max_gap)
}

/// Every segment is an inclusive span `start <= end`.
pub open spec fn segments_ordered(rows: Seq<(u32, u32, u32)>) -> bool {
    forall|k: int| 0 <= k < rows.len() ==> (#[trigger] rows[k]).1 <= rows[k].2
}

/// No segment of a row that ends before it starts overlaps one of the
/// `active` rectangles (its width is only compared when one does).
pub open spec fn row_matches_defined(active: Seq<Rect>, segments: Seq<(u32, u32, u32)>) -> bool {
    forall|k: int|
        0 <= k < segments.len() && (#[trigger] segments[k]).1 > segments[k].2 ==> best_upto(
            active,
            segments[k].1 as int,
            segments[k].2 as int,
            active.len() as int,
        ).0 is None
}

/// Grouping `rows[i..]` from `state` never matches a segment that ends
/// before it starts against an overlapping rectangle.
pub open spec fn group_defined_from(rows: Seq<(u32, u32, u32)>, i: int, state: GroupState, min_height: int, max_gap: int) -> bool
    decreases rows.len() - i,
{
    if i < 0 || i >= rows.len() {
        true
    } else {
        let y = rows[i].0;
        let j = row_group_end(rows, y, i + 1);
        proof {
            lemma_row_group_end(rows, y, i + 1);
        }
        let active = if gap_before(state.2, y as int, max_gap) { seq![] } else { state.0 };
        &&& row_matches_defined(active, rows.subrange(i, j))
        &&& group_defined_from(rows, j, after_row(state, y, rows.subrange(i, j), min_height, max_gap), min_height, max_gap)
    }
}

/// Grouping `rows` is defined: every segment that ends before it starts
/// meets no overlapping rectangle. Ordered segments always are.
pub open spec fn grouping_defined(rows: Seq<(u32, u32, u32)>, min_height: int, max_gap: int) -> bool {
    group_defined_from(rows, 0, (seq![], seq![], None), min_height, max_gap)
}

proof fn lemma_ordered_group_defined_from(rows: Seq<(u32, u32, u32)>, i: int, state: GroupState, min_height: int, max_gap: int)
    requires
        segments_ordered(rows),
    ensures
        group_defined_from(rows, i, state, min_height, max_gap),
    decreases rows.len() - i,
{
    if 0 <= i < rows.len() {
        let y = rows[i].0;
        lemma_row_group_end(rows, y, i + 1);
        let j = row_group_end(rows, y, i + 1);
        let segments = rows.subrange(i, j);
        assert forall|k: int| 0 <= k < segments.len() implies (#[trigger] segments[k]).1 <= segments[k].2 by {
            assert(segments[k] == rows[i + k]);
        }
        lemma_ordered_group_defined_from(rows, j, after_row(state, y, segments, min_height, max_gap), min_height, max_gap);
    }
}

/// Segments that are inclusive spans can always be grouped.
pub proof fn lemma_ordered_grouping_defined(rows: Seq<(u32, u32, u32)>, min_height: int, max_gap: int)
    requires
        segments_ordered(rows),
    ensures
        grouping_defined(rows, min_height, max_gap),
{
    lemma_ordered_group_defined_from(rows, 0, (seq![], seq![], None), min_height, max_gap);
}

pub open spec fn opt_index(o: Option<usize>) -> Option<int> {
    match o {
        Some(i) => Some(i as int),
        None => None,
    }
}

/// The first active rectangle with the largest positive overlap with the
/// segment `[s0, s1]`, and that overlap.
fn best_match(active: &Vec<Rect>, s0: u32, s1: u32) -> (r: (Option<usize>, u32))
    ensures
        (opt_index(r.0), r.1 as int) == best_upto(active@, s0 as int, s1 as int, active@.len() as int),
        r.0 matches Some(i) ==> i < active@.len(),
{
    let mut best: Option<usize> = None;
    let mut best_overlap: u32 = 0;
    let mut idx: usize = 0;
    while idx < active.len()
        invariant
            0 <= idx <= active@.len(),
            (opt_index(best), best_overlap as int) == best_upto(active@, s0 as int, s1 as int, idx as int),
            best matches Some(i) ==> i < idx,
        decreases active@.len() - idx,
    {
        let rect = active[idx];
        let o = overlap((rect.x, rect.x2()), (s0, s1));
        if o > best_overlap {
            best_overlap = o;
            best = Some(idx);
        }
        idx = idx + 1;
    }
    (best, best_overlap)
}

/// Append the rectangles of `rects` at least `min_height` tall to `out`.
fn push_tall(out: &mut Vec<Rect>, rects: &Vec<Rect>, min_height: u32)
    ensures
        final(out)@ == old(out)@ + keep_tall(rects@, min_height as int),
{
    let mut i: usize = 0;
    while i < rects.len()
        invariant
            0 <= i <= rects@.len(),
            out@ == old(out)@ + keep_tall(rects@.take(i as int), min_height as int),
        decreases rects@.len() - i,
    {
        proof {
            assert(rects@.take(i + 1).drop_last() =~= rects@.take(i as int));
        }
        if rects[i].h >= min_height {
            out.push(rects[i]);
        }
        proof {
            assert(out@ =~= old(out)@ + keep_tall(rects@.take(i + 1), min_height as int));
        }
        i = i + 1;
    }
    proof {
        assert(rects@.take(rects@.len() as int) =~= rects@);
    }
}

/// Match the segments `rows[from..to]` of row `y` against `active`
/// together: the rectangles carried into the next row, and where each
/// continued active rectangle went.
fn match_row(active: &Vec<Rect>, rows: &Vec<(u32, u32, u32)>, from: usize, to: usize, y: u32) -> (r: (Vec<Rect>, Vec<Option<usize>>))
    requires
        from <= to <= rows@.len(),
        row_matches_defined(active@, rows@.subrange(from as int, to as int)),
    ensures
        (r.0@, r.1@) == row_step(active@, rows@.subrange(from as int, to as int), y as int, (to - from) as int),
        r.1@.len() == active@.len(),
{
    let ghost segments = rows@.subrange(from as int, to as int);
    let mut next: Vec<Rect> = Vec::new();
    let mut cont: Vec<Option<usize>> = Vec::new();
    let mut i: usize = 0;
    while i < active.len()
        invariant
            0 <= i <= active@.len(),
            cont@ == Seq::new(i as nat, |k: int| None::<usize>),
        decreases active@.len() - i,
    {
        cont.push(None);
        proof {
            assert(cont@ =~= Seq::new((i + 1) as nat, |k: int| None::<usize>));
        }
        i = i + 1;
    }
    let mut k: usize = from;
    while k < to
        invariant
            from <= k <= to <= rows@.len(),
            segments == rows@.subrange(from as int, to as int),
            row_matches_defined(active@, segments),
            (next@, cont@) == row_step(active@, segments, y as int, (k - from) as int),
            cont@.len() == active@.len(),
            forall|j: int| 0 <= j < cont@.len() ==> (#[trigger] cont@[j] matches Some(p) ==> p < next@.len()),
        decreases to - k,
    {
        let (_, s0, s1) = rows[k];
        assert(segments[k - from] == rows@[k as int]);
        let (best, best_overlap) = best_match(active, s0, s1);
        let mut continued: Option<usize> = None;
        if let Some(idx) = best {
            assert(s0 <= s1);
            let span: u64 = (s1 - s0) as u64 + 1;
            let wider: u64 = if span >= active[idx].w as u64 { span } else { active[idx].w as u64 };
            if best_overlap as u64 * 3 >= wider {
                continued = Some(idx);
            }
        }
        assert(opt_index(continued) == continued_by(active@, s0 as int, s1 as int));
        match continued {
            Some(idx) => {
                let target = match cont[idx] {
                    Some(position) => position,
                    None => {
                        next.push(active[idx]);
                        cont.set(idx, Some(next.len() - 1));
                        next.len() - 1
                    },
                };
                let rect = next[target];
                let x = if rect.x <= s0 { rect.x } else { s0 };
                let x2 = rect.x2();
                let right = if x2 >= s1 { x2 } else { s1 };
                let w = right.saturating_sub(x).saturating_add(1);
                let h = y.saturating_sub(rect.y).saturating_add(1);
                next.set(target, Rect { x, y: rect.y, w, h });
            },
            None => {
                next.push(Rect { x: s0, y, w: s1.saturating_sub(s0).saturating_add(1), h: 1 });
            },
        }
        proof {
            assert((next@, cont@) =~= row_step(active@, segments, y as int, (k + 1 - from) as int));
        }
        k = k + 1;
    }
    (next, cont)
}

/// Append the active rectangles that no segment continued and that are at
/// least `min_height` tall to `out`.
fn push_finished(out: &mut Vec<Rect>, active: &Vec<Rect>, cont: &Vec<Option<usize>>, min_height: u32)
    requires
        cont@.len() == active@.len(),
    ensures
        final(out)@ == old(out)@ + finished(active@, cont@, min_height as int, active@.len() as int),
{
    let mut i: usize = 0;
    while i < active.len()
        invariant
            0 <= i <= active@.len(),
            cont@.len() == active@.len(),
            out@ == old(out)@ + finished(active@, cont@, min_height as int, i as int),
        decreases active@.len() - i,
    {
        if cont[i].is_none() && active[i].h >= min_height {
            out.push(active[i]);
        }
        proof {
            assert(out@ =~= old(out)@ + finished(active@, cont@, min_height as int, i + 1));
        }
        i = i + 1;
    }
}

/// Group per-row horizontal segments into rectangles by greedily continuing
/// the best-overlapping active rectangle from the previous row, closing out
/// rectangles once a vertical gap larger than `max_gap` rows is seen.
///
/// `rows` holds `(y, start_x, end_x)` segments in top-to-bottom scan order;
/// a row may contribute any number of segments. All segments of one row are
/// matched against the active rectangles *together*, so side-by-side regions
/// do not evict each other from the active set.
pub fn group_segments(rows: Vec<(u32, u32, u32)>, min_height: u32, max_gap: u32) -> (r: Vec<Rect>)
    requires
        grouping_defined(rows@, min_height as int, max_gap as int),
    ensures
        r@ == grouped(rows@, min_height as int, max_gap as int),
{
    let mut active: Vec<Rect> = Vec::new();
    let mut completed: Vec<Rect> = Vec::new();
    let mut prev_y: Option<u32> = None;
    let mut index: usize = 0;
    while index < rows.len()
        invariant
            0 <= index <= rows@.len(),
            group_defined_from(rows@, index as int, (active@, completed@, prev_y), min_height as int, max_gap as int),
            group_from(rows@, index as int, (active@, completed@, prev_y), min_height as int, max_gap as int)
                == grouped(rows@, min_height as int, max_gap as int),
        decreases rows@.len() - index,
    {
        let y = rows[index].0;
        let mut row_end = index + 1;
        while row_end < rows.len() && rows[row_end].0 == y
            invariant
                index < row_end <= rows@.len(),
                rows@[index as int].0 == y,
                row_group_end(rows@, y, index + 1) == row_group_end(rows@, y, row_end as int),
            decreases rows@.len() - row_end,
        {
            row_end = row_end + 1;
        }
        let ghost state = (active@, completed@, prev_y);
        let gap = match prev_y {
            Some(prev) => y > prev.saturating_add(max_gap).saturating_add(1),
            None => false,
        };
        if gap {
            push_tall(&mut completed, &active, min_height);
            active = Vec::new();
        }
        prev_y = Some(y);
        let (next, cont) = match_row(&active, &rows, index, row_end, y);
        push_finished(&mut completed, &active, &cont, min_height);
        active = next;
        proof {
            assert((active@, completed@, prev_y) == after_row(state, y, rows@.subrange(index as int, row_end as int), min_height as int, max_gap as int));
        }
        index = row_end;
    }
    push_tall(&mut completed, &active, min_height);
    completed
}

// ----- Scanning regions -----

/// `runs` of row `y` as `(y, start_x, end_x)` segments.
pub open spec fn tag_row(y: u32, runs: Seq<(u32, u32)>) -> Seq<(u32, u32, u32)> {
    Seq::new(runs.len(), |i: int| (y, runs[i].0, runs[i].1))
}

/// The segments of consecutive rows from `y0` on, one verdict mask per row,
/// each row's runs left to right.
pub open spec fn region_rows(masks: Seq<Seq<bool>>, y0: int, x0: int, min_width: int) -> Seq<(u32, u32, u32)>
    decreases masks.len(),
{
    if masks.len() == 0 {
        seq![]
    } else {
        region_rows(masks.drop_last(), y0, x0, min_width) + tag_row(
            (y0 + masks.len() - 1) as u32,
            mask_runs(masks.last(), x0, min_width),
        )
    }
}

/// `masks` holds the predicate's verdicts for the rows from `y0` on,
/// columns `x0..=x1` clipped to the frame.
pub open spec fn region_verdicts<F: Fn(&Pixel) -> bool>(predicate: F, image: Frame, y0: int, x0: int, x1: int, masks: Seq<Seq<bool>>) -> bool {
    forall|k: int|
        0 <= k < masks.len() ==> (#[trigger] masks[k]).len() == scan_len(image, x0, x1)
            && row_verdicts(predicate, image, y0 + k, x0, masks[k])
}

/// One past the last row a scan of `region` reads: the region's bottom,
/// clipped to the frame.
pub open spec fn rows_end(image: Frame, region: Rect) -> int {
    min(sat_add(region.y as int, region.h as int), image.height_spec())
}

/// How many rows a scan of `region` reads.
pub open spec fn row_count(image: Frame, region: Rect) -> int {
    sat_sub(rows_end(image, region), region.y as int)
}

/// A scan of the rows of `region`, columns `x0..=x1`, stays inside the
/// frame: it reads nothing, or the frame has columns.
pub open spec fn region_scan_safe(image: Frame, region: Rect, x0: int, x1: int) -> bool {
    row_count(image, region) > 0 ==> (x0 > clip_x1(image, x1) || image.width_spec() >= 1)
}

/// Every run of a mask is an inclusive span `first <= last` inside the
/// mask's columns.
pub proof fn lemma_mask_runs_within(m: Seq<bool>, start: int, min_width: int)
    requires
        0 <= start,
        start + m.len() <= u32::MAX + 1,
    ensures
        forall|k: int| 0 <= k < mask_runs(m, start, min_width).len() ==> {
            let run = #[trigger] mask_runs(m, start, min_width)[k];
            start <= run.0 <= run.1 < start + m.len()
        },
    decreases m.len(),
{
    if m.len() == 0 {
    } else if !m[0] {
        lemma_mask_runs_within(m.drop_first(), start + 1, min_width);
        assert(mask_runs(m, start, min_width) == mask_runs(m.drop_first(), start + 1, min_width));
    } else {
        lemma_lead_true_bounds(m);
        let k = lead_true(m);
        lemma_mask_runs_within(m.skip(k as int), start + k, min_width);
        let rest = mask_runs(m.skip(k as int), start + k, min_width);
        let all = mask_runs(m, start, min_width);
        if k >= min_width {
            assert(all == seq![(start as u32, (start + k - 1) as u32)] + rest);
            assert forall|j: int| 0 <= j < all.len() implies {
                let run = #[trigger] all[j];
                start <= run.0 <= run.1 < start + m.len()
            } by {
                if j > 0 {
                    assert(all[j] == rest[j - 1]);
                }
            }
        } else {
            assert(all == rest);
        }
    }
}

/// Every segment gathered from a region scan is an inclusive span.
pub proof fn lemma_region_rows_ordered(masks: Seq<Seq<bool>>, y0: int, x0: int, min_width: int)
    requires
        0 <= x0,
        forall|k: int| 0 <= k < masks.len() ==> x0 + (#[trigger] masks[k]).len() <= u32::MAX + 1,
    ensures
        segments_ordered(region_rows(masks, y0, x0, min_width)),
    decreases masks.len(),
{
    if masks.len() > 0 {
        let rest = masks.drop_last();
        assert forall|k: int| 0 <= k < rest.len() implies x0 + (#[trigger] rest[k]).len() <= u32::MAX + 1 by {
            assert(rest[k] == masks[k]);
        }
        lemma_region_rows_ordered(rest, y0, x0, min_width);
        assert(masks.last() == masks[masks.len() - 1]);
        lemma_mask_runs_within(masks.last(), x0, min_width);
        let all = region_rows(masks, y0, x0, min_width);
        let front = region_rows(rest, y0, x0, min_width);
        let runs = mask_runs(masks.last(), x0, min_width);
        assert forall|k: int| 0 <= k < all.len() implies (#[trigger] all[k]).1 <= all[k].2 by {
            if k >= front.len() {
                assert(runs[k - front.len()].0 <= runs[k - front.len()].1);
            }
        }
    }
}

/// Scan the rows of `region` (clipped to the frame), columns `x0..=x1`,
/// gathering every run of at least `min_width` matching pixels as a
/// `(y, start_x, end_x)` segment, rows top to bottom.
fn scan_region<F: Fn(&Pixel) -> bool>(image: &Frame, region: Rect, x0: u32, x1: u32, min_width: u32, predicate: &F) -> (r: (Vec<(u32, u32, u32)>, Ghost<Seq<Seq<bool>>>))
    requires
        accepts_all(*predicate),
        region_scan_safe(*image, region, x0 as int, x1 as int),
    ensures
        r.1@.len() == row_count(*image, region),
        region_verdicts(*predicate, *image, region.y as int, x0 as int, x1 as int, r.1@),
        r.0@ == region_rows(r.1@, region.y as int, x0 as int, min_width as int),
        segments_ordered(r.0@),
{
    let height = image.height();
    let y_end = if region.y.saturating_add(region.h) < height { region.y.saturating_add(region.h) } else { height };
    let mut rows: Vec<(u32, u32, u32)> = Vec::new();
    let ghost mut masks: Seq<Seq<bool>> = seq![];
    let mut y = region.y;
    while y < y_end
        invariant
            region.y <= y,
            y == region.y || y <= y_end,
            y_end == rows_end(*image, region),
            y_end <= image.height_spec(),
            accepts_all(*predicate),
            region_scan_safe(*image, region, x0 as int, x1 as int),
            masks.len() == y - region.y,
            region_verdicts(*predicate, *image, region.y as int, x0 as int, x1 as int, masks),
            rows@ == region_rows(masks, region.y as int, x0 as int, min_width as int),
        decreases y_end - y,
    {
        let mask = row_mask(image, y, x0, x1, predicate);
        let runs = row_runs(&mask, x0, min_width);
        let ghost before = rows@;
        let mut k: usize = 0;
        while k < runs.len()
            invariant
                0 <= k <= runs@.len(),
                rows@ == before + tag_row(y, runs@.take(k as int)),
            decreases runs@.len() - k,
        {
            let (a, b) = runs[k];
            rows.push((y, a, b));
            proof {
                assert(rows@ =~= before + tag_row(y, runs@.take(k + 1)));
            }
            k = k + 1;
        }
        let ghost prior = masks;
        proof {
            masks = masks.push(mask@);
            assert(runs@.take(runs@.len() as int) =~= runs@);
            assert(masks.drop_last() =~= prior);
            assert forall|j: int| 0 <= j < masks.len() implies (#[trigger] masks[j]).len() == scan_len(*image, x0 as int, x1 as int)
                && row_verdicts(*predicate, *image, region.y + j, x0 as int, masks[j]) by {
                if j < prior.len() {
                    assert(masks[j] == prior[j]);
                }
            }
        }
        y = y + 1;
    }
    proof {
        assert forall|k: int| 0 <= k < masks.len() implies x0 + (#[trigger] masks[k]).len() <= u32::MAX + 1 by {
        }
        lemma_region_rows_ordered(masks, region.y as int, x0 as int, min_width as int);
    }
    (rows, Ghost(masks))
}

/// The rectangle of largest area, the last of several equally large ones.
pub open spec fn largest(rects: Seq<Rect>) -> Option<Rect>
    decreases rects.len(),
{
    if rects.len() == 0 {
        None
    } else {
        match largest(rects.drop_last()) {
            None => Some(rects.last()),
            Some(best) => if rects.last().area_spec() >= best.area_spec() {
                Some(rects.last())
            } else {
                Some(best)
            },
        }
    }
}

fn largest_rect(rects: &Vec<Rect>) -> (r: Option<Rect>)
    ensures
        r == largest(rects@),
{
    let mut best: Option<Rect> = None;
    let mut i: usize = 0;
    while i < rects.len()
        invariant
            0 <= i <= rects@.len(),
            best == largest(rects@.take(i as int)),
        decreases rects@.len() - i,
    {
        proof {
            assert(rects@.take(i + 1).drop_last() =~= rects@.take(i as int));
        }
        let rect = rects[i];
        best = match best {
            None => Some(rect),
            Some(b) => if rect.area() >= b.area() { Some(rect) } else { Some(b) },
        };
        i = i + 1;
    }
    proof {
        assert(rects@.take(rects@.len() as int) =~= rects@);
    }
    best
}

/// The column a scan of `region` ends at.
pub open spec fn region_x1(region: Rect) -> int {
    sat_sub(sat_add(region.x as int, region.w as int), 1)
}

/// The largest rectangle grouped (at least `min_height` rows, gaps of at
/// most two rows) from the runs of at least `min_width` predicate matches
/// in the rows of `region`, given the predicate's verdicts `masks`.
pub open spec fn horizontal_region(masks: Seq<Seq<bool>>, region: Rect, min_width: int, min_height: int) -> Option<Rect> {
    largest(grouped(region_rows(masks, region.y as int, region.x as int, min_width), min_height, 2))
}

/// `masks` are the predicate's verdicts over the rows of `region`, columns
/// from `region.x` to `x1` clipped to the frame.
pub open spec fn scanned<F: Fn(&Pixel) -> bool>(predicate: F, image: Frame, region: Rect, x1: int, masks: Seq<Seq<bool>>) -> bool {
    &&& masks.len() == row_count(image, region)
    &&& region_verdicts(predicate, image, region.y as int, region.x as int, x1, masks)
}

fn find_horizontal_region<F: Fn(&Pixel) -> bool>(
    image: &Frame,
    region: Rect,
    min_width: u32,
    min_height: u32,
    predicate: F,
) -> (r: Option<Rect>)
    requires
        accepts_all(predicate),
        region_scan_safe(*image, region, region.x as int, region_x1(region)),
    ensures
        exists|masks: Seq<Seq<bool>>|
            #[trigger] scanned(predicate, *image, region, region_x1(region), masks)
                && r == horizontal_region(masks, region, min_width as int, min_height as int),
{
    let x1 = region.x.saturating_add(region.w).saturating_sub(1);
    let (rows, Ghost(masks)) = scan_region(image, region, region.x, x1, min_width, &predicate);
    proof {
        lemma_ordered_grouping_defined(rows@, min_height as int, 2);
    }
    let candidates = group_segments(rows, min_height, 2);
    let best = largest_rect(&candidates);
    assert(scanned(predicate, *image, region, region_x1(region), masks));
    best
}

/// Find the largest solid run of predicate matches within `region`, at
/// least `max(region.w / 20, 8)` pixels wide and two rows tall: a colour
/// bar. The predicate is the bar's colour test.
pub fn find_color_bar<F: Fn(&Pixel) -> bool>(image: &Frame, region: Rect, is_bar_color: F) -> (r: Option<Rect>)
    requires
        accepts_all(is_bar_color),
        region_scan_safe(*image, region, region.x as int, region_x1(region)),
    ensures
        exists|masks: Seq<Seq<bool>>|
            #[trigger] scanned(is_bar_color, *image, region, region_x1(region), masks)
                && r == horizontal_region(masks, region, max((region.w / 20) as int, 8), 2),
{
    let min_width = if region.w / 20 >= 8 { region.w / 20 } else { 8 };
    find_horizontal_region(image, region, min_width, 2, is_bar_color)
}

/// The rectangles of `rects` at least 20 wide and 4 tall, in order.
pub open spec fn big_regions(rects: Seq<Rect>) -> Seq<Rect>
    decreases rects.len(),
{
    if rects.len() == 0 {
        seq![]
    } else {
        big_regions(rects.drop_last()) + if rects.last().w >= 20 && rects.last().h >= 4 {
            seq![rects.last()]
        } else {
            seq![]
        }
    }
}

/// Every region within `region` where predicate matches form runs at
/// least 20 pixels wide over at least 4 rows (gaps of up to two rows
/// bridged), in grouping order.
pub fn find_color_regions<F: Fn(&Pixel) -> bool>(image: &Frame, region: Rect, is_region_color: F) -> (r: Vec<Rect>)
    requires
        accepts_all(is_region_color),
        region_scan_safe(*image, region, region.x as int, region_x1(region)),
    ensures
        exists|masks: Seq<Seq<bool>>|
            #[trigger] scanned(is_region_color, *image, region, region_x1(region), masks)
                && r@ == big_regions(grouped(region_rows(masks, region.y as int, region.x as int, 20), 4, 2)),
{
    let x1 = region.x.saturating_add(region.w).saturating_sub(1);
    let (rows, Ghost(masks)) = scan_region(image, region, region.x, x1, 20, &is_region_color);
    proof {
        lemma_ordered_grouping_defined(rows@, 4, 2);
    }
    let candidates = group_segments(rows, 4, 2);
    let mut result: Vec<Rect> = Vec::new();
    let mut i: usize = 0;
    while i < candidates.len()
        invariant
            0 <= i <= candidates@.len(),
            result@ == big_regions(candidates@.take(i as int)),
        decreases candidates@.len() - i,
    {
        proof {
            assert(candidates@.take(i + 1).drop_last() =~= candidates@.take(i as int));
        }
        let rect = candidates[i];
        if rect.w >= 20 && rect.h >= 4 {
            result.push(rect);
        }
        proof {
            assert(result@ =~= big_regions(candidates@.take(i + 1)));
        }
        i = i + 1;
    }
    proof {
        assert(candidates@.take(candidates@.len() as int) =~= candidates@);
    }
    assert(scanned(is_region_color, *image, region, region_x1(region), masks));
    result
}

// ----- Uniform colour panels -----

/// Does a pixel with samples `p` quantize to `bucket` at `step`, and is it
/// opaque enough (alpha at least 200) to count?
pub open spec fn in_bucket(p: Seq<u8>, bucket: (u8, u8, u8), step: u8) -> bool {
    &&& p[3] >= 200
    &&& p[0] / step == bucket.0
    &&& p[1] / step == bucket.1
    &&& p[2] / step == bucket.2
}

/// Bucket verdicts for the rows of `region`, columns `x0..=x1` clipped.
pub open spec fn bucket_masks(image: Frame, region: Rect, x1: int, bucket: (u8, u8, u8), step: u8) -> Seq<Seq<bool>> {
    Seq::new(
        row_count(image, region) as nat,
        |k: int|
            Seq::new(
                scan_len(image, region.x as int, x1) as nat,
                |i: int| in_bucket(image.pixel(region.x + i, region.y + k), bucket, step),
            ),
    )
}

/// The column a panel scan of `region` ends at.
pub open spec fn panel_x1(image: Frame, region: Rect) -> int {
    sat_sub(min(sat_add(region.x as int, region.w as int), image.width_spec()), 1)
}

/// Four samples of pixel `(x, y)` exist when it lies inside the frame.
pub proof fn lemma_pixel_len(image: Frame, x: int, y: int)
    requires
        image.in_bounds(x, y),
        frame_samples(image).len() >= 4 * image.width_spec() * image.height_spec(),
    ensures
        image.pixel(x, y).len() == 4,
{
    crate::frame::lemma_pixel_index_in_range(image.width_spec(), image.height_spec(), x, y);
}

/// Does `rect` lie inside the frame with every one of its pixels in
/// `bucket` at `step`?
pub open spec fn pure_panel(image: Frame, rect: Rect, bucket: (u8, u8, u8), step: u8) -> bool {
    &&& rect.x + rect.w <= image.width_spec()
    &&& rect.y + rect.h <= image.height_spec()
    &&& forall|x: int, y: int|
        rect.x <= x < rect.x + rect.w && rect.y <= y < rect.y + rect.h ==> in_bucket(
            #[trigger] image.pixel(x, y),
            bucket,
            step,
        )
}

/// The rectangles of `rects` that are pure panels, in order.
pub open spec fn pure_panels(rects: Seq<Rect>, image: Frame, bucket: (u8, u8, u8), step: u8) -> Seq<Rect>
    decreases rects.len(),
{
    if rects.len() == 0 {
        seq![]
    } else {
        pure_panels(rects.drop_last(), image, bucket, step) + if pure_panel(image, rects.last(), bucket, step) {
            seq![rects.last()]
        } else {
            seq![]
        }
    }
}

/// Is every pixel of `rect` inside the frame and in `bucket`?
fn is_pure_panel(image: &Frame, rect: Rect, bucket: (u8, u8, u8), step: u8) -> (r: bool)
    requires
        step > 0,
    ensures
        r == pure_panel(*image, rect, bucket, step),
{
    let (width, height) = image.dimensions();
    if rect.x as u64 + rect.w as u64 > width as u64 || rect.y as u64 + rect.h as u64 > height as u64 {
        return false;
    }
    let x_end = rect.x + rect.w;
    let y_end = rect.y + rect.h;
    let mut y = rect.y;
    while y < y_end
        invariant
            rect.y <= y <= y_end == rect.y + rect.h <= height == image.height_spec(),
            x_end == rect.x + rect.w <= width == image.width_spec(),
            frame_samples(*image).len() >= 4 * image.width_spec() * image.height_spec(),
            step > 0,
            forall|px: int, py: int|
                rect.x <= px < x_end && rect.y <= py < y ==> in_bucket(#[trigger] image.pixel(px, py), bucket, step),
        decreases y_end - y,
    {
        let mut x = rect.x;
        while x < x_end
            invariant
                rect.x <= x <= x_end == rect.x + rect.w <= width == image.width_spec(),
                rect.y <= y < y_end <= height == image.height_spec(),
                y_end == rect.y + rect.h,
                frame_samples(*image).len() >= 4 * image.width_spec() * image.height_spec(),
                step > 0,
                forall|px: int, py: int|
                    rect.x <= px < x_end && rect.y <= py < y ==> in_bucket(#[trigger] image.pixel(px, py), bucket, step),
                forall|px: int| rect.x <= px < x ==> in_bucket(#[trigger] image.pixel(px, y as int), bucket, step),
            decreases x_end - x,
        {
            let p = image.get_pixel(x, y);
            if !(p[3] >= 200 && p[0] / step == bucket.0 && p[1] / step == bucket.1 && p[2] / step == bucket.2) {
                assert(p@ == image.pixel(x as int, y as int));
                assert(!in_bucket(image.pixel(x as int, y as int), bucket, step));
                assert(rect.x <= x < rect.x + rect.w && rect.y <= y < rect.y + rect.h);
                assert(!pure_panel(*image, rect, bucket, step));
                return false;
            }
            x = x + 1;
        }
        y = y + 1;
    }
    true
}

/// Find the largest rectangle within `region` whose pixels all quantize to
/// `bucket` at `step` (see [`dominant_color_bucket`]): of the rectangles
/// grouped from runs of at least 20 such pixels over at least 12 rows, the
/// largest that holds no other pixel.
pub fn find_uniform_color_panel(image: &Frame, region: Rect, bucket: (u8, u8, u8), step: u8) -> (r: Option<Rect>)
    requires
        step > 0,
        region_scan_safe(*image, region, region.x as int, panel_x1(*image, region)),
    ensures
        r == largest(
            pure_panels(
                grouped(region_rows(bucket_masks(*image, region, panel_x1(*image, region), bucket, step), region.y as int, region.x as int, 20), 12, 2),
                *image,
                bucket,
                step,
            ),
        ),
        r matches Some(rect) ==> pure_panel(*image, rect, bucket, step),
{
    let width = image.width();
    let matches = |pixel: &Pixel| -> (m: bool)
        requires
            step > 0,
        ensures
            m == in_bucket(pixel@, bucket, step),
        {
            pixel[3] >= 200 && pixel[0] / step == bucket.0 && pixel[1] / step == bucket.1 && pixel[2] / step == bucket.2
        };
    let x_end = if region.x.saturating_add(region.w) < width { region.x.saturating_add(region.w) } else { width };
    let x1 = x_end.saturating_sub(1);
    let (rows, Ghost(masks)) = scan_region(image, region, region.x, x1, 20, &matches);
    proof {
        let expected = bucket_masks(*image, region, x1 as int, bucket, step);
        assert forall|k: int| 0 <= k < masks.len() implies #[trigger] masks[k] == expected[k] by {
            assert(masks[k].len() == scan_len(*image, region.x as int, x1 as int));
            assert(row_verdicts(matches, *image, region.y + k, region.x as int, masks[k]));
            assert forall|i: int| 0 <= i < masks[k].len() implies masks[k][i] == expected[k][i] by {
                let x = region.x + i;
                let y = region.y + k;
                assert(pixel_verdict(matches, *image, x, y, masks[k][i]));
                assert(image.in_bounds(x, y));
                lemma_pixel_len(*image, x, y);
                let s = image.pixel(x, y);
                let p: Pixel = [s[0], s[1], s[2], s[3]];
                assert(p@ =~= s);
                assert(matches.ensures((&p,), masks[k][i]));
            }
            assert(masks[k] =~= expected[k]);
        }
        assert(masks =~= expected);
    }
    proof {
        lemma_ordered_grouping_defined(rows@, 12, 2);
    }
    let candidates = group_segments(rows, 12, 2);
    let mut pure: Vec<Rect> = Vec::new();
    let mut i: usize = 0;
    while i < candidates.len()
        invariant
            0 <= i <= candidates@.len(),
            step > 0,
            pure@ == pure_panels(candidates@.take(i as int), *image, bucket, step),
        decreases candidates@.len() - i,
    {
        proof {
            assert(candidates@.take(i + 1).drop_last() =~= candidates@.take(i as int));
        }
        if is_pure_panel(image, candidates[i], bucket, step) {
            pure.push(candidates[i]);
        }
        proof {
            assert(pure@ =~= pure_panels(candidates@.take(i + 1), *image, bucket, step));
        }
        i = i + 1;
    }
    assert(candidates@.take(candidates@.len() as int) =~= candidates@);
    let best = largest_rect(&pure);
    proof {
        lemma_pure_panels_pure(candidates@, *image, bucket, step);
        lemma_largest_member(pure@);
    }
    best
}

proof fn lemma_pure_panels_pure(rects: Seq<Rect>, image: Frame, bucket: (u8, u8, u8), step: u8)
    ensures
        forall|k: int| 0 <= k < pure_panels(rects, image, bucket, step).len() ==> pure_panel(
            image,
            #[trigger] pure_panels(rects, image, bucket, step)[k],
            bucket,
            step,
        ),
    decreases rects.len(),
{
    if rects.len() > 0 {
        lemma_pure_panels_pure(rects.drop_last(), image, bucket, step);
        let front = pure_panels(rects.drop_last(), image, bucket, step);
        let all = pure_panels(rects, image, bucket, step);
        assert forall|k: int| 0 <= k < all.len() implies pure_panel(image, #[trigger] all[k], bucket, step) by {
            if k < front.len() {
                assert(all[k] == front[k]);
            }
        }
    }
}

proof fn lemma_largest_member(rects: Seq<Rect>)
    ensures
        largest(rects) matches Some(r) ==> exists|k: int| 0 <= k < rects.len() && #[trigger] rects[k] == r,
    decreases rects.len(),
{
    if rects.len() > 0 {
        lemma_largest_member(rects.drop_last());
        if let Some(b) = largest(rects.drop_last()) {
            let k = choose|k: int| 0 <= k < rects.drop_last().len() && #[trigger] rects.drop_last()[k] == b;
            assert(rects[k] == b);
        }
        assert(rects[rects.len() - 1] == rects.last());
    }
}

// ----- Dominant colour -----

/// The `(r, g, b) / step` bucket of a pixel's samples.
pub open spec fn bucket_of(p: Seq<u8>, step: u8) -> (u8, u8, u8) {
    ((p[0] / step) as u8, (p[1] / step) as u8, (p[2] / step) as u8)
}

/// Does pixel `(x, y)` count towards bucket `b`: opaque (alpha at least
/// 200) and quantizing to `b`?
pub open spec fn counts_for(image: Frame, x: int, y: int, step: u8, b: (u8, u8, u8)) -> bool {
    image.pixel(x, y)[3] >= 200 && bucket_of(image.pixel(x, y), step) == b
}

/// How many of the pixels `(x0 .. x0 + n, y)` count towards `b`.
pub open spec fn row_bucket_count(image: Frame, y: int, x0: int, n: int, step: u8, b: (u8, u8, u8)) -> nat
    decreases n,
{
    if n <= 0 {
        0
    } else {
        row_bucket_count(image, y, x0, n - 1, step, b) + if counts_for(image, x0 + n - 1, y, step, b) {
            1nat
        } else {
            0nat
        }
    }
}

/// How many pixels of the `cols` by `rows` block at `(x0, y0)` count
/// towards `b`.
pub open spec fn block_bucket_count(image: Frame, x0: int, cols: int, y0: int, rows: int, step: u8, b: (u8, u8, u8)) -> nat
    decreases rows,
{
    if rows <= 0 {
        0
    } else {
        block_bucket_count(image, x0, cols, y0, rows - 1, step, b) + row_bucket_count(image, y0 + rows - 1, x0, cols, step, b)
    }
}

/// The pixel block of `region` clipped to the frame: its column count.
pub open spec fn clipped_cols(image: Frame, region: Rect) -> int {
    sat_sub(min(sat_add(region.x as int, region.w as int), image.width_spec()), region.x as int)
}

/// How many pixels of `region` (clipped to the frame) count towards `b`.
pub open spec fn region_bucket_count(image: Frame, region: Rect, step: u8, b: (u8, u8, u8)) -> nat {
    block_bucket_count(image, region.x as int, clipped_cols(image, region), region.y as int, row_count(image, region), step, b)
}

/// The key under which bucket `b` is tallied: red, green and blue as the
/// high, middle and low bytes of a `u32`.
pub open spec fn bucket_key(b: (u8, u8, u8)) -> u32 {
    ((b.0 as u32) << 16u32) | ((b.1 as u32) << 8u32) | (b.2 as u32)
}

/// The bucket tallied under `key`.
pub open spec fn key_bucket(key: u32) -> (u8, u8, u8) {
    (((key >> 16u32) & 0xffu32) as u8, ((key >> 8u32) & 0xffu32) as u8, (key & 0xffu32) as u8)
}

/// A bucket is recovered from its key.
pub proof fn lemma_bucket_key(b: (u8, u8, u8))
    ensures
        key_bucket(bucket_key(b)) == b,
{
    let (r, g, l) = b;
    assert(((((((r as u32) << 16u32) | ((g as u32) << 8u32) | (l as u32)) >> 16u32) & 0xffu32) as u8) == r) by (bit_vector);
    assert(((((((r as u32) << 16u32) | ((g as u32) << 8u32) | (l as u32)) >> 8u32) & 0xffu32) as u8) == g) by (bit_vector);
    assert((((((r as u32) << 16u32) | ((g as u32) << 8u32) | (l as u32)) & 0xffu32) as u8) == l) by (bit_vector);
}

/// Keys are ordered as their buckets are in red, green, blue order.
pub proof fn lemma_bucket_key_order(a: (u8, u8, u8), b: (u8, u8, u8))
    ensures
        bucket_before(a, b) <==> bucket_key(a) < bucket_key(b),
{
    let (a0, a1, a2) = a;
    let (b0, b1, b2) = b;
    assert((a0 < b0 || (a0 == b0 && (a1 < b1 || (a1 == b1 && a2 < b2)))) <==> (((a0 as u32) << 16u32) | ((a1 as u32) << 8u32)
        | (a2 as u32)) < (((b0 as u32) << 16u32) | ((b1 as u32) << 8u32) | (b2 as u32))) by (bit_vector);
}

/// The running tally: every key held is that of a bucket, with the count
/// of that bucket so far, and every bucket counted so far is held.
pub open spec fn tally_exact(m: Map<u32, u64>, counted: spec_fn((u8, u8, u8)) -> nat) -> bool {
    &&& forall|k: u32| #[trigger] m.contains_key(k) ==> k == bucket_key(key_bucket(k)) && m[k] == counted(key_bucket(k)) && m[k] > 0
    &&& forall|b: (u8, u8, u8)| #[trigger] counted(b) > 0 ==> m.contains_key(bucket_key(b))
}

pub proof fn lemma_tally_ext(m: Map<u32, u64>, f: spec_fn((u8, u8, u8)) -> nat, g: spec_fn((u8, u8, u8)) -> nat)
    requires
        tally_exact(m, f),
        forall|b: (u8, u8, u8)| #[trigger] f(b) == g(b),
    ensures
        tally_exact(m, g),
{
    assert forall|b: (u8, u8, u8)| #[trigger] g(b) > 0 implies m.contains_key(bucket_key(b)) by {
        assert(f(b) > 0);
    }
}

/// Add one pixel of bucket `b` to the tally.
fn tally_add(counts: &mut HashMap<u32, u64>, b: (u8, u8, u8), Ghost(before): Ghost<spec_fn((u8, u8, u8)) -> nat>, Ghost(after): Ghost<spec_fn((u8, u8, u8)) -> nat>)
    requires
        tally_exact(old(counts)@, before),
        forall|c: (u8, u8, u8)| #[trigger] after(c) == before(c) + if c == b { 1nat } else { 0nat },
        after(b) <= u64::MAX,
    ensures
        tally_exact(final(counts)@, after),
{
    let key: u32 = ((b.0 as u32) << 16u32) | ((b.1 as u32) << 8u32) | (b.2 as u32);
    proof {
        lemma_bucket_key(b);
        assert(after(b) == before(b) + 1);
    }
    let current: u64 = match counts.get(&key) {
        Some(c) => *c,
        None => 0,
    };
    proof {
        if !old(counts)@.contains_key(key) && before(b) > 0 {
            assert(old(counts)@.contains_key(bucket_key(b)));
        }
    }
    counts.insert(key, current + 1);
    proof {
        assert forall|k: u32| #[trigger] counts@.contains_key(k) implies k == bucket_key(key_bucket(k)) && counts@[k] == after(
            key_bucket(k),
        ) && counts@[k] > 0 by {
            if k != key {
                assert(old(counts)@.contains_key(k));
                if key_bucket(k) == b {
                    assert(k == bucket_key(b));
                }
                assert(after(key_bucket(k)) == before(key_bucket(k)) + if key_bucket(k) == b { 1nat } else { 0nat });
            }
        }
        assert forall|c: (u8, u8, u8)| #[trigger] after(c) > 0 implies counts@.contains_key(bucket_key(c)) by {
            if c != b {
                assert(after(c) == before(c) + if c == b { 1nat } else { 0nat });
                assert(old(counts)@.contains_key(bucket_key(c)));
            }
        }
    }
}

pub proof fn lemma_row_count_bound(image: Frame, y: int, x0: int, n: int, step: u8, b: (u8, u8, u8))
    ensures
        row_bucket_count(image, y, x0, n, step, b) <= if n < 0 { 0 } else { n },
    decreases n,
{
    if n > 0 {
        lemma_row_count_bound(image, y, x0, n - 1, step, b);
    }
}

pub proof fn lemma_block_count_bound(image: Frame, x0: int, cols: int, y0: int, rows: int, step: u8, b: (u8, u8, u8))
    requires
        cols >= 0,
    ensures
        block_bucket_count(image, x0, cols, y0, rows, step, b) <= if rows < 0 { 0 } else { rows * cols },
    decreases rows,
{
    if rows > 0 {
        lemma_block_count_bound(image, x0, cols, y0, rows - 1, step, b);
        lemma_row_count_bound(image, y0 + rows - 1, x0, cols, step, b);
        assert((rows - 1) * cols + cols == rows * cols) by (nonlinear_arith);
    }
}

/// Does bucket `a` come before bucket `b`, comparing red, then green,
/// then blue?
pub open spec fn bucket_before(a: (u8, u8, u8), b: (u8, u8, u8)) -> bool {
    a.0 < b.0 || (a.0 == b.0 && (a.1 < b.1 || (a.1 == b.1 && a.2 < b.2)))
}

/// Quantize colors in `region` into `(r,g,b)/step` buckets and return the
/// bucket with the most pixels ("mode color"). Ignores near-transparent
/// pixels (alpha below 200) so alpha-blended overlays do not skew the
/// histogram. Among equally common buckets the one first in red, green,
/// blue order is returned, so the result is reproducible.
pub fn dominant_color_bucket(image: &Frame, region: Rect, step: u8) -> (r: Option<(u8, u8, u8)>)
    requires
        step > 0,
    ensures
        r is None <==> forall|b: (u8, u8, u8)| region_bucket_count(*image, region, step, b) == 0,
        r matches Some(best) ==> region_bucket_count(*image, region, step, best) > 0 && forall|b: (u8, u8, u8)|
            region_bucket_count(*image, region, step, b) <= region_bucket_count(*image, region, step, best),
        r matches Some(best) ==> forall|b: (u8, u8, u8)|
            b != best && region_bucket_count(*image, region, step, b) == region_bucket_count(*image, region, step, best)
                ==> #[trigger] bucket_before(best, b),
{
    let width = image.width();
    let height = image.height();
    let x_end = if region.x.saturating_add(region.w) < width { region.x.saturating_add(region.w) } else { width };
    let y_end = if region.y.saturating_add(region.h) < height { region.y.saturating_add(region.h) } else { height };
    let ghost cols = clipped_cols(*image, region);
    let mut counts: HashMap<u32, u64> = HashMap::new();
    let mut y = region.y;
    while y < y_end
        invariant
            region.y <= y,
            y == region.y || y <= y_end,
            y_end == rows_end(*image, region),
            x_end == min(sat_add(region.x as int, region.w as int), image.width_spec()),
            x_end <= width == image.width_spec(),
            y_end <= height == image.height_spec(),
            cols == clipped_cols(*image, region),
            frame_samples(*image).len() >= 4 * image.width_spec() * image.height_spec(),
            step > 0,
            tally_exact(counts@, |b: (u8, u8, u8)| block_bucket_count(*image, region.x as int, cols, region.y as int, y - region.y, step, b)),
        decreases y_end - y,
    {
        let mut x = region.x;
        proof {
            lemma_tally_ext(
                counts@,
                |b: (u8, u8, u8)| block_bucket_count(*image, region.x as int, cols, region.y as int, y - region.y, step, b),
                |b: (u8, u8, u8)| block_bucket_count(*image, region.x as int, cols, region.y as int, y - region.y, step, b)
                    + row_bucket_count(*image, y as int, region.x as int, x - region.x, step, b),
            );
        }
        while x < x_end
            invariant
                region.x <= x,
                x == region.x || x <= x_end,
                region.y <= y < y_end,
                y_end <= height == image.height_spec(),
                x_end == min(sat_add(region.x as int, region.w as int), image.width_spec()),
                x_end <= width == image.width_spec(),
                cols == clipped_cols(*image, region),
                frame_samples(*image).len() >= 4 * image.width_spec() * image.height_spec(),
                step > 0,
                tally_exact(counts@, |b: (u8, u8, u8)| block_bucket_count(*image, region.x as int, cols, region.y as int, y - region.y, step, b)
                    + row_bucket_count(*image, y as int, region.x as int, x - region.x, step, b)),
            decreases x_end - x,
        {
            let pixel = image.get_pixel(x, y);
            let ghost before = |b: (u8, u8, u8)| block_bucket_count(*image, region.x as int, cols, region.y as int, y - region.y, step, b)
                + row_bucket_count(*image, y as int, region.x as int, x - region.x, step, b);
            let ghost after = |b: (u8, u8, u8)| block_bucket_count(*image, region.x as int, cols, region.y as int, y - region.y, step, b)
                + row_bucket_count(*image, y as int, region.x as int, x + 1 - region.x, step, b);
            if pixel[3] >= 200 {
                let bucket = (pixel[0] / step, pixel[1] / step, pixel[2] / step);
                proof {
                    assert(pixel@ == image.pixel(x as int, y as int));
                    assert forall|c: (u8, u8, u8)| #[trigger] after(c) == before(c) + if c == bucket { 1nat } else { 0nat } by {
                        assert(counts_for(*image, x as int, y as int, step, c) == (c == bucket));
                    }
                    assert(after(bucket) <= u64::MAX) by {
                        lemma_block_count_bound(*image, region.x as int, cols, region.y as int, y - region.y, step, bucket);
                        lemma_row_count_bound(*image, y as int, region.x as int, x + 1 - region.x, step, bucket);
                        assert((y - region.y) * cols + cols <= (u32::MAX as int) * (u32::MAX as int)) by (nonlinear_arith)
                            requires
                                0 <= y - region.y < u32::MAX,
                                0 <= cols <= u32::MAX;
                    }
                }
                tally_add(&mut counts, bucket, Ghost(before), Ghost(after));
            } else {
                proof {
                    assert(pixel@ == image.pixel(x as int, y as int));
                    assert forall|c: (u8, u8, u8)| #[trigger] after(c) == before(c) by {
                        assert(!counts_for(*image, x as int, y as int, step, c));
                    }
                    lemma_tally_ext(counts@, before, after);
                }
            }
            x = x + 1;
        }
        proof {
            assert(x - region.x == cols);
            lemma_tally_ext(
                counts@,
                |b: (u8, u8, u8)| block_bucket_count(*image, region.x as int, cols, region.y as int, y - region.y, step, b)
                    + row_bucket_count(*image, y as int, region.x as int, x - region.x, step, b),
                |b: (u8, u8, u8)| block_bucket_count(*image, region.x as int, cols, region.y as int, y + 1 - region.y, step, b),
            );
        }
        y = y + 1;
    }
    let ghost total = |b: (u8, u8, u8)| region_bucket_count(*image, region, step, b);
    proof {
        assert(y - region.y == row_count(*image, region));
        lemma_tally_ext(
            counts@,
            |b: (u8, u8, u8)| block_bucket_count(*image, region.x as int, cols, region.y as int, y - region.y, step, b),
            total,
        );
    }
    let iter = counts.iter();
    let ghost pairs = iter.remaining();
    proof {
        assert(pairs == spec_hash_map_iter(&counts).remaining());
    }
    let mut best_key: u32 = 0;
    let mut best_count: u64 = 0;
    for item in it: iter
        invariant
            it.seq() == pairs,
            pairs == spec_hash_map_iter(&counts).remaining(),
            tally_exact(counts@, total),
            best_count > 0 ==> counts@.contains_key(best_key) && counts@[best_key] == best_count,
            forall|j: int| 0 <= j < it.index() ==> *(#[trigger] pairs[j]).1 <= best_count,
            forall|j: int|
                0 <= j < it.index() && *(#[trigger] pairs[j]).1 == best_count && *pairs[j].0 != best_key ==> best_key < *pairs[j].0,
    {
        let (key, count) = item;
        proof {
            assert(counts@.contains_key(*key) && counts@[*key] == *count);
        }
        if *count > best_count || (*count == best_count && *key < best_key) {
            best_key = *key;
            best_count = *count;
        }
    }
    proof {
        if best_count == 0 {
            assert forall|b: (u8, u8, u8)| region_bucket_count(*image, region, step, b) == 0 by {
                if total(b) > 0 {
                    let k = bucket_key(b);
                    assert(counts@.contains_key(k));
                    assert(pairs.contains((&k, &counts@[k])));
                    let j = choose|j: int| 0 <= j < pairs.len() && pairs[j] == (&k, &counts@[k]);
                    assert(*pairs[j].1 <= best_count);
                }
            }
        } else {
            let chosen = key_bucket(best_key);
            lemma_bucket_key(chosen);
            assert(total(chosen) == best_count);
            assert forall|b: (u8, u8, u8)| region_bucket_count(*image, region, step, b) <= region_bucket_count(*image, region, step, chosen) by {
                if total(b) > 0 {
                    let k = bucket_key(b);
                    lemma_bucket_key(b);
                    assert(counts@.contains_key(k));
                    assert(pairs.contains((&k, &counts@[k])));
                    let j = choose|j: int| 0 <= j < pairs.len() && pairs[j] == (&k, &counts@[k]);
                    assert(*pairs[j].1 <= best_count);
                }
            }
            assert forall|b: (u8, u8, u8)|
                b != chosen && region_bucket_count(*image, region, step, b) == region_bucket_count(*image, region, step, chosen)
                    implies #[trigger] bucket_before(chosen, b) by {
                let k = bucket_key(b);
                lemma_bucket_key(b);
                assert(total(b) == best_count);
                assert(counts@.contains_key(k));
                assert(pairs.contains((&k, &counts@[k])));
                let j = choose|j: int| 0 <= j < pairs.len() && pairs[j] == (&k, &counts@[k]);
                assert(*pairs[j].1 == best_count);
                assert(k != best_key);
                lemma_bucket_key_order(chosen, b);
            }
        }
    }
    if best_count == 0 {
        None
    } else {
        let high: u32 = (best_key >> 16u32) & 0xffu32;
        let middle: u32 = (best_key >> 8u32) & 0xffu32;
        let low: u32 = best_key & 0xffu32;
        assert(high < 256 && middle < 256 && low < 256) by (bit_vector)
            requires
                high == (best_key >> 16u32) & 0xffu32,
                middle == (best_key >> 8u32) & 0xffu32,
                low == best_key & 0xffu32;
        Some((high as u8, middle as u8, low as u8))
    }
}

// ----- Medians -----

/// How many values of `s` are below `v`.
pub open spec fn count_below(s: Seq<u8>, v: int) -> nat
    decreases s.len(),
{
    if s.len() == 0 {
        0
    } else {
        count_below(s.drop_last(), v) + if (s.last() as int) < v { 1nat } else { 0nat }
    }
}

/// How many values of `s` equal `v`.
pub open spec fn count_equal(s: Seq<u8>, v: int) -> nat
    decreases s.len(),
{
    if s.len() == 0 {
        0
    } else {
        count_equal(s.drop_last(), v) + if (s.last() as int) == v { 1nat } else { 0nat }
    }
}

/// `v` is the value at position `k` of `s` sorted ascending: fewer than
/// `k + 1` values lie below it and more than `k` lie at or below it.
pub open spec fn is_kth_smallest(s: Seq<u8>, k: int, v: u8) -> bool {
    count_below(s, v as int) <= k < count_below(s, v as int) + count_equal(s, v as int)
}

/// The median: the value at position `len / 2` of `s` sorted ascending.
pub open spec fn median(s: Seq<u8>) -> u8 {
    choose|v: u8| #[trigger] is_kth_smallest(s, (s.len() / 2) as int, v)
}

pub proof fn lemma_count_below_step(s: Seq<u8>, v: int)
    ensures
        count_below(s, v + 1) == count_below(s, v) + count_equal(s, v),
    decreases s.len(),
{
    if s.len() > 0 {
        lemma_count_below_step(s.drop_last(), v);
    }
}

pub proof fn lemma_count_below_bounds(s: Seq<u8>, v: int)
    ensures
        v <= 0 ==> count_below(s, v) == 0,
        v > 255 ==> count_below(s, v) == s.len(),
    decreases s.len(),
{
    if s.len() > 0 {
        lemma_count_below_bounds(s.drop_last(), v);
    }
}

pub proof fn lemma_count_below_monotone(s: Seq<u8>, a: int, b: int)
    requires
        a < b,
    ensures
        count_below(s, a) + count_equal(s, a) <= count_below(s, b),
    decreases s.len(),
{
    if s.len() > 0 {
        lemma_count_below_monotone(s.drop_last(), a, b);
    }
}

/// Only one value sits at a given sorted position.
pub proof fn lemma_kth_unique(s: Seq<u8>, k: int, v1: u8, v2: u8)
    requires
        is_kth_smallest(s, k, v1),
        is_kth_smallest(s, k, v2),
    ensures
        v1 == v2,
{
    if v1 < v2 {
        lemma_count_below_monotone(s, v1 as int, v2 as int);
    } else if v2 < v1 {
        lemma_count_below_monotone(s, v2 as int, v1 as int);
    }
}

/// The median of a non-empty sequence of samples.
pub fn median_of(values: &Vec<u8>) -> (r: u8)
    requires
        values@.len() > 0,
    ensures
        r == median(values@),
        is_kth_smallest(values@, (values@.len() / 2) as int, r),
{
    let ghost s = values@;
    let mut histogram: Vec<usize> = Vec::new();
    let mut v: usize = 0;
    while v < 256
        invariant
            0 <= v <= 256,
            histogram@.len() == v,
            forall|u: int| 0 <= u < v ==> #[trigger] histogram@[u] == 0,
        decreases 256 - v,
    {
        histogram.push(0);
        v = v + 1;
    }
    let mut i: usize = 0;
    while i < values.len()
        invariant
            0 <= i <= s.len(),
            s == values@,
            histogram@.len() == 256,
            forall|u: int| 0 <= u < 256 ==> #[trigger] histogram@[u] == count_equal(s.take(i as int), u),
        decreases s.len() - i,
    {
        let value = values[i] as usize;
        proof {
            assert(s.take(i + 1).drop_last() =~= s.take(i as int));
            assert(histogram@[value as int] == count_equal(s.take(i as int), value as int));
            assert(count_equal(s.take(i as int), value as int) <= i) by {
                lemma_count_equal_bound(s.take(i as int), value as int);
            }
        }
        let bumped = histogram[value] + 1;
        histogram.set(value, bumped);
        i = i + 1;
    }
    proof {
        assert(s.take(s.len() as int) =~= s);
    }
    let n = values.len();
    let k = n / 2;
    let mut below: usize = 0;
    let mut candidate: usize = 0;
    proof {
        lemma_count_below_bounds(s, 0);
    }
    while candidate < 256
        invariant
            0 <= candidate <= 256,
            histogram@.len() == 256,
            forall|u: int| 0 <= u < 256 ==> #[trigger] histogram@[u] == count_equal(s, u),
            below == count_below(s, candidate as int),
            below <= k,
            s == values@,
            n == s.len(),
            k == s.len() / 2,
            s.len() > 0,
        decreases 256 - candidate,
    {
        proof {
            lemma_count_below_step(s, candidate as int);
            lemma_count_below_bounds(s, candidate + 1);
            lemma_count_below_le_len(s, candidate + 1);
            assert(histogram@[candidate as int] == count_equal(s, candidate as int));
        }
        if below + histogram[candidate] > k {
            let r = candidate as u8;
            proof {
                assert(is_kth_smallest(s, (s.len() / 2) as int, r));
                let m = median(s);
                assert(is_kth_smallest(s, (s.len() / 2) as int, m));
                lemma_kth_unique(s, (s.len() / 2) as int, r, m);
            }
            return r;
        }
        below = below + histogram[candidate];
        candidate = candidate + 1;
    }
    proof {
        lemma_count_below_bounds(s, 256);
    }
    0
}

pub proof fn lemma_count_below_le_len(s: Seq<u8>, v: int)
    ensures
        count_below(s, v) <= s.len(),
    decreases s.len(),
{
    if s.len() > 0 {
        lemma_count_below_le_len(s.drop_last(), v);
    }
}

pub proof fn lemma_count_equal_bound(s: Seq<u8>, v: int)
    ensures
        count_equal(s, v) <= s.len(),
    decreases s.len(),
{
    if s.len() > 0 {
        lemma_count_equal_bound(s.drop_last(), v);
    }
}

// ----- Bar fill -----

/// The rows to sample a bar along: the middle half of the fill rectangle
/// (at least one row), clipped to a frame `height` rows tall; `None` when
/// the fill starts below the frame.
pub open spec fn core_rows(height: int, fill: Rect) -> Option<(int, int)> {
    if fill.y >= height {
        None
    } else {
        let quarter = (fill.h / 4) as int;
        let start = min(sat_add(fill.y as int, quarter), sat_sub(height, 1));
        let end = min(sat_add(fill.y as int, sat_sub(fill.h as int, quarter)), height);
        if end <= start {
            Some((start, min(sat_add(start, 1), height)))
        } else {
            Some((start, end))
        }
    }
}

/// The rows to sample a bar along: its central band, not its full height.
///
/// A detected fill rectangle is taller than the bar's coloured core — it
/// picks up the border and a little surrounding UI. Past the fill those
/// extra rows would outvote the groove, so only the middle half is used.
fn bar_core_rows(image: &Frame, fill: Rect) -> (r: Option<(u32, u32)>)
    ensures
        match r {
            Some((start, end)) => core_rows(image.height_spec(), fill) == Some((start as int, end as int))
                && start < end <= image.height_spec(),
            None => core_rows(image.height_spec(), fill) is None,
        },
{
    let height = image.height();
    if fill.y >= height {
        return None;
    }
    let quarter = fill.h / 4;
    let start = {
        let a = fill.y.saturating_add(quarter);
        let b = height.saturating_sub(1);
        if a <= b { a } else { b }
    };
    let end = {
        let a = fill.y.saturating_add(fill.h.saturating_sub(quarter));
        if a <= height { a } else { height }
    };
    if end <= start {
        let one_more = start.saturating_add(1);
        return Some((start, if one_more <= height { one_more } else { height }));
    }
    Some((start, end))
}

pub open spec fn abs(v: int) -> int {
    if v < 0 { -v } else { v }
}

/// Is each colour channel of `p` within `tolerance` of `reference`?
pub open spec fn similar_color(p: Seq<u8>, reference: [u8; 3], tolerance: int) -> bool {
    &&& abs(p[0] - reference[0]) <= tolerance
    &&& abs(p[1] - reference[1]) <= tolerance
    &&& abs(p[2] - reference[2]) <= tolerance
}

/// Per-channel tolerance when matching pixels against the sampled groove.
pub const GROOVE_TOLERANCE: i32 = 38;

/// Is each colour channel of `pixel` within `tolerance` of `reference`?
pub fn is_similar_color(pixel: &Pixel, reference: [u8; 3], tolerance: i32) -> (r: bool)
    ensures
        r == similar_color(pixel@, reference, tolerance as int),
{
    let mut channel: usize = 0;
    while channel < 3
        invariant
            0 <= channel <= 3,
            forall|c: int| 0 <= c < channel ==> abs(pixel@[c] - reference[c]) <= tolerance,
        decreases 3 - channel,
    {
        let d = pixel[channel] as i32 - reference[channel] as i32;
        let distance = if d < 0 { -d } else { d };
        if distance > tolerance {
            return false;
        }
        channel = channel + 1;
    }
    true
}

/// Channel `c` of each sample.
pub open spec fn channel(samples: Seq<[u8; 3]>, c: int) -> Seq<u8> {
    Seq::new(samples.len(), |i: int| samples[i][c])
}

/// The colour samples of a pixel.
pub open spec fn rgb(p: Seq<u8>) -> [u8; 3] {
    [p[0], p[1], p[2]]
}

/// The per-channel medians of `samples`.
pub open spec fn median_color(samples: Seq<[u8; 3]>) -> [u8; 3] {
    [median(channel(samples, 0)), median(channel(samples, 1)), median(channel(samples, 2))]
}

/// The colours of the pixels in row `y` from `x0`, `n` of them.
pub open spec fn row_colors(image: Frame, y: int, x0: int, n: int) -> Seq<[u8; 3]> {
    Seq::new(n as nat, |i: int| rgb(image.pixel(x0 + i, y)))
}

/// The colour just above the bar (three rows up, across the fill's
/// columns clipped to the frame): the per-channel median.
pub open spec fn outside_color(image: Frame, fill: Rect) -> Option<[u8; 3]> {
    if fill.y < 3 {
        None
    } else {
        let x_end = min(sat_add(fill.x as int, fill.w as int), image.width_spec());
        if fill.x >= x_end {
            None
        } else {
            Some(median_color(row_colors(image, fill.y - 3, fill.x as int, x_end - fill.x)))
        }
    }
}

/// The per-channel medians of non-empty `samples`.
fn median_color_of(samples: &Vec<[u8; 3]>) -> (r: [u8; 3])
    requires
        samples@.len() > 0,
    ensures
        r == median_color(samples@),
{
    let mut result: [u8; 3] = [0, 0, 0];
    let mut c: usize = 0;
    while c < 3
        invariant
            0 <= c <= 3,
            samples@.len() > 0,
            forall|d: int| 0 <= d < c ==> result[d] == median(channel(samples@, d)),
        decreases 3 - c,
    {
        let mut values: Vec<u8> = Vec::new();
        let mut i: usize = 0;
        while i < samples.len()
            invariant
                0 <= i <= samples@.len(),
                0 <= c < 3,
                values@ == channel(samples@, c as int).take(i as int),
            decreases samples@.len() - i,
        {
            values.push(samples[i][c]);
            proof {
                assert(values@ =~= channel(samples@, c as int).take(i + 1));
            }
            i = i + 1;
        }
        proof {
            assert(values@ =~= channel(samples@, c as int));
        }
        let m = median_of(&values);
        let ghost prior = result;
        result[c] = m;
        proof {
            assert forall|d: int| 0 <= d < c + 1 implies result[d] == median(channel(samples@, d)) by {
                if d < c {
                    assert(result[d] == prior[d]);
                }
            }
        }
        c = c + 1;
    }
    proof {
        assert(result =~= median_color(samples@));
    }
    result
}

/// Sample the colour just above the bar, which is outside its track.
fn sample_outside_color(image: &Frame, fill: Rect) -> (r: Option<[u8; 3]>)
    requires
        fill.y < image.height_spec(),
    ensures
        r == outside_color(*image, fill),
{
    if fill.y < 3 {
        return None;
    }
    let y = fill.y - 3;
    let width = image.width();
    let x_end = if fill.x.saturating_add(fill.w) <= width { fill.x.saturating_add(fill.w) } else { width };
    if fill.x >= x_end {
        return None;
    }
    let mut colors: Vec<[u8; 3]> = Vec::new();
    let mut x = fill.x;
    while x < x_end
        invariant
            fill.x <= x <= x_end,
            x_end <= width == image.width_spec(),
            y < image.height_spec(),
            frame_samples(*image).len() >= 4 * image.width_spec() * image.height_spec(),
            colors@ == row_colors(*image, y as int, fill.x as int, x - fill.x),
        decreases x_end - x,
    {
        let pixel = image.get_pixel(x, y);
        colors.push([pixel[0], pixel[1], pixel[2]]);
        proof {
            lemma_pixel_len(*image, x as int, y as int);
            assert(colors@ =~= row_colors(*image, y as int, fill.x as int, x + 1 - fill.x));
        }
        x = x + 1;
    }
    Some(median_color_of(&colors))
}

/// Samples taken from column `x`, rows `ys .. ys + n`: the colour of each
/// pixel that is opaque enough (alpha at least 128) and not judged filled.
pub open spec fn column_samples(image: Frame, x: int, ys: int, n: int, filled: spec_fn(int, int) -> bool) -> Seq<[u8; 3]>
    decreases n,
{
    if n <= 0 {
        seq![]
    } else {
        let y = ys + n - 1;
        column_samples(image, x, ys, n - 1, filled) + if image.pixel(x, y)[3] >= 128 && !filled(x, y) {
            seq![rgb(image.pixel(x, y))]
        } else {
            seq![]
        }
    }
}

/// Samples taken from the columns `x0 .. x0 + cols`, column by column.
pub open spec fn window_samples(image: Frame, x0: int, cols: int, ys: int, rows: int, filled: spec_fn(int, int) -> bool) -> Seq<[u8; 3]>
    decreases cols,
{
    if cols <= 0 {
        seq![]
    } else {
        window_samples(image, x0, cols - 1, ys, rows, filled) + column_samples(image, x0 + cols - 1, ys, rows, filled)
    }
}

/// The columns the groove is sampled from: starting two past the fill's
/// right edge, six wide, clipped to the search area and the frame.
pub open spec fn groove_window(image: Frame, fill: Rect, search: Rect) -> (int, int) {
    let search_right = min(sat_add(search.x as int, search.w as int), image.width_spec());
    let first = sat_add(sat_add(fill.x as int, fill.w as int), 2);
    let last = min(sat_add(first, 6), search_right);
    (first, sat_sub(last, first))
}

/// `filled` holds the predicate's verdict for every pixel of the groove
/// window that was asked about: those opaque enough to sample.
pub open spec fn groove_verdicts<F: Fn(&Pixel) -> bool>(predicate: F, image: Frame, fill: Rect, search: Rect, filled: spec_fn(int, int) -> bool) -> bool {
    match core_rows(image.height_spec(), fill) {
        None => true,
        Some((ys, ye)) => {
            let (x0, cols) = groove_window(image, fill, search);
            forall|x: int, y: int|
                x0 <= x < x0 + cols && ys <= y < ye && image.pixel(x, y)[3] >= 128 ==> #[trigger] pixel_verdict(
                    predicate,
                    image,
                    x,
                    y,
                    filled(x, y),
                )
        },
    }
}

/// The groove colour learned from the columns just past the fill: the
/// per-channel median of the samples, unless there are none, or the
/// median matches the colour just above the bar (then what lies past the
/// fill is the world outside the bar, not a groove). Where no colour above
/// the bar can be sampled, the median is taken as the groove.
pub open spec fn groove_color(image: Frame, fill: Rect, search: Rect, filled: spec_fn(int, int) -> bool) -> Option<[u8; 3]> {
    match core_rows(image.height_spec(), fill) {
        None => None,
        Some((ys, ye)) => {
            let (x0, cols) = groove_window(image, fill, search);
            let samples = window_samples(image, x0, cols, ys, ye - ys, filled);
            if samples.len() == 0 {
                None
            } else {
                let candidate = median_color(samples);
                match outside_color(image, fill) {
                    Some(outside) => if similar_color(seq![candidate[0], candidate[1], candidate[2], 255u8], outside, 38) {
                        None
                    } else {
                        Some(candidate)
                    },
                    None => Some(candidate),
                }
            }
        },
    }
}

/// Learn the groove colour from the columns immediately after the fill.
fn sample_groove_color<F: Fn(&Pixel) -> bool>(image: &Frame, fill: Rect, search: Rect, is_filled: &F) -> (r: (Option<[u8; 3]>, Ghost<spec_fn(int, int) -> bool>))
    requires
        accepts_all(*is_filled),
    ensures
        groove_verdicts(*is_filled, *image, fill, search, r.1@),
        r.0 == groove_color(*image, fill, search, r.1@),
{
    let ghost mut filled: spec_fn(int, int) -> bool = |x: int, y: int| false;
    let (y_start, y_end) = match bar_core_rows(image, fill) {
        Some(rows) => rows,
        None => {
            return (None, Ghost(filled));
        },
    };
    let width = image.width();
    let search_right = if search.x.saturating_add(search.w) <= width { search.x.saturating_add(search.w) } else { width };
    let first = fill.x.saturating_add(fill.w).saturating_add(2);
    let last = if first.saturating_add(6) <= search_right { first.saturating_add(6) } else { search_right };
    let ghost cols = sat_sub(last as int, first as int);
    let mut samples: Vec<[u8; 3]> = Vec::new();
    let mut x = first;
    while x < last
        invariant
            first <= x,
            x == first || x <= last,
            last <= search_right <= width == image.width_spec(),
            y_start < y_end <= image.height_spec(),
            core_rows(image.height_spec(), fill) == Some((y_start as int, y_end as int)),
            groove_window(*image, fill, search) == (first as int, cols),
            frame_samples(*image).len() >= 4 * image.width_spec() * image.height_spec(),
            accepts_all(*is_filled),
            samples@ == window_samples(*image, first as int, x - first, y_start as int, y_end - y_start, filled),
            forall|px: int, py: int|
                first <= px < x && y_start <= py < y_end && image.pixel(px, py)[3] >= 128 ==> #[trigger] pixel_verdict(
                    *is_filled,
                    *image,
                    px,
                    py,
                    filled(px, py),
                ),
        decreases last - x,
    {
        let ghost column_start = samples@;
        let ghost before = filled;
        let mut y = y_start;
        while y < y_end
            invariant
                y_start <= y <= y_end,
                first <= x < last,
                last <= width == image.width_spec(),
                y_end <= image.height_spec(),
                frame_samples(*image).len() >= 4 * image.width_spec() * image.height_spec(),
                accepts_all(*is_filled),
                forall|px: int, py: int| px != x ==> #[trigger] filled(px, py) == before(px, py),
                column_start == window_samples(*image, first as int, x - first, y_start as int, y_end - y_start, before),
                samples@ == column_start + column_samples(*image, x as int, y_start as int, y - y_start, filled),
                forall|px: int, py: int|
                    first <= px < x && y_start <= py < y_end && image.pixel(px, py)[3] >= 128 ==> #[trigger] pixel_verdict(
                        *is_filled,
                        *image,
                        px,
                        py,
                        filled(px, py),
                    ),
                forall|py: int|
                    y_start <= py < y && image.pixel(x as int, py)[3] >= 128 ==> #[trigger] pixel_verdict(
                        *is_filled,
                        *image,
                        x as int,
                        py,
                        filled(x as int, py),
                    ),
            decreases y_end - y,
        {
            let pixel = image.get_pixel(x, y);
            proof {
                lemma_pixel_len(*image, x as int, y as int);
            }
            if pixel[3] >= 128 {
                let verdict = is_filled(&pixel);
                let ghost prior = filled;
                proof {
                    filled = |px: int, py: int| if px == x && py == y { verdict } else { prior(px, py) };
                    assert(pixel_verdict(*is_filled, *image, x as int, y as int, verdict)) by {
                        assert forall|p: Pixel| p@ == image.pixel(x as int, y as int) implies #[trigger] is_filled.ensures((&p,), verdict) by {
                            assert(p =~= pixel);
                        }
                    }
                    assert(column_samples(*image, x as int, y_start as int, y - y_start, filled)
                        == column_samples(*image, x as int, y_start as int, y - y_start, prior)) by {
                        lemma_column_samples_agree(*image, x as int, y_start as int, y - y_start, filled, prior);
                    }
                }
                if !verdict {
                    samples.push([pixel[0], pixel[1], pixel[2]]);
                }
            }
            proof {
                assert(samples@ =~= column_start + column_samples(*image, x as int, y_start as int, y + 1 - y_start, filled));
            }
            y = y + 1;
        }
        proof {
            lemma_window_samples_agree(*image, first as int, x - first, y_start as int, y_end - y_start, filled, before);
            assert(samples@ =~= window_samples(*image, first as int, x + 1 - first, y_start as int, y_end - y_start, filled));
        }
        x = x + 1;
    }
    if samples.len() == 0 {
        return (None, Ghost(filled));
    }
    let candidate = median_color_of(&samples);
    let outside = sample_outside_color(image, fill);
    match outside {
        Some(out) => {
            if is_similar_color(&[candidate[0], candidate[1], candidate[2], 255], out, GROOVE_TOLERANCE) {
                return (None, Ghost(filled));
            }
        },
        None => {},
    }
    (Some(candidate), Ghost(filled))
}

/// Column samples depend on the verdicts only at that column's rows.
pub proof fn lemma_column_samples_agree(image: Frame, x: int, ys: int, n: int, f: spec_fn(int, int) -> bool, g: spec_fn(int, int) -> bool)
    requires
        forall|y: int| ys <= y < ys + n ==> #[trigger] f(x, y) == g(x, y),
    ensures
        column_samples(image, x, ys, n, f) == column_samples(image, x, ys, n, g),
    decreases n,
{
    if n > 0 {
        lemma_column_samples_agree(image, x, ys, n - 1, f, g);
        assert(f(x, ys + n - 1) == g(x, ys + n - 1));
    }
}

/// Window samples depend on the verdicts only inside the window.
pub proof fn lemma_window_samples_agree(image: Frame, x0: int, cols: int, ys: int, rows: int, f: spec_fn(int, int) -> bool, g: spec_fn(int, int) -> bool)
    requires
        forall|x: int, y: int| x0 <= x < x0 + cols ==> #[trigger] f(x, y) == g(x, y),
    ensures
        window_samples(image, x0, cols, ys, rows, f) == window_samples(image, x0, cols, ys, rows, g),
    decreases cols,
{
    if cols > 0 {
        lemma_window_samples_agree(image, x0, cols - 1, ys, rows, f, g);
        assert forall|y: int| ys <= y < ys + rows implies #[trigger] f(x0 + cols - 1, y) == g(x0 + cols - 1, y) by {
        }
        lemma_column_samples_agree(image, x0 + cols - 1, ys, rows, f, g);
    }
}

/// What a column of a bar is, by majority vote over the sampled rows.
#[derive(Debug, Clone, Copy, PartialEq, Eq, Structural)]
pub enum ColumnKind {
    Filled,
    Empty,
    Neither,
}

/// How many of the first `n` rows' verdicts are "filled".
pub open spec fn filled_votes(verdicts: Seq<bool>, n: int) -> nat
    decreases n,
{
    if n <= 0 {
        0
    } else {
        filled_votes(verdicts, n - 1) + if verdicts[n - 1] { 1nat } else { 0nat }
    }
}

/// How many of the first `n` rows of column `x` from row `ys` are not
/// filled but match the groove colour.
pub open spec fn empty_votes(image: Frame, x: int, ys: int, verdicts: Seq<bool>, groove: Option<[u8; 3]>, n: int) -> nat
    decreases n,
{
    if n <= 0 {
        0
    } else {
        empty_votes(image, x, ys, verdicts, groove, n - 1) + if !verdicts[n - 1] && match groove {
            Some(reference) => similar_color(image.pixel(x, ys + n - 1), reference, 38),
            None => false,
        } {
            1nat
        } else {
            0nat
        }
    }
}

/// The kind of column `x`, given the fill verdicts of its core rows
/// `ys .. ye`: a column outside the frame is neither; otherwise a strict
/// majority of filled rows makes it filled, else a strict majority of
/// groove-coloured rows makes it empty.
pub open spec fn column_kind(image: Frame, x: int, ys: int, ye: int, groove: Option<[u8; 3]>, verdicts: Seq<bool>) -> ColumnKind {
    if x >= image.width_spec() {
        ColumnKind::Neither
    } else {
        let rows = ye - ys;
        if 2 * filled_votes(verdicts, rows) > rows {
            ColumnKind::Filled
        } else if 2 * empty_votes(image, x, ys, verdicts, groove, rows) > rows {
            ColumnKind::Empty
        } else {
            ColumnKind::Neither
        }
    }
}

/// `verdicts` are the predicate's answers for column `x`, rows `ys .. ye`
/// (nothing is asked of a column outside the frame).
pub open spec fn column_verdicts<F: Fn(&Pixel) -> bool>(predicate: F, image: Frame, x: int, ys: int, ye: int, verdicts: Seq<bool>) -> bool {
    x >= image.width_spec() || (verdicts.len() == ye - ys && forall|r: int|
        0 <= r < verdicts.len() ==> pixel_verdict(predicate, image, x, ys + r, #[trigger] verdicts[r]))
}

/// Classify one column by majority vote across the bar's core rows.
fn classify_column<F: Fn(&Pixel) -> bool>(image: &Frame, x: u32, ys: u32, ye: u32, groove: Option<[u8; 3]>, is_filled: &F) -> (r: (ColumnKind, Ghost<Seq<bool>>))
    requires
        accepts_all(*is_filled),
        ys < ye <= image.height_spec(),
    ensures
        column_verdicts(*is_filled, *image, x as int, ys as int, ye as int, r.1@),
        r.0 == column_kind(*image, x as int, ys as int, ye as int, groove, r.1@),
{
    let width = image.width();
    let ghost mut verdicts: Seq<bool> = seq![];
    if x >= width {
        return (ColumnKind::Neither, Ghost(verdicts));
    }
    let mut filled: u64 = 0;
    let mut empty: u64 = 0;
    let mut y = ys;
    while y < ye
        invariant
            ys <= y <= ye,
            ye <= image.height_spec(),
            x < width == image.width_spec(),
            frame_samples(*image).len() >= 4 * image.width_spec() * image.height_spec(),
            accepts_all(*is_filled),
            verdicts.len() == y - ys,
            forall|r: int| 0 <= r < verdicts.len() ==> pixel_verdict(*is_filled, *image, x as int, ys + r, #[trigger] verdicts[r]),
            filled == filled_votes(verdicts, y - ys),
            empty == empty_votes(*image, x as int, ys as int, verdicts, groove, y - ys),
            filled <= y - ys,
            empty <= y - ys,
        decreases ye - y,
    {
        let pixel = image.get_pixel(x, y);
        proof {
            lemma_pixel_len(*image, x as int, y as int);
        }
        let verdict = is_filled(&pixel);
        let ghost prior = verdicts;
        proof {
            verdicts = verdicts.push(verdict);
            assert(pixel_verdict(*is_filled, *image, x as int, y as int, verdict)) by {
                assert forall|p: Pixel| p@ == image.pixel(x as int, y as int) implies #[trigger] is_filled.ensures((&p,), verdict) by {
                    assert(p =~= pixel);
                }
            }
            assert forall|r: int| 0 <= r < verdicts.len() implies pixel_verdict(*is_filled, *image, x as int, ys + r, #[trigger] verdicts[r]) by {
                if r < prior.len() {
                    assert(verdicts[r] == prior[r]);
                }
            }
            lemma_votes_prefix(*image, x as int, ys as int, prior, verdicts, groove, y - ys);
        }
        if verdict {
            filled = filled + 1;
        } else {
            match groove {
                Some(reference) => {
                    if is_similar_color(&pixel, reference, GROOVE_TOLERANCE) {
                        empty = empty + 1;
                    }
                },
                None => {},
            }
        }
        y = y + 1;
    }
    let rows = (ye - ys) as u64;
    let kind = if filled * 2 > rows {
        ColumnKind::Filled
    } else if empty * 2 > rows {
        ColumnKind::Empty
    } else {
        ColumnKind::Neither
    };
    (kind, Ghost(verdicts))
}

/// Votes over a prefix do not change when more verdicts are appended.
pub proof fn lemma_votes_prefix(image: Frame, x: int, ys: int, a: Seq<bool>, b: Seq<bool>, groove: Option<[u8; 3]>, n: int)
    requires
        0 <= n <= a.len() <= b.len(),
        forall|i: int| 0 <= i < a.len() ==> a[i] == b[i],
    ensures
        filled_votes(a, n) == filled_votes(b, n),
        empty_votes(image, x, ys, a, groove, n) == empty_votes(image, x, ys, b, groove, n),
    decreases n,
{
    if n > 0 {
        lemma_votes_prefix(image, x, ys, a, b, groove, n - 1);
    }
}

/// State of a walk along a bar: columns counted as filled, columns counted
/// as track, ambiguous columns held back, and whether the walk has left the
/// bar.
pub type WalkState = (int, int, int, bool);

/// How many consecutive ambiguous columns may sit inside a bar's track
/// before the walk concludes it has left the bar.
pub const BOUNDARY_TOLERANCE: u64 = 3;

/// One step of a walk: a filled column counts (with the ambiguous ones
/// held back before it) as filled track, an empty one as track, and an
/// ambiguous one is held back; more than three in a row end the walk.
pub open spec fn walk_step(state: WalkState, kind: ColumnKind) -> WalkState {
    let (filled, track, pending, done) = state;
    match kind {
        ColumnKind::Filled => (filled + 1 + pending, track + 1 + pending, 0, false),
        ColumnKind::Empty => (filled, track + 1 + pending, 0, false),
        ColumnKind::Neither => if pending + 1 > 3 {
            (filled, track, pending + 1, true)
        } else {
            (filled, track, pending + 1, false)
        },
    }
}

/// A walk over `kinds` in order, starting from counts `(filled, track)`;
/// columns after the walk has ended are not looked at.
pub open spec fn walk(kinds: Seq<ColumnKind>, filled: int, track: int) -> WalkState
    decreases kinds.len(),
{
    if kinds.len() == 0 {
        (filled, track, 0, false)
    } else {
        let before = walk(kinds.drop_last(), filled, track);
        if before.3 {
            before
        } else {
            walk_step(before, kinds.last())
        }
    }
}

/// Once a walk has ended, further columns change nothing.
pub proof fn lemma_walk_ended(a: Seq<ColumnKind>, b: Seq<ColumnKind>, filled: int, track: int)
    requires
        a.len() <= b.len(),
        forall|i: int| 0 <= i < a.len() ==> a[i] == b[i],
        walk(a, filled, track).3,
    ensures
        walk(b, filled, track) == walk(a, filled, track),
    decreases b.len(),
{
    if b.len() > a.len() {
        lemma_walk_ended(a, b.drop_last(), filled, track);
    } else {
        assert(a =~= b);
    }
}

/// The kinds of the columns a walk leftwards from the fill meets: from the
/// fill's first column down to the search area's left edge (down to column
/// 0 when the search area starts right of the fill), given each column's
/// verdicts.
pub open spec fn left_kinds(image: Frame, fill: Rect, search: Rect, ys: int, ye: int, groove: Option<[u8; 3]>, verdicts: Seq<Seq<bool>>) -> Seq<ColumnKind> {
    let low = if search.x <= fill.x { search.x as int } else { 0 };
    Seq::new((fill.x - low + 1) as nat, |i: int| column_kind(image, fill.x - i, ys, ye, groove, verdicts[i]))
}

/// The right edge of the search area, clipped to the frame.
pub open spec fn search_right_edge(image: Frame, search: Rect) -> int {
    min(sat_add(search.x as int, search.w as int), image.width_spec())
}

/// The kinds of the columns a walk rightwards from just past the fill's
/// first column meets, up to the search area's right edge.
pub open spec fn right_kinds(image: Frame, fill: Rect, search: Rect, ys: int, ye: int, groove: Option<[u8; 3]>, verdicts: Seq<Seq<bool>>) -> Seq<ColumnKind> {
    let start = sat_add(fill.x as int, 1);
    Seq::new(sat_sub(search_right_edge(image, search), start) as nat, |i: int| column_kind(image, start + i, ys, ye, groove, verdicts[i]))
}

/// How many columns a walk looked at: all of them, or up to the one that
/// ended it.
pub open spec fn walked(kinds: Seq<ColumnKind>, filled: int, track: int, n: int) -> bool {
    &&& 0 <= n <= kinds.len()
    &&& (n == kinds.len() || walk(kinds.take(n), filled, track).3)
    &&& forall|m: int| 0 <= m < n ==> !(#[trigger] walk(kinds.take(m), filled, track)).3
}

/// Every column the leftward walk reached (those before it ended) has
/// `left[i]` as its verdicts.
pub open spec fn left_verdicts<F: Fn(&Pixel) -> bool>(predicate: F, image: Frame, fill: Rect, search: Rect, ys: int, ye: int, groove: Option<[u8; 3]>, left: Seq<Seq<bool>>) -> bool {
    let kinds = left_kinds(image, fill, search, ys, ye, groove, left);
    forall|i: int|
        0 <= i < kinds.len() && !(#[trigger] walk(kinds.take(i), 0, 0)).3 ==> column_verdicts(predicate, image, fill.x - i, ys, ye, left[i])
}

/// Every column the rightward walk reached has `right[i]` as its verdicts.
pub open spec fn right_verdicts<F: Fn(&Pixel) -> bool>(predicate: F, image: Frame, fill: Rect, search: Rect, ys: int, ye: int, groove: Option<[u8; 3]>, right: Seq<Seq<bool>>, filled: int, track: int) -> bool {
    let kinds = right_kinds(image, fill, search, ys, ye, groove, right);
    forall|i: int|
        0 <= i < kinds.len() && !(#[trigger] walk(kinds.take(i), filled, track)).3 ==> column_verdicts(predicate, image, sat_add(fill.x as int, 1) + i, ys, ye, right[i])
}

/// The predicate's verdicts behind a bar measurement: `groove` for the
/// groove sample window, `left` and `right` for the columns each walk
/// reached.
pub open spec fn bar_verdicts<F: Fn(&Pixel) -> bool>(predicate: F, image: Frame, fill: Rect, search: Rect, groove: spec_fn(int, int) -> bool, left: Seq<Seq<bool>>, right: Seq<Seq<bool>>) -> bool {
    &&& groove_verdicts(predicate, image, fill, search, groove)
    &&& (fill.w == 0 || fill.h == 0 || match core_rows(image.height_spec(), fill) {
        None => true,
        Some((ys, ye)) => {
            let color = groove_color(image, fill, search, groove);
            let after_left = walk(left_kinds(image, fill, search, ys, ye, color, left), 0, 0);
            &&& left_verdicts(predicate, image, fill, search, ys, ye, color, left)
            &&& right_verdicts(predicate, image, fill, search, ys, ye, color, right, after_left.0, after_left.1)
        },
    })
}

/// The measurement of a bar, as `(filled columns, track columns)`: walk
/// left from the fill's first column, then right from the next one,
/// counting filled and track columns; `None` for an empty fill rectangle,
/// a fill below the frame, or when no track column was found.
pub open spec fn bar_fill(image: Frame, fill: Rect, search: Rect, groove: spec_fn(int, int) -> bool, left: Seq<Seq<bool>>, right: Seq<Seq<bool>>) -> Option<(int, int)> {
    if fill.w == 0 || fill.h == 0 {
        None
    } else {
        match core_rows(image.height_spec(), fill) {
            None => None,
            Some((ys, ye)) => {
                let color = groove_color(image, fill, search, groove);
                let after_left = walk(left_kinds(image, fill, search, ys, ye, color, left), 0, 0);
                let after_right = walk(right_kinds(image, fill, search, ys, ye, color, right), after_left.0, after_left.1);
                if after_right.1 == 0 {
                    None
                } else {
                    Some((after_right.0, after_right.1))
                }
            },
        }
    }
}

/// How full a bar is, in columns of its own track.
#[derive(Debug, Clone, Copy, PartialEq, Eq, Structural)]
pub struct BarFill {
    /// Track columns judged filled.
    pub filled_columns: u64,
    /// Columns of the bar's track found by walking out from the fill.
    pub track_columns: u64,
}

/// A walk that reached columns `0 .. seen.len()` and stopped there (at the
/// end, or because it ended) is the walk over the whole column sequence.
pub proof fn lemma_walk_full(seen: Seq<ColumnKind>, kinds: Seq<ColumnKind>, filled: int, track: int)
    requires
        seen.len() <= kinds.len(),
        forall|j: int| 0 <= j < seen.len() ==> seen[j] == kinds[j],
        seen.len() == kinds.len() || walk(seen, filled, track).3,
    ensures
        walk(kinds, filled, track) == walk(seen, filled, track),
        forall|i: int| 0 <= i < kinds.len() && !(#[trigger] walk(kinds.take(i), filled, track)).3 ==> i < seen.len(),
{
    if seen.len() == kinds.len() {
        assert(seen =~= kinds);
    } else {
        lemma_walk_ended(seen, kinds, filled, track);
    }
    assert forall|i: int| 0 <= i < kinds.len() && !(#[trigger] walk(kinds.take(i), filled, track)).3 implies i < seen.len() by {
        if i == seen.len() {
            assert(kinds.take(i) =~= seen);
        } else if i > seen.len() {
            assert(seen.len() < kinds.len());
            assert forall|j: int| 0 <= j < seen.len() implies seen[j] == kinds.take(i)[j] by {}
            lemma_walk_ended(seen, kinds.take(i), filled, track);
        }
    }
}

/// Extending a walk that has not ended by one column is one walk step.
pub proof fn lemma_walk_push(seen: Seq<ColumnKind>, kind: ColumnKind, filled: int, track: int)
    requires
        !walk(seen, filled, track).3,
    ensures
        walk(seen.push(kind), filled, track) == walk_step(walk(seen, filled, track), kind),
{
    assert(seen.push(kind).drop_last() =~= seen);
}

/// How full a horizontal bar is, measured against its own track.
///
/// Walks outward from the filled span along the bar's core rows and
/// classifies each column as filled (the bar colour), empty (the groove
/// colour learned from the pixels just past the fill) or neither, stopping
/// after more than three consecutive ambiguous columns. Ambiguous columns
/// are counted only once real track is found beyond them. Returns `None`
/// when no track can be established. The percentage is
/// `filled_columns / track_columns`.
pub fn measure_bar_fill<F: Fn(&Pixel) -> bool>(image: &Frame, fill: Rect, search: Rect, is_filled: F) -> (r: Option<BarFill>)
    requires
        accepts_all(is_filled),
    ensures
        exists|groove: spec_fn(int, int) -> bool, left: Seq<Seq<bool>>, right: Seq<Seq<bool>>|
            #[trigger] bar_verdicts(is_filled, *image, fill, search, groove, left, right) && match r {
                Some(b) => bar_fill(*image, fill, search, groove, left, right) == Some((b.filled_columns as int, b.track_columns as int)),
                None => bar_fill(*image, fill, search, groove, left, right) is None,
            },
{
    let (groove, Ghost(groove_filled)) = sample_groove_color(image, fill, search, &is_filled);
    let ghost mut left: Seq<Seq<bool>> = seq![];
    let ghost mut right: Seq<Seq<bool>> = seq![];
    if fill.w == 0 || fill.h == 0 {
        assert(bar_verdicts(is_filled, *image, fill, search, groove_filled, left, right));
        return None;
    }
    let (y_start, y_end) = match bar_core_rows(image, fill) {
        Some(rows) => rows,
        None => {
            assert(bar_verdicts(is_filled, *image, fill, search, groove_filled, left, right));
            return None;
        },
    };
    let width = image.width();
    let search_left = search.x;
    let search_right = if search.x.saturating_add(search.w) <= width { search.x.saturating_add(search.w) } else { width };

    let mut filled_columns: u64 = 0;
    let mut track_columns: u64 = 0;

    // Walk left from the fill's first column.
    let low = if search_left <= fill.x { search_left } else { 0 };
    let n_left: u64 = (fill.x - low) as u64 + 1;
    let ghost mut seen: Seq<ColumnKind> = seq![];
    let mut pending: u64 = 0;
    let mut done = false;
    let mut i: u64 = 0;
    while i < n_left && !done
        invariant
            0 <= i <= n_left,
            n_left == fill.x - low + 1,
            low == if search.x <= fill.x { search.x as int } else { 0 },
            y_start < y_end <= image.height_spec(),
            accepts_all(is_filled),
            left.len() == i,
            seen.len() == i,
            forall|j: int| 0 <= j < i ==> #[trigger] seen[j] == column_kind(*image, fill.x - j, y_start as int, y_end as int, groove, left[j]),
            forall|j: int| 0 <= j < i ==> column_verdicts(is_filled, *image, fill.x - j, y_start as int, y_end as int, #[trigger] left[j]),
            walk(seen, 0, 0) == (filled_columns as int, track_columns as int, pending as int, done),
            forall|m: int| 0 <= m < i ==> !(#[trigger] walk(seen.take(m), 0, 0)).3,
            filled_columns <= track_columns,
            track_columns + pending <= i,
            pending <= 4,
        decreases n_left - i,
    {
        let x = fill.x - i as u32;
        let (kind, Ghost(verdicts)) = classify_column(image, x, y_start, y_end, groove, &is_filled);
        proof {
            assert(seen.take(i as int) =~= seen);
            lemma_walk_push(seen, kind, 0, 0);
            let prior_seen = seen;
            let prior_left = left;
            seen = seen.push(kind);
            left = left.push(verdicts);
            assert forall|m: int| 0 <= m < i + 1 implies !(#[trigger] walk(seen.take(m), 0, 0)).3 by {
                if m < i {
                    assert(seen.take(m) =~= prior_seen.take(m));
                } else {
                    assert(seen.take(m) =~= prior_seen);
                }
            }
            assert forall|j: int| 0 <= j < i + 1 implies #[trigger] seen[j] == column_kind(*image, fill.x - j, y_start as int, y_end as int, groove, left[j]) by {
                if j < i {
                    assert(seen[j] == prior_seen[j]);
                    assert(left[j] == prior_left[j]);
                }
            }
            assert forall|j: int| 0 <= j < i + 1 implies column_verdicts(is_filled, *image, fill.x - j, y_start as int, y_end as int, #[trigger] left[j]) by {
                if j < i {
                    assert(left[j] == prior_left[j]);
                }
            }
        }
        match kind {
            ColumnKind::Filled => {
                filled_columns = filled_columns + 1 + pending;
                track_columns = track_columns + 1 + pending;
                pending = 0;
            },
            ColumnKind::Empty => {
                track_columns = track_columns + 1 + pending;
                pending = 0;
            },
            ColumnKind::Neither => {
                pending = pending + 1;
                if pending > BOUNDARY_TOLERANCE {
                    done = true;
                }
            },
        }
        i = i + 1;
    }
    let ghost after_left = (filled_columns as int, track_columns as int);
    proof {
        let kinds = left_kinds(*image, fill, search, y_start as int, y_end as int, groove, left);
        lemma_walk_full(seen, kinds, 0, 0);
        assert(left_verdicts(is_filled, *image, fill, search, y_start as int, y_end as int, groove, left));
    }

    // Walk right from just past the fill's first column.
    let start = fill.x.saturating_add(1);
    let n_right: u64 = if start < search_right { (search_right - start) as u64 } else { 0 };
    let ghost mut seen_right: Seq<ColumnKind> = seq![];
    let ghost left_total = i;
    pending = 0;
    done = false;
    let mut k: u64 = 0;
    while k < n_right && !done
        invariant
            0 <= k <= n_right,
            n_right == sat_sub(search_right as int, start as int),
            search_right == search_right_edge(*image, search),
            start == sat_add(fill.x as int, 1),
            y_start < y_end <= image.height_spec(),
            accepts_all(is_filled),
            right.len() == k,
            seen_right.len() == k,
            forall|j: int| 0 <= j < k ==> #[trigger] seen_right[j] == column_kind(*image, start + j, y_start as int, y_end as int, groove, right[j]),
            forall|j: int| 0 <= j < k ==> column_verdicts(is_filled, *image, start + j, y_start as int, y_end as int, #[trigger] right[j]),
            walk(seen_right, after_left.0, after_left.1) == (filled_columns as int, track_columns as int, pending as int, done),
            forall|m: int| 0 <= m < k ==> !(#[trigger] walk(seen_right.take(m), after_left.0, after_left.1)).3,
            filled_columns <= track_columns,
            track_columns + pending <= left_total + k,
            left_total <= u32::MAX as int + 1,
            pending <= 4,
        decreases n_right - k,
    {
        let x = start + k as u32;
        let (kind, Ghost(verdicts)) = classify_column(image, x, y_start, y_end, groove, &is_filled);
        proof {
            assert(seen_right.take(k as int) =~= seen_right);
            lemma_walk_push(seen_right, kind, after_left.0, after_left.1);
            let prior_seen = seen_right;
            let prior_right = right;
            seen_right = seen_right.push(kind);
            right = right.push(verdicts);
            assert forall|m: int| 0 <= m < k + 1 implies !(#[trigger] walk(seen_right.take(m), after_left.0, after_left.1)).3 by {
                if m < k {
                    assert(seen_right.take(m) =~= prior_seen.take(m));
                } else {
                    assert(seen_right.take(m) =~= prior_seen);
                }
            }
            assert forall|j: int| 0 <= j < k + 1 implies #[trigger] seen_right[j] == column_kind(*image, start + j, y_start as int, y_end as int, groove, right[j]) by {
                if j < k {
                    assert(seen_right[j] == prior_seen[j]);
                    assert(right[j] == prior_right[j]);
                }
            }
            assert forall|j: int| 0 <= j < k + 1 implies column_verdicts(is_filled, *image, start + j, y_start as int, y_end as int, #[trigger] right[j]) by {
                if j < k {
                    assert(right[j] == prior_right[j]);
                }
            }
        }
        match kind {
            ColumnKind::Filled => {
                filled_columns = filled_columns + 1 + pending;
                track_columns = track_columns + 1 + pending;
                pending = 0;
            },
            ColumnKind::Empty => {
                track_columns = track_columns + 1 + pending;
                pending = 0;
            },
            ColumnKind::Neither => {
                pending = pending + 1;
                if pending > BOUNDARY_TOLERANCE {
                    done = true;
                }
            },
        }
        k = k + 1;
    }
    proof {
        let kinds = right_kinds(*image, fill, search, y_start as int, y_end as int, groove, right);
        lemma_walk_full(seen_right, kinds, after_left.0, after_left.1);
        assert(right_verdicts(is_filled, *image, fill, search, y_start as int, y_end as int, groove, right, after_left.0, after_left.1));
        assert(bar_verdicts(is_filled, *image, fill, search, groove_filled, left, right));
    }
    if track_columns == 0 {
        return None;
    }
    Some(BarFill { filled_columns, track_columns })
}

// ----- Text blocks -----

/// Fewer text pixels than this in a region is noise, not a line of text.
pub const MIN_TEXT_PIXELS: u64 = 6;

/// Padding added around a located text block, so glyph edges are not
/// clipped by the returned rectangle.
pub const TEXT_BLOCK_PADDING: u32 = 2;

/// Is `(x, y)` a text pixel by the verdicts `masks` (row `k` of the masks
/// is frame row `y0 + k`, entry `i` of a row is column `x0 + i`)?
pub open spec fn marked(masks: Seq<Seq<bool>>, x0: int, y0: int, x: int, y: int) -> bool {
    0 <= y - y0 < masks.len() && 0 <= x - x0 < masks[y - y0].len() && masks[y - y0][x - x0]
}

/// How many entries of `row` are set.
pub open spec fn count_marks(row: Seq<bool>) -> nat
    decreases row.len(),
{
    if row.len() == 0 {
        0
    } else {
        count_marks(row.drop_last()) + if row.last() { 1nat } else { 0nat }
    }
}

/// How many entries of all rows of `masks` are set.
pub open spec fn count_all_marks(masks: Seq<Seq<bool>>) -> nat
    decreases masks.len(),
{
    if masks.len() == 0 {
        0
    } else {
        count_all_marks(masks.drop_last()) + count_marks(masks.last())
    }
}

/// `(min_x, max_x, min_y, max_y)` is the bounding box of the marked pixels:
/// it holds them all, and each of its edges touches one.
pub open spec fn bounding_box(masks: Seq<Seq<bool>>, x0: int, y0: int, b: (int, int, int, int)) -> bool {
    &&& forall|x: int, y: int| #[trigger] marked(masks, x0, y0, x, y) ==> b.0 <= x <= b.1 && b.2 <= y <= b.3
    &&& exists|y: int| #[trigger] marked(masks, x0, y0, b.0, y)
    &&& exists|y: int| #[trigger] marked(masks, x0, y0, b.1, y)
    &&& exists|x: int| #[trigger] marked(masks, x0, y0, x, b.2)
    &&& exists|x: int| #[trigger] marked(masks, x0, y0, x, b.3)
}

/// The bounding box `b`, padded by two pixels on every side (clamped at
/// the frame's top-left corner and at `u32::MAX`).
pub open spec fn padded(b: (int, int, int, int)) -> Rect {
    Rect {
        x: sat_sub(b.0, 2) as u32,
        y: sat_sub(b.2, 2) as u32,
        w: sat_add(sat_add(sat_sub(b.1, b.0), 1), 4) as u32,
        h: sat_add(sat_add(sat_sub(b.3, b.2), 1), 4) as u32,
    }
}

/// `masks` are the predicate's verdicts for every pixel of `region`
/// clipped to the frame, row by row.
pub open spec fn block_verdicts<F: Fn(&Pixel) -> bool>(predicate: F, image: Frame, region: Rect, masks: Seq<Seq<bool>>) -> bool {
    &&& masks.len() == row_count(image, region)
    &&& forall|k: int|
        0 <= k < masks.len() ==> (#[trigger] masks[k]).len() == clipped_cols(image, region) && row_verdicts(
            predicate,
            image,
            region.y + k,
            region.x as int,
            masks[k],
        )
}

/// The text block the verdicts describe: the padded bounding box of the
/// text pixels, when there are at least six of them.
pub open spec fn text_block_of(masks: Seq<Seq<bool>>, region: Rect, r: Option<Rect>) -> bool {
    &&& (r is Some <==> count_all_marks(masks) >= 6)
    &&& (r matches Some(rect) ==> exists|b: (int, int, int, int)| #[trigger] bounding_box(masks, region.x as int, region.y as int, b) && rect == padded(b))
}

/// Has a row-major scan that finished `k` rows and `i` columns of the next
/// one passed pixel `(x, y)`?
pub open spec fn scanned_before(x0: int, y0: int, k: int, i: int, x: int, y: int) -> bool {
    y - y0 < k || (y - y0 == k && x - x0 < i)
}

/// The state of a text scan: every marked pixel passed so far lies in the
/// box, and each edge of the box touches one passed so far; `None` when
/// none has been passed.
pub open spec fn box_so_far(masks: Seq<Seq<bool>>, x0: int, y0: int, bounds: Option<(u32, u32, u32, u32)>, k: int, i: int) -> bool {
    match bounds {
        None => forall|x: int, y: int| #[trigger] marked(masks, x0, y0, x, y) ==> !scanned_before(x0, y0, k, i, x, y),
        Some(b) => box_holds(masks, x0, y0, b, k, i),
    }
}

/// Every marked pixel passed so far lies in the box `b`, and each edge of
/// `b` touches one passed so far.
pub open spec fn box_holds(masks: Seq<Seq<bool>>, x0: int, y0: int, b: (u32, u32, u32, u32), k: int, i: int) -> bool {
    &&& forall|x: int, y: int|
        #[trigger] marked(masks, x0, y0, x, y) && scanned_before(x0, y0, k, i, x, y) ==> b.0 <= x <= b.1 && b.2 <= y <= b.3
    &&& exists|y: int| #[trigger] marked(masks, x0, y0, b.0 as int, y) && scanned_before(x0, y0, k, i, b.0 as int, y)
    &&& exists|y: int| #[trigger] marked(masks, x0, y0, b.1 as int, y) && scanned_before(x0, y0, k, i, b.1 as int, y)
    &&& exists|x: int| #[trigger] marked(masks, x0, y0, x, b.2 as int) && scanned_before(x0, y0, k, i, x, b.2 as int)
    &&& exists|x: int| #[trigger] marked(masks, x0, y0, x, b.3 as int) && scanned_before(x0, y0, k, i, x, b.3 as int)
}

/// The rows of a mask as sequences.
pub open spec fn rows_view(masks: Seq<Vec<bool>>) -> Seq<Seq<bool>> {
    masks.map_values(|row: Vec<bool>| row@)
}

/// Count the marked pixels and find their bounding box.
fn mark_bounds(masks: &Vec<Vec<bool>>, x0: u32, y0: u32) -> (r: (u64, Option<(u32, u32, u32, u32)>))
    requires
        y0 + masks@.len() <= u32::MAX,
        forall|k: int| 0 <= k < masks@.len() ==> x0 + (#[trigger] masks@[k])@.len() <= u32::MAX,
    ensures
        r.0 == count_all_marks(rows_view(masks@)),
        match r.1 {
            None => forall|x: int, y: int| !#[trigger] marked(rows_view(masks@), x0 as int, y0 as int, x, y),
            Some(b) => bounding_box(rows_view(masks@), x0 as int, y0 as int, (b.0 as int, b.1 as int, b.2 as int, b.3 as int)),
        },
{
    let ghost m = rows_view(masks@);
    let mut count: u64 = 0;
    let mut bounds: Option<(u32, u32, u32, u32)> = None;
    let mut k: usize = 0;
    while k < masks.len()
        invariant
            0 <= k <= masks@.len(),
            m == rows_view(masks@),
            y0 + masks@.len() <= u32::MAX,
            forall|j: int| 0 <= j < masks@.len() ==> x0 + (#[trigger] masks@[j])@.len() <= u32::MAX,
            count == count_all_marks(m.take(k as int)),
            count <= k * (u32::MAX as int),
            box_so_far(m, x0 as int, y0 as int, bounds, k as int, 0),
        decreases masks@.len() - k,
    {
        let row = &masks[k];
        let y = y0 + k as u32;
        let ghost count_before = count;
        let mut i: usize = 0;
        while i < row.len()
            invariant
                0 <= i <= row@.len(),
                0 <= k < masks@.len(),
                row == masks@[k as int],
                m[k as int] == row@,
                m.len() == masks@.len(),
                y == y0 + k,
                x0 + row@.len() <= u32::MAX,
                y0 + masks@.len() <= u32::MAX,
                count == count_before + count_marks(row@.take(i as int)),
                count_before <= k * (u32::MAX as int),
                count_marks(row@.take(i as int)) <= i,
                box_so_far(m, x0 as int, y0 as int, bounds, k as int, i as int),
            decreases row@.len() - i,
        {
            proof {
                assert(row@.take(i + 1).drop_last() =~= row@.take(i as int));
            }
            if row[i] {
                let x = x0 + i as u32;
                count = count + 1;
                let ghost prior = bounds;
                bounds = Some(
                    match bounds {
                        None => (x, x, y, y),
                        Some((min_x, max_x, min_y, max_y)) => (
                            if x < min_x { x } else { min_x },
                            if x > max_x { x } else { max_x },
                            if y < min_y { y } else { min_y },
                            if y > max_y { y } else { max_y },
                        ),
                    },
                );
                proof {
                    assert(marked(m, x0 as int, y0 as int, x as int, y as int));
                    lemma_box_extend(m, x0 as int, y0 as int, prior, bounds, k as int, i as int);
                }
            } else {
                proof {
                    lemma_box_skip(m, x0 as int, y0 as int, bounds, k as int, i as int);
                }
            }
            i = i + 1;
        }
        proof {
            assert(row@.take(row@.len() as int) =~= row@);
            assert(m.take(k + 1).drop_last() =~= m.take(k as int));
            assert(m.take(k + 1).last() == row@);
            lemma_box_next_row(m, x0 as int, y0 as int, bounds, k as int, row@.len() as int);
            assert(count <= (k + 1) * (u32::MAX as int)) by (nonlinear_arith)
                requires count <= count_before + row@.len(), count_before <= k * (u32::MAX as int), row@.len() <= u32::MAX as int;
        }
        k = k + 1;
    }
    proof {
        assert(m.take(m.len() as int) =~= m);
        lemma_box_done(m, x0 as int, y0 as int, bounds, masks@.len() as int);
    }
    (count, bounds)
}

/// Passing an unmarked pixel leaves the box as it was.
pub proof fn lemma_box_skip(m: Seq<Seq<bool>>, x0: int, y0: int, bounds: Option<(u32, u32, u32, u32)>, k: int, i: int)
    requires
        box_so_far(m, x0, y0, bounds, k, i),
        !marked(m, x0, y0, x0 + i, y0 + k),
    ensures
        box_so_far(m, x0, y0, bounds, k, i + 1),
{
    match bounds {
        None => {
            assert forall|x: int, y: int| #[trigger] marked(m, x0, y0, x, y) implies !scanned_before(x0, y0, k, i + 1, x, y) by {
                assert(!scanned_before(x0, y0, k, i, x, y));
            }
        },
        Some(b) => {
            assert forall|x: int, y: int| #[trigger] marked(m, x0, y0, x, y) && scanned_before(x0, y0, k, i + 1, x, y) implies b.0 <= x <= b.1 && b.2 <= y <= b.3 by {
                assert(scanned_before(x0, y0, k, i, x, y));
            }
            let w0 = choose|y: int| #[trigger] marked(m, x0, y0, b.0 as int, y) && scanned_before(x0, y0, k, i, b.0 as int, y);
            assert(marked(m, x0, y0, b.0 as int, w0) && scanned_before(x0, y0, k, i + 1, b.0 as int, w0));
            let w1 = choose|y: int| #[trigger] marked(m, x0, y0, b.1 as int, y) && scanned_before(x0, y0, k, i, b.1 as int, y);
            assert(marked(m, x0, y0, b.1 as int, w1) && scanned_before(x0, y0, k, i + 1, b.1 as int, w1));
            let w2 = choose|x: int| #[trigger] marked(m, x0, y0, x, b.2 as int) && scanned_before(x0, y0, k, i, x, b.2 as int);
            assert(marked(m, x0, y0, w2, b.2 as int) && scanned_before(x0, y0, k, i + 1, w2, b.2 as int));
            let w3 = choose|x: int| #[trigger] marked(m, x0, y0, x, b.3 as int) && scanned_before(x0, y0, k, i, x, b.3 as int);
            assert(marked(m, x0, y0, w3, b.3 as int) && scanned_before(x0, y0, k, i + 1, w3, b.3 as int));
        },
    }
}

/// The box after passing a marked pixel `(x, y)`.
pub open spec fn grown_box(prior: Option<(u32, u32, u32, u32)>, x: u32, y: u32) -> (u32, u32, u32, u32) {
    match prior {
        None => (x, x, y, y),
        Some(b) => (
            if x < b.0 { x } else { b.0 },
            if x > b.1 { x } else { b.1 },
            if y < b.2 { y } else { b.2 },
            if y > b.3 { y } else { b.3 },
        ),
    }
}

/// Passing a marked pixel grows the box to hold it.
pub proof fn lemma_box_extend(m: Seq<Seq<bool>>, x0: int, y0: int, prior: Option<(u32, u32, u32, u32)>, bounds: Option<(u32, u32, u32, u32)>, k: int, i: int)
    requires
        box_so_far(m, x0, y0, prior, k, i),
        marked(m, x0, y0, x0 + i, y0 + k),
        0 <= x0 + i <= u32::MAX,
        0 <= y0 + k <= u32::MAX,
        bounds == Some(grown_box(prior, (x0 + i) as u32, (y0 + k) as u32)),
    ensures
        box_so_far(m, x0, y0, bounds, k, i + 1),
{
    let x = x0 + i;
    let y = y0 + k;
    let b = grown_box(prior, x as u32, y as u32);
    assert(scanned_before(x0, y0, k, i + 1, x, y));
    match prior {
        None => {
            assert forall|px: int, py: int| #[trigger] marked(m, x0, y0, px, py) && scanned_before(x0, y0, k, i + 1, px, py) implies b.0 <= px <= b.1 && b.2 <= py <= b.3 by {
                if !scanned_before(x0, y0, k, i, px, py) {
                    assert(px == x && py == y);
                }
            }
            assert(b.0 as int == x && b.1 as int == x && b.2 as int == y && b.3 as int == y);
            assert(marked(m, x0, y0, b.0 as int, y) && scanned_before(x0, y0, k, i + 1, b.0 as int, y));
            assert(marked(m, x0, y0, b.1 as int, y) && scanned_before(x0, y0, k, i + 1, b.1 as int, y));
            assert(marked(m, x0, y0, x, b.2 as int) && scanned_before(x0, y0, k, i + 1, x, b.2 as int));
            assert(marked(m, x0, y0, x, b.3 as int) && scanned_before(x0, y0, k, i + 1, x, b.3 as int));
        },
        Some(p) => {
            assert forall|px: int, py: int| #[trigger] marked(m, x0, y0, px, py) && scanned_before(x0, y0, k, i + 1, px, py) implies b.0 <= px <= b.1 && b.2 <= py <= b.3 by {
                if scanned_before(x0, y0, k, i, px, py) {
                } else {
                    assert(px == x && py == y);
                }
            }
            let w0 = choose|wy: int| #[trigger] marked(m, x0, y0, p.0 as int, wy) && scanned_before(x0, y0, k, i, p.0 as int, wy);
            let w1 = choose|wy: int| #[trigger] marked(m, x0, y0, p.1 as int, wy) && scanned_before(x0, y0, k, i, p.1 as int, wy);
            let w2 = choose|wx: int| #[trigger] marked(m, x0, y0, wx, p.2 as int) && scanned_before(x0, y0, k, i, wx, p.2 as int);
            let w3 = choose|wx: int| #[trigger] marked(m, x0, y0, wx, p.3 as int) && scanned_before(x0, y0, k, i, wx, p.3 as int);
            if x < p.0 {
                assert(marked(m, x0, y0, b.0 as int, y) && scanned_before(x0, y0, k, i + 1, b.0 as int, y));
            } else {
                assert(marked(m, x0, y0, b.0 as int, w0) && scanned_before(x0, y0, k, i + 1, b.0 as int, w0));
            }
            if x > p.1 {
                assert(marked(m, x0, y0, b.1 as int, y) && scanned_before(x0, y0, k, i + 1, b.1 as int, y));
            } else {
                assert(marked(m, x0, y0, b.1 as int, w1) && scanned_before(x0, y0, k, i + 1, b.1 as int, w1));
            }
            if y < p.2 {
                assert(marked(m, x0, y0, x, b.2 as int) && scanned_before(x0, y0, k, i + 1, x, b.2 as int));
            } else {
                assert(marked(m, x0, y0, w2, b.2 as int) && scanned_before(x0, y0, k, i + 1, w2, b.2 as int));
            }
            if y > p.3 {
                assert(marked(m, x0, y0, x, b.3 as int) && scanned_before(x0, y0, k, i + 1, x, b.3 as int));
            } else {
                assert(marked(m, x0, y0, w3, b.3 as int) && scanned_before(x0, y0, k, i + 1, w3, b.3 as int));
            }
        },
    }
}

/// Finishing a row of `len` columns is starting the next.
pub proof fn lemma_box_next_row(m: Seq<Seq<bool>>, x0: int, y0: int, bounds: Option<(u32, u32, u32, u32)>, k: int, len: int)
    requires
        box_so_far(m, x0, y0, bounds, k, len),
        0 <= k < m.len(),
        m[k].len() == len,
    ensures
        box_so_far(m, x0, y0, bounds, k + 1, 0),
{
    match bounds {
        None => {
            assert forall|x: int, y: int| #[trigger] marked(m, x0, y0, x, y) implies !scanned_before(x0, y0, k + 1, 0, x, y) by {
                assert(!scanned_before(x0, y0, k, len, x, y));
            }
        },
        Some(b) => {
            assert forall|x: int, y: int| #[trigger] marked(m, x0, y0, x, y) && scanned_before(x0, y0, k + 1, 0, x, y) implies b.0 <= x <= b.1 && b.2 <= y <= b.3 by {
                assert(scanned_before(x0, y0, k, len, x, y));
            }
            let w0 = choose|y: int| #[trigger] marked(m, x0, y0, b.0 as int, y) && scanned_before(x0, y0, k, len, b.0 as int, y);
            assert(marked(m, x0, y0, b.0 as int, w0) && scanned_before(x0, y0, k + 1, 0, b.0 as int, w0));
            let w1 = choose|y: int| #[trigger] marked(m, x0, y0, b.1 as int, y) && scanned_before(x0, y0, k, len, b.1 as int, y);
            assert(marked(m, x0, y0, b.1 as int, w1) && scanned_before(x0, y0, k + 1, 0, b.1 as int, w1));
            let w2 = choose|x: int| #[trigger] marked(m, x0, y0, x, b.2 as int) && scanned_before(x0, y0, k, len, x, b.2 as int);
            assert(marked(m, x0, y0, w2, b.2 as int) && scanned_before(x0, y0, k + 1, 0, w2, b.2 as int));
            let w3 = choose|x: int| #[trigger] marked(m, x0, y0, x, b.3 as int) && scanned_before(x0, y0, k, len, x, b.3 as int);
            assert(marked(m, x0, y0, w3, b.3 as int) && scanned_before(x0, y0, k + 1, 0, w3, b.3 as int));
        },
    }
}

/// A scan past every row has passed every marked pixel.
pub proof fn lemma_box_done(m: Seq<Seq<bool>>, x0: int, y0: int, bounds: Option<(u32, u32, u32, u32)>, rows: int)
    requires
        box_so_far(m, x0, y0, bounds, rows, 0),
        rows == m.len(),
    ensures
        match bounds {
            None => forall|x: int, y: int| !#[trigger] marked(m, x0, y0, x, y),
            Some(b) => bounding_box(m, x0, y0, (b.0 as int, b.1 as int, b.2 as int, b.3 as int)),
        },
{
    match bounds {
        None => {
            assert forall|x: int, y: int| !#[trigger] marked(m, x0, y0, x, y) by {
                if marked(m, x0, y0, x, y) {
                    assert(scanned_before(x0, y0, rows, 0, x, y));
                }
            }
        },
        Some(b) => {
            assert forall|x: int, y: int| #[trigger] marked(m, x0, y0, x, y) implies b.0 <= x <= b.1 && b.2 <= y <= b.3 by {
                assert(scanned_before(x0, y0, rows, 0, x, y));
            }
            let w0 = choose|y: int| #[trigger] marked(m, x0, y0, b.0 as int, y) && scanned_before(x0, y0, rows, 0, b.0 as int, y);
            let w1 = choose|y: int| #[trigger] marked(m, x0, y0, b.1 as int, y) && scanned_before(x0, y0, rows, 0, b.1 as int, y);
            let w2 = choose|x: int| #[trigger] marked(m, x0, y0, x, b.2 as int) && scanned_before(x0, y0, rows, 0, x, b.2 as int);
            let w3 = choose|x: int| #[trigger] marked(m, x0, y0, x, b.3 as int) && scanned_before(x0, y0, rows, 0, x, b.3 as int);
            assert(marked(m, x0, y0, b.0 as int, w0));
            assert(marked(m, x0, y0, b.1 as int, w1));
            assert(marked(m, x0, y0, w2, b.2 as int));
            assert(marked(m, x0, y0, w3, b.3 as int));
        },
    }
}

/// The predicate's verdicts for every pixel of `region` clipped to the
/// frame, row by row.
fn region_masks<F: Fn(&Pixel) -> bool>(image: &Frame, region: Rect, predicate: &F) -> (r: Vec<Vec<bool>>)
    requires
        accepts_all(*predicate),
    ensures
        block_verdicts(*predicate, *image, region, rows_view(r@)),
        region.y + r@.len() <= u32::MAX,
        forall|k: int| 0 <= k < r@.len() ==> region.x + (#[trigger] r@[k])@.len() <= u32::MAX,
{
    let width = image.width();
    let height = image.height();
    let x_end = if region.x.saturating_add(region.w) < width { region.x.saturating_add(region.w) } else { width };
    let y_end = if region.y.saturating_add(region.h) < height { region.y.saturating_add(region.h) } else { height };
    let mut masks: Vec<Vec<bool>> = Vec::new();
    let mut y = region.y;
    while y < y_end
        invariant
            region.y <= y,
            y == region.y || y <= y_end,
            y_end == rows_end(*image, region),
            x_end == min(sat_add(region.x as int, region.w as int), image.width_spec()),
            x_end <= width == image.width_spec(),
            y_end <= height == image.height_spec(),
            frame_samples(*image).len() >= 4 * image.width_spec() * image.height_spec(),
            accepts_all(*predicate),
            masks@.len() == y - region.y,
            forall|k: int| 0 <= k < masks@.len() ==> (#[trigger] masks@[k])@.len() == clipped_cols(*image, region) && row_verdicts(
                *predicate,
                *image,
                region.y + k,
                region.x as int,
                masks@[k]@,
            ),
        decreases y_end - y,
    {
        let mut row: Vec<bool> = Vec::new();
        let mut x = region.x;
        while x < x_end
            invariant
                region.x <= x,
                x == region.x || x <= x_end,
                region.y <= y < y_end,
                x_end <= width == image.width_spec(),
                y_end <= height == image.height_spec(),
                frame_samples(*image).len() >= 4 * image.width_spec() * image.height_spec(),
                accepts_all(*predicate),
                row@.len() == x - region.x,
                row_verdicts(*predicate, *image, y as int, region.x as int, row@),
            decreases x_end - x,
        {
            let pixel = image.get_pixel(x, y);
            let verdict = predicate(&pixel);
            let ghost prior = row@;
            row.push(verdict);
            proof {
                assert forall|i: int| 0 <= i < row@.len() implies pixel_verdict(*predicate, *image, region.x + i, y as int, #[trigger] row@[i]) by {
                    if i < prior.len() {
                        assert(row@[i] == prior[i]);
                    } else {
                        assert forall|p: Pixel| p@ == image.pixel(x as int, y as int) implies #[trigger] predicate.ensures((&p,), verdict) by {
                            assert(p =~= pixel);
                        }
                    }
                }
            }
            x = x + 1;
        }
        let ghost prior_masks = masks@;
        masks.push(row);
        proof {
            assert forall|k: int| 0 <= k < masks@.len() implies (#[trigger] masks@[k])@.len() == clipped_cols(*image, region) && row_verdicts(
                *predicate,
                *image,
                region.y + k,
                region.x as int,
                masks@[k]@,
            ) by {
                if k < prior_masks.len() {
                    assert(masks@[k] == prior_masks[k]);
                }
            }
        }
        y = y + 1;
    }
    proof {
        let v = rows_view(masks@);
        assert forall|k: int| 0 <= k < v.len() implies (#[trigger] v[k]).len() == clipped_cols(*image, region) && row_verdicts(
            *predicate,
            *image,
            region.y + k,
            region.x as int,
            v[k],
        ) by {
            assert(v[k] == masks@[k]@);
        }
    }
    masks
}

/// The predicate's verdicts over `region` give text block `r`.
pub open spec fn text_block_result<F: Fn(&Pixel) -> bool>(predicate: F, image: Frame, region: Rect, r: Option<Rect>) -> bool {
    exists|masks: Seq<Seq<bool>>| #[trigger] block_verdicts(predicate, image, region, masks) && text_block_of(masks, region, r)
}

/// Find the bounding box of the text pixels within `region` (as judged by
/// `is_text`), padded by two pixels. Returns `None` when the region holds
/// fewer than six.
pub fn find_text_block<F: Fn(&Pixel) -> bool>(image: &Frame, region: Rect, is_text: F) -> (r: Option<Rect>)
    requires
        accepts_all(is_text),
    ensures
        text_block_result(is_text, *image, region, r),
{
    text_block_in(image, region, &is_text)
}

fn text_block_in<F: Fn(&Pixel) -> bool>(image: &Frame, region: Rect, is_text: &F) -> (r: Option<Rect>)
    requires
        accepts_all(*is_text),
    ensures
        text_block_result(*is_text, *image, region, r),
{
    let masks = region_masks(image, region, is_text);
    let (count, bounds) = mark_bounds(&masks, region.x, region.y);
    let ghost m = rows_view(masks@);
    assert(block_verdicts(*is_text, *image, region, m));
    let (min_x, max_x, min_y, max_y) = match bounds {
        Some(b) => b,
        None => {
            proof {
                lemma_no_marks_count(m, region.x as int, region.y as int);
            }
            return None;
        },
    };
    if count < MIN_TEXT_PIXELS {
        return None;
    }
    let padding = TEXT_BLOCK_PADDING;
    let rect = Rect {
        x: min_x.saturating_sub(padding),
        y: min_y.saturating_sub(padding),
        w: max_x.saturating_sub(min_x).saturating_add(1).saturating_add(padding * 2),
        h: max_y.saturating_sub(min_y).saturating_add(1).saturating_add(padding * 2),
    };
    assert(bounding_box(m, region.x as int, region.y as int, (min_x as int, max_x as int, min_y as int, max_y as int)));
    Some(rect)
}

/// With no marked pixel there is nothing to count.
pub proof fn lemma_no_marks_count(m: Seq<Seq<bool>>, x0: int, y0: int)
    requires
        forall|x: int, y: int| !#[trigger] marked(m, x0, y0, x, y),
    ensures
        count_all_marks(m) == 0,
    decreases m.len(),
{
    if m.len() > 0 {
        let rest = m.drop_last();
        assert forall|x: int, y: int| !#[trigger] marked(rest, x0, y0, x, y) by {
            if marked(rest, x0, y0, x, y) {
                assert(marked(m, x0, y0, x, y));
            }
        }
        lemma_no_marks_count(rest, x0, y0);
        let row = m.last();
        assert forall|i: int| 0 <= i < row.len() implies !row[i] by {
            assert(!marked(m, x0, y0, x0 + i, y0 + m.len() - 1));
        }
        lemma_no_marks_row(row);
    }
}

pub proof fn lemma_no_marks_row(row: Seq<bool>)
    requires
        forall|i: int| 0 <= i < row.len() ==> !row[i],
    ensures
        count_marks(row) == 0,
    decreases row.len(),
{
    if row.len() > 0 {
        lemma_no_marks_row(row.drop_last());
    }
}

/// The first text block found in `regions`, examined in order.
pub fn find_text_block_in_regions<F: Fn(&Pixel) -> bool>(image: &Frame, regions: &[Rect], is_text: F) -> (r: Option<Rect>)
    requires
        accepts_all(is_text),
    ensures
        match r {
            None => forall|k: int| 0 <= k < regions@.len() ==> text_block_result(is_text, *image, #[trigger] regions@[k], None),
            Some(rect) => exists|k: int|
                0 <= k < regions@.len() && text_block_result(is_text, *image, #[trigger] regions@[k], Some(rect)) && forall|j: int|
                    0 <= j < k ==> text_block_result(is_text, *image, #[trigger] regions@[j], None),
        },
{
    let mut k: usize = 0;
    while k < regions.len()
        invariant
            0 <= k <= regions@.len(),
            accepts_all(is_text),
            forall|j: int| 0 <= j < k ==> text_block_result(is_text, *image, #[trigger] regions@[j], None),
        decreases regions@.len() - k,
    {
        let found = text_block_in(image, regions[k], &is_text);
        if found.is_some() {
            assert(text_block_result(is_text, *image, regions@[k as int], found));
            return found;
        }
        k = k + 1;
    }
    None
}

} // verus!
