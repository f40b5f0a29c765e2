//! Properties of the library that hold across all inputs: what the row
//! scanner finds, what grouping keeps, where text lands, and what the
//! measurements can read.

use vstd::prelude::*;
use crate::geometry::{
    GroupState, Rect, after_row, finished, group_from, grouped, keep_tall, lead_true, lemma_lead_true_bounds,
    lemma_lead_true_exact, mask_runs,
};
use crate::geometry::{ColumnKind, bar_fill, largest, walk};
use crate::geometry::{
    bar_verdicts, channel, column_kind, column_samples, core_rows, count_below, count_equal, empty_votes,
    filled_votes, groove_color, groove_window, is_kth_smallest, left_kinds, lemma_kth_unique, median, median_color,
    outside_color, rgb, right_kinds, row_colors, window_samples,
};
use crate::frame::{Frame, Pixel};
use crate::quality::{block_steps, region_steps, row_steps, step_at, step_cols};
use crate::geometry::row_count;
use crate::geometry::{continued_by, extend_rect, fresh_rect, gap_before, lemma_row_group_end, row_group_end, row_step};
use crate::capture::{is_blank_spec, same_color_as_first};
use crate::ocr::{OcrConfig, tesseract_args_spec};
use crate::ocr::text::{
    is_white_space, join_spaced, kept_lines, normalized, plain_char, split_on, trim, trim_end, trim_start,
};
use crate::draw::{
    ascii_upper, block_points, block_row, column_bit, column_points, effective_scale, glyph_points, glyph_table,
    glyph_fits, on_outline, outline_ring, sat_u32, sat_zero, text_fits, text_points, text_width_spec,
};

verus! {

/// Do positions `a ..= b` of `m` (position `p` at `m[p - start]`) hold a
/// maximal run of `true`: all true, and the positions just outside false
/// or off the mask?
pub open spec fn maximal_run(m: Seq<bool>, start: int, a: int, b: int) -> bool {
    &&& start <= a <= b < start + m.len()
    &&& forall|i: int| a <= i <= b ==> #[trigger] m[i - start]
    &&& (a == start || !m[a - 1 - start])
    &&& (b == start + m.len() - 1 || !m[b + 1 - start])
}

/// The runs a row scan reports (`segment_row`) are exactly the maximal
/// runs of matching pixels that are at least `min_width` long, left to
/// right, each separated from the next by at least one pixel that does not
/// match.
#[verifier::spinoff_prover]
#[verifier::rlimit(40)]
pub proof fn lemma_mask_runs_are_maximal_runs(m: Seq<bool>, start: int, min_width: int)
    requires
        0 <= start,
        start + m.len() <= u32::MAX + 1,
    ensures
        forall|k: int| 0 <= k < mask_runs(m, start, min_width).len() ==> {
            let run = #[trigger] mask_runs(m, start, min_width)[k];
            &&& maximal_run(m, start, run.0 as int, run.1 as int)
            &&& run.1 - run.0 + 1 >= min_width
        },
        forall|k: int| 0 <= k < mask_runs(m, start, min_width).len() - 1 ==>
            #[trigger] mask_runs(m, start, min_width)[k].1 + 1 < mask_runs(m, start, min_width)[k + 1].0,
        forall|a: int, b: int| maximal_run(m, start, a, b) && b - a + 1 >= min_width ==>
            exists|k: int| 0 <= k < mask_runs(m, start, min_width).len() &&
                #[trigger] mask_runs(m, start, min_width)[k] == (a as u32, b as u32),
    decreases m.len(),
{
    let runs = mask_runs(m, start, min_width);
    if m.len() == 0 {
    } else if !m[0] {
        let tail = m.drop_first();
        lemma_mask_runs_are_maximal_runs(tail, start + 1, min_width);
        assert(runs == mask_runs(tail, start + 1, min_width));
        assert forall|k: int| 0 <= k < runs.len() implies {
            let run = #[trigger] runs[k];
            &&& maximal_run(m, start, run.0 as int, run.1 as int)
            &&& run.1 - run.0 + 1 >= min_width
        } by {
            let run = runs[k];
            assert(maximal_run(tail, start + 1, run.0 as int, run.1 as int));
            assert forall|i: int| run.0 <= i <= run.1 implies #[trigger] m[i - start] by {
                assert(tail[i - (start + 1)] == m[i - start]);
            }
            if run.0 != start + 1 {
                assert(tail[run.0 - 1 - (start + 1)] == m[run.0 - 1 - start]);
            }
            if run.1 != start + m.len() - 1 {
                assert(tail[run.1 + 1 - (start + 1)] == m[run.1 + 1 - start]);
            }
        }
        assert forall|a: int, b: int| maximal_run(m, start, a, b) && b - a + 1 >= min_width implies
            exists|k: int| 0 <= k < runs.len() && #[trigger] runs[k] == (a as u32, b as u32) by {
            assert(m[a - start]);
            assert(a != start);
            assert forall|i: int| a <= i <= b implies #[trigger] tail[i - (start + 1)] by {
                assert(m[i - start]);
            }
            if a != start + 1 {
                assert(tail[a - 1 - (start + 1)] == m[a - 1 - start]);
            }
            if b != start + m.len() - 1 {
                assert(tail[b + 1 - (start + 1)] == m[b + 1 - start]);
            }
            assert(maximal_run(tail, start + 1, a, b));
        }
    } else {
        lemma_lead_true_bounds(m);
        let k = lead_true(m) as int;
        let tail = m.skip(k);
        lemma_mask_runs_are_maximal_runs(tail, start + k, min_width);
        let rest = mask_runs(tail, start + k, min_width);
        let first = (start as u32, (start + k - 1) as u32);
        let has_first = k >= min_width;
        assert(runs == if has_first { seq![first] + rest } else { rest });
        // A run of the tail never starts at its first position, which is
        // the false that ends the leading run.
        assert forall|j: int| 0 <= j < rest.len() implies (#[trigger] rest[j]).0 > start + k by {
            let run = rest[j];
            assert(maximal_run(tail, start + k, run.0 as int, run.1 as int));
            assert(tail[run.0 - (start + k)]);
            if run.0 == start + k {
                assert(tail[0] == m[k]);
            }
        }
        assert forall|j: int| 0 <= j < rest.len() implies {
            let run = #[trigger] rest[j];
            maximal_run(m, start, run.0 as int, run.1 as int)
        } by {
            let run = rest[j];
            assert(maximal_run(tail, start + k, run.0 as int, run.1 as int));
            assert forall|i: int| run.0 <= i <= run.1 implies #[trigger] m[i - start] by {
                assert(tail[i - (start + k)] == m[i - start]);
            }
            assert(tail[run.0 - 1 - (start + k)] == m[run.0 - 1 - start]);
            if run.1 != start + m.len() - 1 {
                assert(tail[run.1 + 1 - (start + k)] == m[run.1 + 1 - start]);
            }
        }
        if has_first {
            assert forall|i: int| start <= i <= start + k - 1 implies #[trigger] m[i - start] by {}
            assert(maximal_run(m, start, start, start + k - 1));
        }
        assert forall|j: int| 0 <= j < runs.len() implies {
            let run = #[trigger] runs[j];
            &&& maximal_run(m, start, run.0 as int, run.1 as int)
            &&& run.1 - run.0 + 1 >= min_width
        } by {
            if has_first && j > 0 {
                assert(runs[j] == rest[j - 1]);
            }
        }
        assert forall|j: int| 0 <= j < runs.len() - 1 implies #[trigger] runs[j].1 + 1 < runs[j + 1].0 by {
            if has_first {
                assert(runs[j + 1] == rest[j]);
                if j > 0 {
                    assert(runs[j] == rest[j - 1]);
                }
            }
        }
        assert forall|a: int, b: int| maximal_run(m, start, a, b) && b - a + 1 >= min_width implies
            exists|j: int| 0 <= j < runs.len() && #[trigger] runs[j] == (a as u32, b as u32) by {
            if a == start {
                assert forall|i: int| 0 <= i < b - start + 1 implies m[i] by {
                    assert(m[(i + start) - start]);
                }
                lemma_lead_true_exact(m, b - start + 1);
                assert(runs[0] == first);
            } else {
                assert(!m[a - 1 - start]);
                assert(a - 1 - start >= k);
                assert forall|i: int| a <= i <= b implies #[trigger] tail[i - (start + k)] by {
                    assert(m[i - start]);
                }
                assert(tail[a - 1 - (start + k)] == m[a - 1 - start]);
                if b != start + m.len() - 1 {
                    assert(tail[b + 1 - (start + k)] == m[b + 1 - start]);
                }
                assert(maximal_run(tail, start + k, a, b));
                let j = choose|j: int| 0 <= j < rest.len() && #[trigger] rest[j] == (a as u32, b as u32);
                if has_first {
                    assert(runs[j + 1] == rest[j]);
                }
            }
        }
    }
}

pub open spec fn all_tall(rects: Seq<Rect>, min_height: int) -> bool {
    forall|k: int| 0 <= k < rects.len() ==> (#[trigger] rects[k]).h >= min_height
}

proof fn lemma_keep_tall_tall(rects: Seq<Rect>, min_height: int)
    ensures
        all_tall(keep_tall(rects, min_height), min_height),
    decreases rects.len(),
{
    if rects.len() > 0 {
        lemma_keep_tall_tall(rects.drop_last(), min_height);
    }
}

proof fn lemma_finished_tall(active: Seq<Rect>, cont: Seq<Option<usize>>, min_height: int, n: int)
    ensures
        all_tall(finished(active, cont, min_height, n), min_height),
    decreases n,
{
    if n > 0 {
        lemma_finished_tall(active, cont, min_height, n - 1);
    }
}

proof fn lemma_group_from_tall(rows: Seq<(u32, u32, u32)>, i: int, state: GroupState, min_height: int, max_gap: int)
    requires
        all_tall(state.1, min_height),
    ensures
        all_tall(group_from(rows, i, state, min_height, max_gap), min_height),
    decreases rows.len() - i,
{
    if i < 0 || i >= rows.len() {
        lemma_keep_tall_tall(state.0, min_height);
    } else {
        let y = rows[i].0;
        let j = crate::geometry::row_group_end(rows, y, i + 1);
        crate::geometry::lemma_row_group_end(rows, y, i + 1);
        let segments = rows.subrange(i, j);
        let next = after_row(state, y, segments, min_height, max_gap);
        let gap = crate::geometry::gap_before(state.2, y as int, max_gap);
        let active = if gap { seq![] } else { state.0 };
        lemma_keep_tall_tall(state.0, min_height);
        let (stepped, cont) = crate::geometry::row_step(active, segments, y as int, segments.len() as int);
        lemma_finished_tall(active, cont, min_height, active.len() as int);
        assert(all_tall(next.1, min_height));
        lemma_group_from_tall(rows, j, next, min_height, max_gap);
    }
}

/// Grouping (`group_segments`) never reports a rectangle shorter than
/// `min_height` rows.
pub proof fn lemma_grouped_rects_are_tall(rows: Seq<(u32, u32, u32)>, min_height: int, max_gap: int)
    ensures
        forall|k: int| 0 <= k < grouped(rows, min_height, max_gap).len() ==>
            (#[trigger] grouped(rows, min_height, max_gap)[k]).h >= min_height,
{
    lemma_group_from_tall(rows, 0, (seq![], seq![], None), min_height, max_gap);
    assert(all_tall(grouped(rows, min_height, max_gap), min_height));
}

/// Every point of `pts` lies in `[x_lo, x_hi) x [y_lo, y_hi)`.
pub open spec fn points_within(pts: Seq<(i64, i64)>, x_lo: int, x_hi: int, y_lo: int, y_hi: int) -> bool {
    forall|i: int| 0 <= i < pts.len() ==> x_lo <= (#[trigger] pts[i]).0 < x_hi && y_lo <= pts[i].1 < y_hi
}

/// Coordinates in `[x_lo, x_hi) x [y_lo, y_hi)` are `i64` values.
pub open spec fn box_in_i64(x_lo: int, x_hi: int, y_lo: int, y_hi: int) -> bool {
    i64::MIN <= x_lo && x_hi <= i64::MAX + 1 && i64::MIN <= y_lo && y_hi <= i64::MAX + 1
}

proof fn lemma_block_row_within(px: int, py: int, n: int)
    requires
        box_in_i64(px, px + n, py, py + 1),
    ensures
        points_within(block_row(px, py, n), px, px + n, py, py + 1),
    decreases n,
{
    if n > 0 {
        lemma_block_row_within(px, py, n - 1);
    }
}

proof fn lemma_block_points_within(px: int, py: int, scale: int, rows: int)
    requires
        scale >= 0,
        box_in_i64(px, px + scale, py, py + rows),
    ensures
        points_within(block_points(px, py, scale, rows), px, px + scale, py, py + rows),
    decreases rows,
{
    if rows > 0 {
        lemma_block_points_within(px, py, scale, rows - 1);
        lemma_block_row_within(px, py + rows - 1, scale);
        let front = block_points(px, py, scale, rows - 1);
        let back = block_row(px, py + rows - 1, scale);
        assert forall|i: int| 0 <= i < front.len() + back.len() implies px <= (#[trigger] (front + back)[i]).0 < px
            + scale && py <= (front + back)[i].1 < py + rows by {
            if i >= front.len() {
                assert((front + back)[i] == back[i - front.len()]);
            }
        }
    }
}

proof fn lemma_column_points_within(column: u8, col: int, ox: int, oy: int, scale: int, rows: int)
    requires
        scale >= 1,
        0 <= col,
        0 <= rows,
        i64::MIN <= ox,
        i64::MIN <= oy,
        forall|r: int|
            0 <= r < rows && #[trigger] column_bit(column, r) ==> ox + col * scale + scale - 1 <= i64::MAX && oy + r
                * scale + scale - 1 <= i64::MAX,
    ensures
        points_within(column_points(column, col, ox, oy, scale, rows), ox + col * scale, ox + col * scale + scale, oy,
            oy + rows * scale),
    decreases rows,
{
    if rows > 0 {
        assert(oy + (rows - 1) * scale + scale == oy + rows * scale) by (nonlinear_arith);
        assert(oy + (rows - 1) * scale <= oy + rows * scale) by (nonlinear_arith)
            requires scale >= 1;
        assert(oy <= oy + (rows - 1) * scale) by (nonlinear_arith)
            requires scale >= 1, rows >= 1;
        assert(0 <= col * scale) by (nonlinear_arith)
            requires scale >= 1, col >= 0;
        lemma_column_points_within(column, col, ox, oy, scale, rows - 1);
        let front = column_points(column, col, ox, oy, scale, rows - 1);
        let back = if column_bit(column, rows - 1) {
            block_points(ox + col * scale, oy + (rows - 1) * scale, scale, scale)
        } else {
            seq![]
        };
        if column_bit(column, rows - 1) {
            lemma_block_points_within(ox + col * scale, oy + (rows - 1) * scale, scale, scale);
        }
        assert forall|i: int| 0 <= i < front.len() + back.len() implies ox + col * scale <= (#[trigger] (front
            + back)[i]).0 < ox + col * scale + scale && oy <= (front + back)[i].1 < oy + rows * scale by {
            if i >= front.len() {
                assert((front + back)[i] == back[i - front.len()]);
            } else {
                assert((front + back)[i] == front[i]);
            }
        }
        assert(column_points(column, col, ox, oy, scale, rows) == front + back);
    }
}

proof fn lemma_glyph_points_within(bitmap: [u8; 5], ox: int, oy: int, scale: int, cols: int)
    requires
        scale >= 1,
        0 <= cols <= 5,
        i64::MIN <= ox,
        i64::MIN <= oy,
        glyph_fits(bitmap, ox, oy, scale),
    ensures
        points_within(glyph_points(bitmap, ox, oy, scale, cols), ox, ox + cols * scale, oy, oy + 7 * scale),
    decreases cols,
{
    if cols > 0 {
        let c = cols - 1;
        assert(ox <= ox + c * scale && ox + c * scale + scale == ox + cols * scale && ox + cols * scale <= ox + 5
            * scale) by (nonlinear_arith)
            requires scale >= 1, c == cols - 1, 0 <= c, cols <= 5;
        lemma_glyph_points_within(bitmap, ox, oy, scale, c);
        assert forall|r: int|
            0 <= r < 7 && #[trigger] column_bit(bitmap[c], r) implies ox + c * scale + scale - 1 <= i64::MAX && oy + r
                * scale + scale - 1 <= i64::MAX by {}
        lemma_column_points_within(bitmap[c], c, ox, oy, scale, 7);
        let front = glyph_points(bitmap, ox, oy, scale, c);
        let back = column_points(bitmap[c], c, ox, oy, scale, 7);
        assert forall|i: int| 0 <= i < front.len() + back.len() implies ox <= (#[trigger] (front + back)[i]).0 < ox
            + cols * scale && oy <= (front + back)[i].1 < oy + 7 * scale by {
            if i >= front.len() {
                assert((front + back)[i] == back[i - front.len()]);
            } else {
                assert((front + back)[i] == front[i]);
            }
        }
    }
}

proof fn lemma_text_points_within(chars: Seq<char>, x: int, y: int, scale: int, n: int)
    requires
        scale >= 1,
        0 <= n <= chars.len(),
        i64::MIN <= x,
        i64::MIN <= y,
        forall|i: int|
            0 <= i < n ==> match #[trigger] glyph_table(ascii_upper(chars[i])) {
                Some(bitmap) => glyph_fits(bitmap, x + i * (6 * scale), y, scale),
                None => true,
            },
    ensures
        points_within(text_points(chars, x, y, scale, n), x, x + text_width_spec(n, scale), y, y + 7 * scale),
    decreases n,
{
    if n > 0 {
        let ox = x + (n - 1) * 6 * scale;
        assert(x <= ox && ox + 5 * scale == x + text_width_spec(n, scale) && x + text_width_spec(n - 1, scale)
            <= ox && ox == x + (n - 1) * (6 * scale)) by (nonlinear_arith)
            requires scale >= 1, n >= 1, ox == x + (n - 1) * 6 * scale,
                text_width_spec(n, scale) == n * 6 * scale - scale,
                text_width_spec(n - 1, scale) == if n - 1 == 0 { 0 } else { (n - 1) * 6 * scale - scale };
        lemma_text_points_within(chars, x, y, scale, n - 1);
        let front = text_points(chars, x, y, scale, n - 1);
        let back = match glyph_table(ascii_upper(chars[n - 1])) {
            Some(bitmap) => glyph_points(bitmap, ox, y, scale, 5),
            None => seq![],
        };
        match glyph_table(ascii_upper(chars[n - 1])) {
            Some(bitmap) => {
                lemma_glyph_points_within(bitmap, ox, y, scale, 5);
            },
            None => {},
        }
        assert forall|i: int| 0 <= i < front.len() + back.len() implies x <= (#[trigger] (front + back)[i]).0 < x
            + text_width_spec(n, scale) && y <= (front + back)[i].1 < y + 7 * scale by {
            if i >= front.len() {
                assert((front + back)[i] == back[i - front.len()]);
            } else {
                assert((front + back)[i] == front[i]);
            }
        }
    }
}

/// Text stays within its cell: every pixel that drawing `text` at
/// `(x, y)` lights (`text_pixels`, `draw_text`) lies within
/// `text_width` columns from `x` and `text_height` rows from `y`.
pub proof fn lemma_text_stays_in_its_box(text: Seq<char>, x: i64, y: i64, scale: u32)
    requires
        text_fits(text, x, y, scale),
    ensures
        forall|i: int| 0 <= i < text_points(text, x as int, y as int, effective_scale(scale), text.len() as int).len()
            ==> {
            let p = #[trigger] text_points(text, x as int, y as int, effective_scale(scale), text.len() as int)[i];
            &&& x <= p.0 < x + text_width_spec(text.len() as int, effective_scale(scale))
            &&& y <= p.1 < y + 7 * effective_scale(scale)
        },
{
    let s = effective_scale(scale);
    lemma_text_points_within(text, x as int, y as int, s, text.len() as int);
}

spec fn lit_rows(column: u8, rows: int) -> nat
    decreases rows,
{
    if rows <= 0 {
        0
    } else {
        lit_rows(column, rows - 1) + if column_bit(column, rows - 1) { 1nat } else { 0nat }
    }
}

spec fn lit_cols(bitmap: [u8; 5], cols: int) -> nat
    decreases cols,
{
    if cols <= 0 {
        0
    } else {
        lit_cols(bitmap, cols - 1) + lit_rows(bitmap[cols - 1], 7)
    }
}

spec fn lit_chars(chars: Seq<char>, n: int) -> nat
    decreases n,
{
    if n <= 0 {
        0
    } else {
        lit_chars(chars, n - 1) + match glyph_table(ascii_upper(chars[n - 1])) {
            Some(bitmap) => lit_cols(bitmap, 5),
            None => 0,
        }
    }
}

proof fn lemma_block_row_len(px: int, py: int, n: int)
    requires
        n >= 0,
    ensures
        block_row(px, py, n).len() == n,
    decreases n,
{
    if n > 0 {
        lemma_block_row_len(px, py, n - 1);
    }
}

proof fn lemma_block_points_len(px: int, py: int, scale: int, rows: int)
    requires
        scale >= 0,
        rows >= 0,
    ensures
        block_points(px, py, scale, rows).len() == rows * scale,
    decreases rows,
{
    if rows > 0 {
        lemma_block_points_len(px, py, scale, rows - 1);
        lemma_block_row_len(px, py + rows - 1, scale);
        assert((rows - 1) * scale + scale == rows * scale) by (nonlinear_arith);
    } else {
        assert(rows * scale == 0) by (nonlinear_arith)
            requires rows == 0;
    }
}

proof fn lemma_column_points_len(column: u8, col: int, ox: int, oy: int, scale: int, rows: int)
    requires
        scale >= 0,
        rows >= 0,
    ensures
        column_points(column, col, ox, oy, scale, rows).len() == scale * scale * lit_rows(column, rows),
    decreases rows,
{
    if rows > 0 {
        lemma_column_points_len(column, col, ox, oy, scale, rows - 1);
        lemma_block_points_len(ox + col * scale, oy + (rows - 1) * scale, scale, scale);
        let before = lit_rows(column, rows - 1) as int;
        assert(scale * scale * before + scale * scale == scale * scale * (before + 1)) by (nonlinear_arith);
    } else {
        assert(scale * scale * 0 == 0) by (nonlinear_arith);
    }
}

proof fn lemma_glyph_points_len(bitmap: [u8; 5], ox: int, oy: int, scale: int, cols: int)
    requires
        scale >= 0,
        cols >= 0,
    ensures
        glyph_points(bitmap, ox, oy, scale, cols).len() == scale * scale * lit_cols(bitmap, cols),
    decreases cols,
{
    if cols > 0 {
        lemma_glyph_points_len(bitmap, ox, oy, scale, cols - 1);
        lemma_column_points_len(bitmap[cols - 1], cols - 1, ox, oy, scale, 7);
        let a = lit_cols(bitmap, cols - 1) as int;
        let b = lit_rows(bitmap[cols - 1], 7) as int;
        assert(scale * scale * a + scale * scale * b == scale * scale * (a + b)) by (nonlinear_arith);
    } else {
        assert(scale * scale * 0 == 0) by (nonlinear_arith);
    }
}

proof fn lemma_text_points_len(chars: Seq<char>, x: int, y: int, scale: int, n: int)
    requires
        scale >= 0,
        n >= 0,
    ensures
        text_points(chars, x, y, scale, n).len() == scale * scale * lit_chars(chars, n),
    decreases n,
{
    if n > 0 {
        lemma_text_points_len(chars, x, y, scale, n - 1);
        let a = lit_chars(chars, n - 1) as int;
        match glyph_table(ascii_upper(chars[n - 1])) {
            Some(bitmap) => {
                lemma_glyph_points_len(bitmap, x + (n - 1) * 6 * scale, y, scale, 5);
                let b = lit_cols(bitmap, 5) as int;
                assert(scale * scale * a + scale * scale * b == scale * scale * (a + b)) by (nonlinear_arith);
            },
            None => {},
        }
    } else {
        assert(scale * scale * 0 == 0) by (nonlinear_arith);
    }
}

/// Scaling text multiplies its lit pixels by the square of the scale:
/// drawing at scale `s` lights `s * s` times as many pixels as drawing at
/// scale 1, wherever the text is placed.
pub proof fn lemma_scale_multiplies_lit_pixels(text: Seq<char>, x: i64, y: i64, scale: u32, x1: i64, y1: i64)
    ensures
        text_points(text, x as int, y as int, effective_scale(scale), text.len() as int).len() == effective_scale(
            scale,
        ) * effective_scale(scale) * text_points(text, x1 as int, y1 as int, 1, text.len() as int).len(),
{
    lemma_text_points_len(text, x as int, y as int, effective_scale(scale), text.len() as int);
    lemma_text_points_len(text, x1 as int, y1 as int, 1, text.len() as int);
}

/// Letter case does not matter to the font: two texts whose characters
/// agree once uppercased light the same pixels.
pub proof fn lemma_case_does_not_change_drawing(a: Seq<char>, b: Seq<char>, x: int, y: int, scale: int, n: int)
    requires
        0 <= n <= a.len(),
        n <= b.len(),
        forall|i: int| 0 <= i < n ==> ascii_upper(#[trigger] a[i]) == ascii_upper(b[i]),
    ensures
        text_points(a, x, y, scale, n) == text_points(b, x, y, scale, n),
    decreases n,
{
    if n > 0 {
        lemma_case_does_not_change_drawing(a, b, x, y, scale, n - 1);
        assert(ascii_upper(a[n - 1]) == ascii_upper(b[n - 1]));
    }
}

/// The Tesseract command line starts with the input and `stdout`, and the
/// `tsv` config file comes last, after every option flag.
pub proof fn lemma_tsv_config_comes_last(input: Seq<char>, config: OcrConfig)
    ensures
        tesseract_args_spec(input, config)[0] == input,
        tesseract_args_spec(input, config)[1] == "stdout"@,
        tesseract_args_spec(input, config).last() == "tsv"@,
        tesseract_args_spec(input, config).subrange(2, tesseract_args_spec(input, config).len() - 1)
            == config.args_spec(),
{
    let args = tesseract_args_spec(input, config);
    assert(args.subrange(2, args.len() - 1) =~= config.args_spec());
}

/// A captured surface whose pixels all share one colour is blank.
pub proof fn lemma_uniform_surface_is_blank(buffer: Seq<u8>)
    requires
        forall|i: int| 0 <= i < buffer.len() / 4 ==> #[trigger] same_color_as_first(buffer, i),
    ensures
        is_blank_spec(buffer),
{
}

proof fn lemma_walk_counts(kinds: Seq<ColumnKind>, filled: int, track: int)
    requires
        0 <= filled <= track,
    ensures
        0 <= walk(kinds, filled, track).0 <= walk(kinds, filled, track).1,
        walk(kinds, filled, track).2 >= 0,
    decreases kinds.len(),
{
    if kinds.len() > 0 {
        lemma_walk_counts(kinds.drop_last(), filled, track);
    }
}

/// A measured bar (`measure_bar_fill`) has a track of at least one column
/// and no more filled columns than track columns, so its fill ratio lies
/// between 0 and 1.
pub proof fn lemma_bar_fill_within_track(
    image: crate::frame::Frame,
    fill: Rect,
    search: Rect,
    groove: spec_fn(int, int) -> bool,
    left: Seq<Seq<bool>>,
    right: Seq<Seq<bool>>,
)
    ensures
        bar_fill(image, fill, search, groove, left, right) matches Some((filled, track)) ==> 0 <= filled <= track
            && track >= 1,
{
    if !(fill.w == 0 || fill.h == 0) {
        match crate::geometry::core_rows(image.height_spec(), fill) {
            None => {},
            Some((ys, ye)) => {
                let color = crate::geometry::groove_color(image, fill, search, groove);
                let lk = crate::geometry::left_kinds(image, fill, search, ys, ye, color, left);
                lemma_walk_counts(lk, 0, 0);
                let after_left = walk(lk, 0, 0);
                let rk = crate::geometry::right_kinds(image, fill, search, ys, ye, color, right);
                lemma_walk_counts(rk, after_left.0, after_left.1);
            },
        }
    }
}

/// No line break (`\n` or `\r`) anywhere in `s`.
pub open spec fn single_line(s: Seq<char>) -> bool {
    forall|i: int| 0 <= i < s.len() ==> #[trigger] s[i] != '\n' && s[i] != '\r'
}

proof fn lemma_split_pieces_single_line(s: Seq<char>)
    requires
        forall|i: int| 0 <= i < s.len() ==> #[trigger] s[i] != '\r',
    ensures
        forall|k: int| 0 <= k < split_on(s, '\n').len() ==> single_line(#[trigger] split_on(s, '\n')[k]),
    decreases s.len(),
{
    if s.len() > 0 {
        let front = s.drop_last();
        assert forall|i: int| 0 <= i < front.len() implies #[trigger] front[i] != '\r' by {
            assert(front[i] == s[i]);
        }
        lemma_split_pieces_single_line(front);
        crate::ocr::text::lemma_split_on_len(front, '\n');
        let pieces = split_on(front, '\n');
        assert(s.last() == s[s.len() - 1]);
        if s.last() != '\n' {
            let grown = pieces.last().push(s.last());
            assert(single_line(pieces[pieces.len() - 1]));
            assert forall|i: int| 0 <= i < grown.len() implies #[trigger] grown[i] != '\n' && grown[i] != '\r' by {
                if i < grown.len() - 1 {
                    assert(grown[i] == pieces.last()[i]);
                }
            }
        }
    }
}

proof fn lemma_trim_start_keeps(s: Seq<char>)
    ensures
        single_line(s) ==> single_line(trim_start(s)),
        trim_start(s).len() == 0 || !is_white_space(trim_start(s)[0]),
    decreases s.len(),
{
    if s.len() > 0 && is_white_space(s[0]) {
        lemma_trim_start_keeps(s.drop_first());
        if single_line(s) {
            assert forall|i: int| 0 <= i < s.drop_first().len() implies #[trigger] s.drop_first()[i] != '\n'
                && s.drop_first()[i] != '\r' by {
                assert(s.drop_first()[i] == s[i + 1]);
            }
        }
    }
}

proof fn lemma_trim_end_keeps(s: Seq<char>)
    ensures
        single_line(s) ==> single_line(trim_end(s)),
        trim_end(s).len() == 0 || !is_white_space(trim_end(s).last()),
        trim_end(s).len() <= s.len(),
        trim_end(s) == s.subrange(0, trim_end(s).len() as int),
    decreases s.len(),
{
    if s.len() > 0 && is_white_space(s.last()) {
        lemma_trim_end_keeps(s.drop_last());
        if single_line(s) {
            assert forall|i: int| 0 <= i < s.drop_last().len() implies #[trigger] s.drop_last()[i] != '\n'
                && s.drop_last()[i] != '\r' by {
                assert(s.drop_last()[i] == s[i]);
            }
        }
        assert(s.drop_last().subrange(0, trim_end(s).len() as int) =~= s.subrange(0, trim_end(s).len() as int));
    } else {
        assert(s.subrange(0, s.len() as int) =~= s);
    }
}

/// A trimmed text keeps any single-line property and has no white space
/// at either end.
proof fn lemma_trim_keeps(s: Seq<char>)
    ensures
        single_line(s) ==> single_line(trim(s)),
        trim(s).len() > 0 ==> !is_white_space(trim(s)[0]) && !is_white_space(trim(s).last()),
{
    lemma_trim_start_keeps(s);
    let u = trim_start(s);
    lemma_trim_end_keeps(u);
    if trim(s).len() > 0 {
        assert(trim(s) == trim_end(u));
        assert(trim_end(u)[0] == u.subrange(0, trim_end(u).len() as int)[0]);
    }
}

proof fn lemma_kept_lines_single_line(ls: Seq<Seq<char>>)
    requires
        forall|k: int| 0 <= k < ls.len() ==> single_line(#[trigger] ls[k]),
    ensures
        forall|k: int| 0 <= k < kept_lines(ls).len() ==> single_line(#[trigger] kept_lines(ls)[k]),
    decreases ls.len(),
{
    if ls.len() > 0 {
        let front = ls.drop_last();
        assert forall|k: int| 0 <= k < front.len() implies single_line(#[trigger] front[k]) by {
            assert(front[k] == ls[k]);
        }
        lemma_kept_lines_single_line(front);
        assert(single_line(ls[ls.len() - 1]));
        lemma_trim_keeps(ls.last());
        let keep = |l: Seq<char>| if trim(l).len() > 0 { Some(trim(l)) } else { None };
        assert(kept_lines(front) == front.filter_map(keep));
        assert(kept_lines(ls) == ls.filter_map(keep));
        assert forall|k: int| 0 <= k < kept_lines(ls).len() implies single_line(#[trigger] kept_lines(ls)[k]) by {
            if k < kept_lines(front).len() {
                assert(kept_lines(ls)[k] == kept_lines(front)[k]);
            }
        }
    }
}

proof fn lemma_join_single_line(ws: Seq<Seq<char>>)
    requires
        forall|k: int| 0 <= k < ws.len() ==> single_line(#[trigger] ws[k]),
    ensures
        single_line(join_spaced(ws)),
    decreases ws.len(),
{
    if ws.len() > 1 {
        let front = ws.drop_last();
        assert forall|k: int| 0 <= k < front.len() implies single_line(#[trigger] front[k]) by {
            assert(front[k] == ws[k]);
        }
        lemma_join_single_line(front);
        let joined = join_spaced(front) + seq![' '] + ws.last();
        assert(single_line(ws[ws.len() - 1]));
        assert forall|i: int| 0 <= i < joined.len() implies #[trigger] joined[i] != '\n' && joined[i] != '\r' by {
            if i < join_spaced(front).len() {
                assert(joined[i] == join_spaced(front)[i]);
            } else if i > join_spaced(front).len() {
                assert(joined[i] == ws.last()[i - join_spaced(front).len() - 1]);
            }
        }
    } else if ws.len() == 1 {
        assert(single_line(ws[0]));
    }
}

/// Normalised OCR text (`normalize_text`) is a single line with no white
/// space at either end.
pub proof fn lemma_normalized_is_one_trimmed_line(text: Seq<char>)
    ensures
        single_line(normalized(text)),
        normalized(text).len() > 0 ==> !is_white_space(normalized(text)[0]) && !is_white_space(
            normalized(text).last(),
        ),
{
    let cleaned = text.filter(|c: char| c != '\r');
    assert forall|i: int| 0 <= i < cleaned.len() implies #[trigger] cleaned[i] != '\r' by {
        text.lemma_filter_pred(|c: char| c != '\r', i);
    }
    lemma_split_pieces_single_line(cleaned);
    let kept = kept_lines(split_on(cleaned, '\n'));
    lemma_kept_lines_single_line(split_on(cleaned, '\n'));
    lemma_join_single_line(kept);
    let mapped = join_spaced(kept).map_values(|c: char| plain_char(c));
    assert forall|i: int| 0 <= i < mapped.len() implies #[trigger] mapped[i] != '\n' && mapped[i] != '\r' by {
        assert(join_spaced(kept)[i] != '\n' && join_spaced(kept)[i] != '\r');
    }
    lemma_trim_keeps(mapped);
}

/// Is `(px, py)` inside the rectangle at `(x, y)` of size `w` by `h`, at
/// most `depth - 1` pixels in from one of its edges?
pub open spec fn in_border(x: int, y: int, w: int, h: int, depth: int, px: int, py: int) -> bool {
    &&& x <= px < x + w
    &&& y <= py < y + h
    &&& (px < x + depth || px >= x + w - depth || py < y + depth || py >= y + h - depth)
}

/// An outline no thicker than its rectangle (`draw_rect`) stays inside the
/// rectangle, in the band `thickness` pixels wide along its edges; every
/// other pixel keeps its value.
pub proof fn lemma_outline_stays_in_border(x: int, y: int, w: int, h: int, thickness: int, px: int, py: int)
    requires
        0 <= x,
        0 <= y,
        x + w <= u32::MAX,
        y + h <= u32::MAX,
        0 <= thickness <= w,
        thickness <= h,
    ensures
        on_outline(x, y, w, h, thickness, px, py) ==> in_border(x, y, w, h, thickness, px, py),
    decreases thickness,
{
    if thickness > 0 {
        lemma_outline_stays_in_border(x, y, w, h, thickness - 1, px, py);
        let t = thickness - 1;
        assert(sat_u32(y + t) == y + t);
        assert(sat_zero(h - 1) == h - 1);
        assert(sat_u32(y + sat_zero(h - 1)) == y + h - 1);
        assert(sat_zero(sat_u32(y + sat_zero(h - 1)) - t) == y + h - 1 - t);
        assert(sat_u32(x + t) == x + t);
        assert(sat_zero(w - 1) == w - 1);
        assert(sat_u32(x + sat_zero(w - 1)) == x + w - 1);
        assert(sat_zero(sat_u32(x + sat_zero(w - 1)) - t) == x + w - 1 - t);
        if outline_ring(x, y, w, h, t, px, py) {
            assert(in_border(x, y, w, h, thickness, px, py));
        }
        if on_outline(x, y, w, h, t, px, py) {
            assert(in_border(x, y, w, h, thickness, px, py));
        }
    }
}

/// Does `r` cover segment `seg` (row `seg.0`, columns `seg.1 ..= seg.2`)?
pub open spec fn covers(r: Rect, seg: (u32, u32, u32)) -> bool {
    &&& r.y <= seg.0 <= r.y2_spec()
    &&& r.x <= seg.1
    &&& seg.2 <= r.x2_spec()
}

/// Does `b` contain all of `a`?
pub open spec fn rect_within(a: Rect, b: Rect) -> bool {
    &&& b.x <= a.x
    &&& a.x2_spec() <= b.x2_spec()
    &&& b.y <= a.y
    &&& a.y2_spec() <= b.y2_spec()
}

/// A rectangle at least one pixel each way whose edges do not saturate.
pub open spec fn well_sized(r: Rect) -> bool {
    &&& r.w >= 1
    &&& r.h >= 1
    &&& r.x + r.w - 1 < 0x4000_0000
    &&& r.y + r.h - 1 <= u32::MAX
}

/// Segments of at most `2^30` columns, ordered rows, each an inclusive span.
pub open spec fn segments_in_order(rows: Seq<(u32, u32, u32)>) -> bool {
    &&& forall|i: int, j: int| 0 <= i <= j < rows.len() ==> rows[i].0 <= rows[j].0
    &&& forall|k: int| 0 <= k < rows.len() ==> (#[trigger] rows[k]).1 <= rows[k].2 < 0x4000_0000
}

proof fn lemma_extend_grows(r: Rect, s0: int, s1: int, y: int)
    requires
        well_sized(r),
        0 <= s0 <= s1 < 0x4000_0000,
        r.y2_spec() <= y <= u32::MAX,
        y < u32::MAX || r.y >= 1,
    ensures
        well_sized(extend_rect(r, s0, s1, y)),
        rect_within(r, extend_rect(r, s0, s1, y)),
        covers(extend_rect(r, s0, s1, y), (y as u32, s0 as u32, s1 as u32)),
        extend_rect(r, s0, s1, y).y2_spec() == y,
{
    let e = extend_rect(r, s0, s1, y);
    assert(r.x2_spec() == r.x + r.w - 1);
    assert(r.y2_spec() == r.y + r.h - 1);
    let x = crate::geometry::min(r.x as int, s0);
    let right = crate::geometry::max(r.x2_spec(), s1);
    assert(e.x == x && e.w == right - x + 1);
    assert(e.y == r.y && e.h == y - r.y + 1);
    assert(e.x2_spec() == right);
    assert(e.y2_spec() == y);
}

proof fn lemma_fresh_rect(s0: int, s1: int, y: int)
    requires
        0 <= s0 <= s1 < 0x4000_0000,
        0 <= y <= u32::MAX,
    ensures
        well_sized(fresh_rect(s0, s1, y)),
        covers(fresh_rect(s0, s1, y), (y as u32, s0 as u32, s1 as u32)),
        fresh_rect(s0, s1, y).y2_spec() == y,
{
}

proof fn lemma_best_upto_index(active: Seq<Rect>, s0: int, s1: int, n: int)
    requires
        n <= active.len(),
    ensures
        crate::geometry::best_upto(active, s0, s1, n).0 matches Some(i) ==> 0 <= i < n,
    decreases n,
{
    if n > 0 {
        lemma_best_upto_index(active, s0, s1, n - 1);
    }
}

/// What matching a row's segments keeps: every continued rectangle has a
/// copy containing it, and every segment matched so far is covered.
#[verifier::spinoff_prover]
#[verifier::rlimit(60)]
proof fn lemma_row_step_covers(active: Seq<Rect>, segments: Seq<(u32, u32, u32)>, y: int, n: int, positive: bool)
    requires
        0 <= n <= segments.len() <= usize::MAX,
        0 <= y <= u32::MAX,
        positive ==> y >= 1 && forall|k: int| 0 <= k < active.len() ==> (#[trigger] active[k]).y >= 1,
        !positive ==> y < u32::MAX,
        forall|k: int| 0 <= k < active.len() ==> well_sized(#[trigger] active[k]) && active[k].y2_spec() < y,
        forall|k: int| 0 <= k < segments.len() ==> (#[trigger] segments[k]).0 == y && segments[k].1 <= segments[k].2
            < 0x4000_0000,
    ensures
        row_step(active, segments, y, n).1.len() == active.len(),
        row_step(active, segments, y, n).0.len() <= n,
        positive ==> forall|q: int| 0 <= q < row_step(active, segments, y, n).0.len() ==> (#[trigger] row_step(
            active,
            segments,
            y,
            n,
        ).0[q]).y >= 1,
        forall|q: int| 0 <= q < row_step(active, segments, y, n).0.len() ==> well_sized(
            #[trigger] row_step(active, segments, y, n).0[q],
        ) && row_step(active, segments, y, n).0[q].y2_spec() == y,
        forall|k: int| 0 <= k < active.len() ==> (#[trigger] row_step(active, segments, y, n).1[k] matches Some(p) ==> p
            < row_step(active, segments, y, n).0.len() && rect_within(active[k], row_step(active, segments, y, n).0[p as int])),
        forall|j: int| #![trigger segments[j]] 0 <= j < n ==> exists|q: int| 0 <= q < row_step(active, segments, y, n).0.len() && covers(
            #[trigger] row_step(active, segments, y, n).0[q], segments[j]),
    decreases n,
{
    if n > 0 {
        lemma_row_step_covers(active, segments, y, n - 1, positive);
        let (next, cont) = row_step(active, segments, y, n - 1);
        let seg = segments[n - 1];
        let s0 = seg.1 as int;
        let s1 = seg.2 as int;
        let (next_all, cont_all) = row_step(active, segments, y, n);
        match continued_by(active, s0, s1) {
            Some(idx) => {
                lemma_best_upto_index(active, s0, s1, active.len() as int);
                assert(0 <= idx < active.len());
                assert(well_sized(active[idx]) && active[idx].y2_spec() < y);
                let (target, next2, cont2) = match cont[idx] {
                    Some(position) => (position as int, next, cont),
                    None => (
                        next.len() as int,
                        next.push(active[idx]),
                        cont.update(idx, Some(next.len() as usize)),
                    ),
                };
                assert(0 <= target < next2.len());
                assert(well_sized(next2[target]) && next2[target].y2_spec() <= y);
                let ext = extend_rect(next2[target], s0, s1, y);
                lemma_extend_grows(next2[target], s0, s1, y);
                assert(next_all == next2.update(target, ext));
                assert(cont_all == cont2);
                assert forall|q: int| 0 <= q < next_all.len() implies well_sized(#[trigger] next_all[q])
                    && next_all[q].y2_spec() == y by {
                    if q != target {
                        assert(next_all[q] == next2[q]);
                        if q < next.len() {
                            assert(next2[q] == next[q]);
                        }
                    }
                }
                assert forall|j: int| #![trigger segments[j]] 0 <= j < n implies exists|q: int| 0 <= q < next_all.len() && covers(
                    #[trigger] next_all[q], segments[j]) by {
                    if j < n - 1 {
                        let q = choose|q: int| 0 <= q < next.len() && covers(#[trigger] next[q], segments[j]);
                        assert(next2[q] == next[q]);
                        if q == target {
                            assert(covers(next_all[q], segments[j]));
                        } else {
                            assert(next_all[q] == next[q]);
                        }
                    } else {
                        assert(seg == (y as u32, s0 as u32, s1 as u32));
                        assert(covers(next_all[target], segments[j]));
                    }
                }
                assert forall|k: int| 0 <= k < active.len() implies (#[trigger] cont_all[k] matches Some(p) ==> p
                    < next_all.len() && rect_within(active[k], next_all[p as int])) by {
                    if let Some(p) = cont_all[k] {
                        if k == idx && cont[idx] is None {
                            assert(p as int == target);
                            assert(next2[target] == active[idx]);
                        } else {
                            assert(cont[k] == Some(p));
                            assert(next2[p as int] == next[p as int]);
                        }
                    }
                }
            },
            None => {
                lemma_fresh_rect(s0, s1, y);
                assert(next_all == next.push(fresh_rect(s0, s1, y)));
                assert(cont_all == cont);
                assert forall|j: int| #![trigger segments[j]] 0 <= j < n implies exists|q: int| 0 <= q < next_all.len() && covers(
                    #[trigger] next_all[q], segments[j]) by {
                    if j < n - 1 {
                        let q = choose|q: int| 0 <= q < next.len() && covers(#[trigger] next[q], segments[j]);
                        assert(next_all[q] == next[q]);
                    } else {
                        assert(seg == (y as u32, s0 as u32, s1 as u32));
                        assert(covers(next_all[next.len() as int], segments[j]));
                    }
                }
                assert forall|k: int| 0 <= k < active.len() implies (#[trigger] cont_all[k] matches Some(p) ==> p
                    < next_all.len() && rect_within(active[k], next_all[p as int])) by {
                    if let Some(p) = cont[k] {
                        assert(next_all[p as int] == next[p as int]);
                    }
                }
            },
        }
    }
}

/// Some rectangle of `rs` covers `seg`.
pub open spec fn covered_by(seg: (u32, u32, u32), rs: Seq<Rect>) -> bool {
    exists|q: int| 0 <= q < rs.len() && covers(#[trigger] rs[q], seg)
}

proof fn lemma_keep_tall_all(rects: Seq<Rect>, min_height: int)
    requires
        forall|k: int| 0 <= k < rects.len() ==> (#[trigger] rects[k]).h >= min_height,
    ensures
        keep_tall(rects, min_height) == rects,
    decreases rects.len(),
{
    if rects.len() > 0 {
        let front = rects.drop_last();
        assert forall|k: int| 0 <= k < front.len() implies (#[trigger] front[k]).h >= min_height by {
            assert(front[k] == rects[k]);
        }
        lemma_keep_tall_all(front, min_height);
        assert(rects.last() == rects[rects.len() - 1]);
        assert(front.push(rects.last()) =~= rects);
    }
}

proof fn lemma_finished_keeps(active: Seq<Rect>, cont: Seq<Option<usize>>, min_height: int, n: int)
    requires
        0 <= n <= active.len(),
        n <= cont.len(),
    ensures
        forall|k: int| 0 <= k < n && cont[k] is None && active[k].h >= min_height ==> exists|q: int|
            0 <= q < finished(active, cont, min_height, n).len() && #[trigger] finished(active, cont, min_height, n)[q]
                == #[trigger] active[k],
        forall|q: int| 0 <= q < finished(active, cont, min_height, n).len() ==> exists|k: int|
            0 <= k < n && #[trigger] finished(active, cont, min_height, n)[q] == active[k],
    decreases n,
{
    if n > 0 {
        lemma_finished_keeps(active, cont, min_height, n - 1);
        let front = finished(active, cont, min_height, n - 1);
        let all = finished(active, cont, min_height, n);
        assert forall|k: int| 0 <= k < n && cont[k] is None && active[k].h >= min_height implies exists|q: int|
            0 <= q < all.len() && #[trigger] all[q] == #[trigger] active[k] by {
            if k < n - 1 {
                let q = choose|q: int| 0 <= q < front.len() && #[trigger] front[q] == active[k];
                assert(all[q] == front[q]);
            } else {
                assert(all[front.len() as int] == active[k]);
            }
        }
        assert forall|q: int| 0 <= q < all.len() implies exists|k: int| 0 <= k < n && #[trigger] all[q] == active[k] by {
            if q < front.len() {
                assert(all[q] == front[q]);
                let k = choose|k: int| 0 <= k < n - 1 && #[trigger] front[q] == active[k];
                assert(all[q] == active[k]);
            } else {
                assert(all[q] == active[n - 1]);
            }
        }
    }
}

/// The grouping state after the rows before `i`: active rectangles well
/// sized and ending at the last row seen, which lies above row `i`; every
/// earlier segment covered by an active or a completed rectangle.
spec fn group_inv(rows: Seq<(u32, u32, u32)>, i: int, state: GroupState, positive: bool) -> bool {
    &&& 0 <= i <= rows.len()
    &&& positive ==> forall|k: int| 0 <= k < state.0.len() ==> (#[trigger] state.0[k]).y >= 1
    &&& forall|k: int| 0 <= k < state.0.len() ==> well_sized(#[trigger] state.0[k]) && state.2 is Some
        && state.0[k].y2_spec() <= state.2.unwrap()
    &&& forall|k: int| 0 <= k < state.1.len() ==> (#[trigger] state.1[k]).h >= 1
    &&& (state.2 is Some && i < rows.len() ==> state.2.unwrap() < rows[i].0)
    &&& forall|j: int| 0 <= j < i ==> covered_by(#[trigger] rows[j], state.0 + state.1)
}

#[verifier::spinoff_prover]
#[verifier::rlimit(80)]
proof fn lemma_group_step(rows: Seq<(u32, u32, u32)>, i: int, state: GroupState, min_height: int, max_gap: int, positive: bool)
    requires
        segments_in_order(rows),
        rows.len() <= usize::MAX,
        positive ==> forall|k: int| 0 <= k < rows.len() ==> (#[trigger] rows[k]).0 >= 1,
        !positive ==> forall|k: int| 0 <= k < rows.len() ==> (#[trigger] rows[k]).0 < u32::MAX,
        min_height <= 1,
        group_inv(rows, i, state, positive),
        i < rows.len(),
    ensures
        group_inv(
            rows,
            row_group_end(rows, rows[i].0, i + 1),
            after_row(
                state,
                rows[i].0,
                rows.subrange(i, row_group_end(rows, rows[i].0, i + 1)),
                min_height,
                max_gap,
            ),
            positive,
        ),
{
    let y = rows[i].0;
    lemma_row_group_end(rows, y, i + 1);
    let j = row_group_end(rows, y, i + 1);
    let segs = rows.subrange(i, j);
    let gap = gap_before(state.2, y as int, max_gap);
    let active = if gap { seq![] } else { state.0 };
    lemma_keep_tall_all(state.0, min_height);
    let completed1 = if gap { state.1 + keep_tall(state.0, min_height) } else { state.1 };
    assert(completed1 == if gap { state.1 + state.0 } else { state.1 });
    assert forall|k: int| 0 <= k < segs.len() implies (#[trigger] segs[k]).0 == y && segs[k].1 <= segs[k].2
        < 0x4000_0000 by {
        assert(segs[k] == rows[i + k]);
    }
    assert forall|k: int| 0 <= k < active.len() implies well_sized(#[trigger] active[k]) && active[k].y2_spec() < y by {
        assert(active[k] == state.0[k]);
    }
    lemma_row_step_covers(active, segs, y as int, segs.len() as int, positive);
    let (next, cont) = row_step(active, segs, y as int, segs.len() as int);
    lemma_finished_keeps(active, cont, min_height, active.len() as int);
    let fin = finished(active, cont, min_height, active.len() as int);
    let completed = completed1 + fin;
    let after = after_row(state, y, segs, min_height, max_gap);
    assert(after == (next, completed, Some(y)));
    let union = next + completed;
    // Completed rectangles are at least one row tall.
    assert forall|k: int| 0 <= k < completed.len() implies (#[trigger] completed[k]).h >= 1 by {
        if k < completed1.len() {
            if k >= state.1.len() {
                assert(completed1[k] == state.0[k - state.1.len()]);
            } else {
                assert(completed1[k] == state.1[k]);
            }
        } else {
            let kk = choose|kk: int| 0 <= kk < active.len() && #[trigger] fin[k - completed1.len()] == active[kk];
            assert(completed[k] == fin[k - completed1.len()]);
        }
    }
    // The next row, if any, lies below this one.
    if j < rows.len() {
        assert(rows[i].0 <= rows[j].0);
    }
    // Segments before this row stay covered.
    assert forall|jj: int| 0 <= jj < j implies covered_by(#[trigger] rows[jj], union) by {
        if jj >= i {
            assert(segs[jj - i] == rows[jj]);
            let q = choose|q: int| 0 <= q < next.len() && covers(#[trigger] next[q], segs[jj - i]);
            assert(union[q] == next[q]);
        } else {
            let old_union = state.0 + state.1;
            let q = choose|q: int| 0 <= q < old_union.len() && covers(#[trigger] old_union[q], rows[jj]);
            if q >= state.0.len() {
                assert(old_union[q] == state.1[q - state.0.len()]);
                assert(completed[q - state.0.len()] == state.1[q - state.0.len()]);
                assert(union[next.len() + q - state.0.len()] == completed[q - state.0.len()]);
            } else {
                let r = state.0[q];
                assert(old_union[q] == r);
                if gap {
                    assert(completed1[state.1.len() + q] == r);
                    assert(union[next.len() + state.1.len() + q] == completed[state.1.len() + q]);
                } else {
                    assert(active[q] == r);
                    match cont[q] {
                        Some(p) => {
                            assert(rect_within(r, next[p as int]));
                            assert(union[p as int] == next[p as int]);
                            assert(covers(union[p as int], rows[jj]));
                        },
                        None => {
                            assert(r.h >= 1);
                            let f = choose|f: int| 0 <= f < fin.len() && #[trigger] fin[f] == #[trigger] active[q];
                            assert(union[next.len() + completed1.len() + f] == fin[f]);
                            assert(covers(union[next.len() + completed1.len() + f], rows[jj]));
                        },
                    }
                }
            }
        }
    }
}

proof fn lemma_group_from_covers(rows: Seq<(u32, u32, u32)>, i: int, state: GroupState, min_height: int, max_gap: int, positive: bool)
    requires
        segments_in_order(rows),
        rows.len() <= usize::MAX,
        positive ==> forall|k: int| 0 <= k < rows.len() ==> (#[trigger] rows[k]).0 >= 1,
        !positive ==> forall|k: int| 0 <= k < rows.len() ==> (#[trigger] rows[k]).0 < u32::MAX,
        min_height <= 1,
        group_inv(rows, i, state, positive),
    ensures
        forall|k: int| 0 <= k < rows.len() ==> covered_by(#[trigger] rows[k], group_from(rows, i, state, min_height, max_gap)),
    decreases rows.len() - i,
{
    if i >= rows.len() {
        assert forall|k: int| 0 <= k < state.0.len() implies (#[trigger] state.0[k]).h >= min_height by {
            assert(well_sized(state.0[k]));
        }
        lemma_keep_tall_all(state.0, min_height);
        let out = state.1 + state.0;
        assert(group_from(rows, i, state, min_height, max_gap) == out);
        assert forall|k: int| 0 <= k < rows.len() implies covered_by(#[trigger] rows[k], out) by {
            let both = state.0 + state.1;
            let q = choose|q: int| 0 <= q < both.len() && covers(#[trigger] both[q], rows[k]);
            if q < state.0.len() {
                assert(both[q] == state.0[q]);
                assert(out[state.1.len() + q] == state.0[q]);
            } else {
                assert(both[q] == state.1[q - state.0.len()]);
                assert(out[q - state.0.len()] == state.1[q - state.0.len()]);
            }
        }
    } else {
        let y = rows[i].0;
        lemma_row_group_end(rows, y, i + 1);
        let j = row_group_end(rows, y, i + 1);
        lemma_group_step(rows, i, state, min_height, max_gap, positive);
        let next = after_row(state, y, rows.subrange(i, j), min_height, max_gap);
        lemma_group_from_covers(rows, j, next, min_height, max_gap, positive);
        assert(group_from(rows, i, state, min_height, max_gap) == group_from(rows, j, next, min_height, max_gap));
    }
}

/// Grouping (`group_segments`) keeps every segment: when no rectangle is
/// dropped for its height (`min_height` at most 1) and the segments come
/// row by row from the top, each segment lies inside one of the rectangles
/// returned. (Columns stop short of `2^30`, and rows do not run from row 0
/// to row `u32::MAX`, where the rectangles' sizes would saturate.)
pub proof fn lemma_grouped_rects_cover_their_segments(rows: Seq<(u32, u32, u32)>, min_height: int, max_gap: int)
    requires
        segments_in_order(rows),
        rows.len() <= usize::MAX,
        (forall|k: int| 0 <= k < rows.len() ==> (#[trigger] rows[k]).0 >= 1) || (forall|k: int|
            0 <= k < rows.len() ==> (#[trigger] rows[k]).0 < u32::MAX),
        min_height <= 1,
    ensures
        forall|k: int| 0 <= k < rows.len() ==> covered_by(#[trigger] rows[k], grouped(rows, min_height, max_gap)),
{
    let start: GroupState = (seq![], seq![], None);
    let positive = forall|k: int| 0 <= k < rows.len() ==> (#[trigger] rows[k]).0 >= 1;
    assert(group_inv(rows, 0, start, positive));
    lemma_group_from_covers(rows, 0, start, min_height, max_gap, positive);
}

/// No typographic quote, dash or no-break space in `s`: every character is
/// already plain.
pub open spec fn plain_text(s: Seq<char>) -> bool {
    forall|i: int| 0 <= i < s.len() ==> plain_char(#[trigger] s[i]) == s[i]
}

proof fn lemma_trim_start_range(s: Seq<char>) -> (k: int)
    ensures
        0 <= k <= s.len(),
        trim_start(s) == s.subrange(k, s.len() as int),
    decreases s.len(),
{
    if s.len() > 0 && is_white_space(s[0]) {
        let k = lemma_trim_start_range(s.drop_first());
        assert(s.drop_first().subrange(k, s.drop_first().len() as int) =~= s.subrange(k + 1, s.len() as int));
        k + 1
    } else {
        assert(s.subrange(0, s.len() as int) =~= s);
        0
    }
}

/// Trimming leaves a piece of the text.
proof fn lemma_trim_range(s: Seq<char>) -> (r: (int, int))
    ensures
        0 <= r.0 <= r.1 <= s.len(),
        trim(s) == s.subrange(r.0, r.1),
{
    let k = lemma_trim_start_range(s);
    let u = trim_start(s);
    lemma_trim_end_keeps(u);
    let n = trim_end(u).len() as int;
    assert(trim(s) =~= s.subrange(k, k + n));
    (k, k + n)
}

/// Text with no white space at either end is its own trim.
proof fn lemma_trim_of_trimmed(s: Seq<char>)
    requires
        s.len() > 0 ==> !is_white_space(s[0]) && !is_white_space(s.last()),
    ensures
        trim(s) == s,
{
    assert(trim_start(s) == s);
}

proof fn lemma_split_without_separator(s: Seq<char>, sep: char)
    requires
        forall|i: int| 0 <= i < s.len() ==> #[trigger] s[i] != sep,
    ensures
        split_on(s, sep) == seq![s],
    decreases s.len(),
{
    if s.len() > 0 {
        let front = s.drop_last();
        assert forall|i: int| 0 <= i < front.len() implies #[trigger] front[i] != sep by {
            assert(front[i] == s[i]);
        }
        lemma_split_without_separator(front, sep);
        assert(s.last() == s[s.len() - 1]);
        assert(front.push(s.last()) =~= s);
        assert(split_on(front, sep).last() == front);
        assert(split_on(s, sep) =~= seq![s]);
    } else {
        assert(s =~= Seq::<char>::empty());
    }
}

proof fn lemma_filter_keeps_all(s: Seq<char>)
    requires
        forall|i: int| 0 <= i < s.len() ==> #[trigger] s[i] != '\r',
    ensures
        s.filter(|c: char| c != '\r') == s,
    decreases s.len(),
{
    reveal_with_fuel(Seq::filter, 1);
    if s.len() > 0 {
        let front = s.drop_last();
        assert forall|i: int| 0 <= i < front.len() implies #[trigger] front[i] != '\r' by {
            assert(front[i] == s[i]);
        }
        lemma_filter_keeps_all(front);
        assert(s.last() == s[s.len() - 1]);
        assert(front.push(s.last()) =~= s);
    }
}

/// Normalised OCR text (`normalize_text`) holds no typographic quote,
/// dash or no-break space, and normalising it again changes nothing.
pub proof fn lemma_normalized_is_plain_and_stable(text: Seq<char>)
    ensures
        plain_text(normalized(text)),
        normalized(normalized(text)) == normalized(text),
{
    let cleaned = text.filter(|c: char| c != '\r');
    let joined = join_spaced(kept_lines(split_on(cleaned, '\n')));
    let mapped = joined.map_values(|c: char| plain_char(c));
    assert forall|i: int| 0 <= i < mapped.len() implies plain_char(#[trigger] mapped[i]) == mapped[i] by {}
    let t = normalized(text);
    let (a, b) = lemma_trim_range(mapped);
    assert(t == mapped.subrange(a, b));
    assert forall|i: int| 0 <= i < t.len() implies plain_char(#[trigger] t[i]) == t[i] by {
        assert(t[i] == mapped[a + i]);
    }
    lemma_normalized_is_one_trimmed_line(text);
    // Normalising `t` again: nothing to drop, one line, already trimmed
    // and plain.
    assert forall|i: int| 0 <= i < t.len() implies #[trigger] t[i] != '\r' by {}
    lemma_filter_keeps_all(t);
    assert forall|i: int| 0 <= i < t.len() implies #[trigger] t[i] != '\n' by {}
    lemma_split_without_separator(t, '\n');
    lemma_trim_of_trimmed(t);
    let keep = |l: Seq<char>| if trim(l).len() > 0 { Some(trim(l)) } else { None };
    let lines = seq![t];
    let kept = kept_lines(lines);
    assert(kept == lines.filter_map(keep));
    Seq::<Seq<char>>::lemma_filter_map_singleton(t, keep);
    if t.len() > 0 {
        assert(kept =~= seq![t]);
        assert(join_spaced(kept) == t);
    } else {
        assert(kept =~= Seq::<Seq<char>>::empty());
        assert(join_spaced(kept) =~= t);
    }
    assert(t.map_values(|c: char| plain_char(c)) =~= t);
}

proof fn lemma_constant_counts(s: Seq<u8>, v: u8)
    requires
        forall|i: int| 0 <= i < s.len() ==> #[trigger] s[i] == v,
    ensures
        count_below(s, v as int) == 0,
        count_equal(s, v as int) == s.len(),
    decreases s.len(),
{
    if s.len() > 0 {
        let front = s.drop_last();
        assert forall|i: int| 0 <= i < front.len() implies #[trigger] front[i] == v by {
            assert(front[i] == s[i]);
        }
        lemma_constant_counts(front, v);
        assert(s.last() == s[s.len() - 1]);
    }
}

/// The median of samples that all have one value is that value.
proof fn lemma_median_of_constant(s: Seq<u8>, v: u8)
    requires
        s.len() > 0,
        forall|i: int| 0 <= i < s.len() ==> #[trigger] s[i] == v,
    ensures
        median(s) == v,
{
    lemma_constant_counts(s, v);
    assert(is_kth_smallest(s, (s.len() / 2) as int, v));
    lemma_kth_unique(s, (s.len() / 2) as int, median(s), v);
}

proof fn lemma_median_color_of_constant(samples: Seq<[u8; 3]>, c: [u8; 3])
    requires
        samples.len() > 0,
        forall|i: int| 0 <= i < samples.len() ==> #[trigger] samples[i] == c,
    ensures
        median_color(samples)[0] == c[0],
        median_color(samples)[1] == c[1],
        median_color(samples)[2] == c[2],
{
    assert forall|k: int| 0 <= k < 3 implies median(channel(samples, k)) == c[k] by {
        let ch = channel(samples, k);
        assert forall|i: int| 0 <= i < ch.len() implies #[trigger] ch[i] == c[k] by {
            assert(samples[i] == c);
        }
        lemma_median_of_constant(ch, c[k]);
    }
}

proof fn lemma_column_samples_constant(image: Frame, x: int, ys: int, n: int, filled: spec_fn(int, int) -> bool, c: [u8; 3])
    requires
        forall|y: int| ys <= y < ys + n ==> #[trigger] rgb(image.pixel(x, y)) == c,
    ensures
        forall|i: int| 0 <= i < column_samples(image, x, ys, n, filled).len() ==> #[trigger] column_samples(
            image,
            x,
            ys,
            n,
            filled,
        )[i] == c,
    decreases n,
{
    if n > 0 {
        lemma_column_samples_constant(image, x, ys, n - 1, filled, c);
        assert(rgb(image.pixel(x, ys + n - 1)) == c);
        let front = column_samples(image, x, ys, n - 1, filled);
        let all = column_samples(image, x, ys, n, filled);
        assert forall|i: int| 0 <= i < all.len() implies #[trigger] all[i] == c by {
            if i < front.len() {
                assert(all[i] == front[i]);
            }
        }
    }
}

proof fn lemma_window_samples_constant(image: Frame, x0: int, cols: int, ys: int, rows: int, filled: spec_fn(int, int) -> bool, c: [u8; 3])
    requires
        forall|x: int, y: int| x0 <= x < x0 + cols && ys <= y < ys + rows ==> #[trigger] rgb(image.pixel(x, y)) == c,
    ensures
        forall|i: int| 0 <= i < window_samples(image, x0, cols, ys, rows, filled).len() ==> #[trigger] window_samples(
            image,
            x0,
            cols,
            ys,
            rows,
            filled,
        )[i] == c,
    decreases cols,
{
    if cols > 0 {
        lemma_window_samples_constant(image, x0, cols - 1, ys, rows, filled, c);
        let x = x0 + cols - 1;
        assert forall|y: int| ys <= y < ys + rows implies #[trigger] rgb(image.pixel(x, y)) == c by {}
        lemma_column_samples_constant(image, x, ys, rows, filled, c);
        let front = window_samples(image, x0, cols - 1, ys, rows, filled);
        let back = column_samples(image, x, ys, rows, filled);
        let all = window_samples(image, x0, cols, ys, rows, filled);
        assert(all == front + back);
        assert forall|i: int| 0 <= i < all.len() implies #[trigger] all[i] == c by {
            if i < front.len() {
                assert(all[i] == front[i]);
            } else {
                assert(all[i] == back[i - front.len()]);
            }
        }
    }
}

proof fn lemma_votes_none(image: Frame, x: int, ys: int, verdicts: Seq<bool>, n: int)
    requires
        n <= verdicts.len(),
        forall|r: int| 0 <= r < verdicts.len() ==> !#[trigger] verdicts[r],
    ensures
        filled_votes(verdicts, n) == 0,
        empty_votes(image, x, ys, verdicts, None, n) == 0,
    decreases n,
{
    if n > 0 {
        lemma_votes_none(image, x, ys, verdicts, n - 1);
    }
}

proof fn lemma_walk_stays_empty(kinds: Seq<ColumnKind>, i: int)
    requires
        0 <= i <= kinds.len(),
        forall|j: int| 0 <= j < kinds.len() && !(#[trigger] walk(kinds.take(j), 0, 0)).3 ==> kinds[j] == ColumnKind::Neither,
    ensures
        walk(kinds.take(i), 0, 0).0 == 0,
        walk(kinds.take(i), 0, 0).1 == 0,
    decreases i,
{
    if i > 0 {
        lemma_walk_stays_empty(kinds, i - 1);
        assert(kinds.take(i).drop_last() =~= kinds.take(i - 1));
        assert(kinds.take(i).last() == kinds[i - 1]);
    }
}

/// A frame of one colour that the fill test rejects holds no bar, wherever
/// the colour just above the bar can be sampled: with no filled column and
/// no groove distinct from its surroundings, no track can be established
/// and `measure_bar_fill` reports nothing, rather than a made-up empty bar.
#[verifier::spinoff_prover]
#[verifier::rlimit(60)]
pub proof fn lemma_uniform_frame_has_no_bar<F: Fn(&Pixel) -> bool>(
    is_filled: F,
    image: Frame,
    p: Pixel,
    fill: Rect,
    search: Rect,
    groove: spec_fn(int, int) -> bool,
    left: Seq<Seq<bool>>,
    right: Seq<Seq<bool>>,
)
    requires
        forall|x: int, y: int| image.in_bounds(x, y) ==> #[trigger] image.pixel(x, y) == p@,
        forall|v: bool| #[trigger] is_filled.ensures((&p,), v) ==> !v,
        bar_verdicts(is_filled, image, fill, search, groove, left, right),
        fill.y >= 3,
        fill.x < image.width_spec(),
    ensures
        bar_fill(image, fill, search, groove, left, right) is None,
{
    if fill.w == 0 || fill.h == 0 {
        return;
    }
    match core_rows(image.height_spec(), fill) {
        None => {},
        Some((ys, ye)) => {
            let c = rgb(p@);
            assert(0 <= ys < ye <= image.height_spec());
            // The groove colour: whatever was sampled is the frame's one
            // colour, which is also the colour above the bar.
            let color = groove_color(image, fill, search, groove);
            let (x0, cols) = groove_window(image, fill, search);
            assert forall|x: int, y: int| x0 <= x < x0 + cols && ys <= y < ys + (ye - ys) implies #[trigger] rgb(
                image.pixel(x, y),
            ) == c by {
                assert(image.in_bounds(x, y));
            }
            lemma_window_samples_constant(image, x0, cols, ys, ye - ys, groove, c);
            let samples = window_samples(image, x0, cols, ys, ye - ys, groove);
            if samples.len() > 0 {
                lemma_median_color_of_constant(samples, c);
                match outside_color(image, fill) {
                    None => {
                        assert(image.in_bounds(fill.x as int, fill.y - 3));
                    },
                    Some(outside) => {
                        let n = crate::geometry::min(
                            crate::geometry::sat_add(fill.x as int, fill.w as int),
                            image.width_spec(),
                        ) - fill.x;
                        let above = row_colors(image, fill.y - 3, fill.x as int, n);
                        assert forall|i: int| 0 <= i < above.len() implies #[trigger] above[i] == c by {
                            assert(image.in_bounds(fill.x + i, fill.y - 3));
                        }
                        lemma_median_color_of_constant(above, c);
                    },
                }
            }
            assert(color is None);
            // Every column the walks reach is neither filled nor groove.
            let lk = left_kinds(image, fill, search, ys, ye, color, left);
            assert forall|j: int| 0 <= j < lk.len() && !(#[trigger] walk(lk.take(j), 0, 0)).3 implies lk[j]
                == ColumnKind::Neither by {
                let x = fill.x - j;
                if x < image.width_spec() {
                    let v = left[j];
                    assert forall|r: int| 0 <= r < v.len() implies !#[trigger] v[r] by {
                        assert(image.in_bounds(x, ys + r));
                        assert(is_filled.ensures((&p,), v[r]));
                    }
                    lemma_votes_none(image, x, ys, v, ye - ys);
                }
            }
            lemma_walk_stays_empty(lk, lk.len() as int);
            assert(lk.take(lk.len() as int) =~= lk);
            let rk = right_kinds(image, fill, search, ys, ye, color, right);
            assert forall|j: int| 0 <= j < rk.len() && !(#[trigger] walk(rk.take(j), 0, 0)).3 implies rk[j]
                == ColumnKind::Neither by {
                let x = crate::geometry::sat_add(fill.x as int, 1) + j;
                if x < image.width_spec() {
                    let v = right[j];
                    assert forall|r: int| 0 <= r < v.len() implies !#[trigger] v[r] by {
                        assert(image.in_bounds(x, ys + r));
                        assert(is_filled.ensures((&p,), v[r]));
                    }
                    lemma_votes_none(image, x, ys, v, ye - ys);
                }
            }
            lemma_walk_stays_empty(rk, rk.len() as int);
            assert(rk.take(rk.len() as int) =~= rk);
        },
    }
}

/// Distinct characters of the font are drawn differently: no two
/// characters that have a glyph share its bitmap.
pub proof fn lemma_glyphs_are_distinct(a: char, b: char)
    requires
        glyph_table(a) is Some,
        a != b,
    ensures
        glyph_table(a) != glyph_table(b),
{
}

/// The largest of a list of rectangles: there is one exactly when the list
/// is not empty; it is one of them, no rectangle of the list has a larger
/// area, and every one after it has a smaller area.
pub proof fn lemma_largest_is_largest(rects: Seq<Rect>)
    ensures
        largest(rects) is None <==> rects.len() == 0,
        largest(rects) matches Some(r) ==> exists|k: int|
            0 <= k < rects.len() && rects[k] == r && forall|j: int| k < j < rects.len() ==> (#[trigger] rects[j]).area_spec() < r.area_spec(),
        largest(rects) matches Some(r) ==> forall|j: int| 0 <= j < rects.len() ==> (#[trigger] rects[j]).area_spec() <= r.area_spec(),
    decreases rects.len(),
{
    if rects.len() > 0 {
        let front = rects.drop_last();
        lemma_largest_is_largest(front);
        let last = rects.len() - 1;
        match largest(front) {
            None => {
                assert(rects[last] == rects.last());
            },
            Some(best) => {
                if rects.last().area_spec() >= best.area_spec() {
                    assert(rects[last] == rects.last());
                    assert forall|j: int| 0 <= j < rects.len() implies (#[trigger] rects[j]).area_spec() <= rects.last().area_spec() by {
                        if j < last {
                            assert(rects[j] == front[j]);
                        }
                    }
                } else {
                    let k = choose|k: int|
                        0 <= k < front.len() && front[k] == best && forall|j: int| k < j < front.len() ==> (#[trigger] front[j]).area_spec() < best.area_spec();
                    assert(rects[k] == best);
                    assert forall|j: int| k < j < rects.len() implies (#[trigger] rects[j]).area_spec() < best.area_spec() by {
                        if j < last {
                            assert(rects[j] == front[j]);
                        }
                    }
                    assert forall|j: int| 0 <= j < rects.len() implies (#[trigger] rects[j]).area_spec() <= best.area_spec() by {
                        if j < last {
                            assert(rects[j] == front[j]);
                        }
                    }
                }
            },
        }
    }
}

proof fn lemma_row_steps_agree(a: Frame, b: Frame, y: int, x0: int, n: int, threshold: int)
    requires
        forall|i: int| 0 <= i < n ==> #[trigger] step_at(a, x0 + i, y) == step_at(b, x0 + i, y),
    ensures
        row_steps(a, y, x0, n, threshold) == row_steps(b, y, x0, n, threshold),
    decreases n,
{
    if n > 0 {
        lemma_row_steps_agree(a, b, y, x0, n - 1, threshold);
        assert(step_at(a, x0 + (n - 1), y) == step_at(b, x0 + (n - 1), y));
    }
}

proof fn lemma_block_steps_agree(a: Frame, b: Frame, x0: int, cols: int, y0: int, rows: int, threshold: int)
    requires
        forall|i: int, k: int| 0 <= i < cols && 0 <= k < rows ==> #[trigger] step_at(a, x0 + i, y0 + k) == step_at(b, x0 + i, y0 + k),
    ensures
        block_steps(a, x0, cols, y0, rows, threshold) == block_steps(b, x0, cols, y0, rows, threshold),
    decreases rows,
{
    if rows > 0 {
        lemma_block_steps_agree(a, b, x0, cols, y0, rows - 1, threshold);
        assert forall|i: int| 0 <= i < cols implies #[trigger] step_at(a, x0 + i, y0 + (rows - 1)) == step_at(
            b,
            x0 + i,
            y0 + (rows - 1),
        ) by {
            assert(step_at(a, x0 + i, y0 + (rows - 1)) == step_at(b, x0 + i, y0 + (rows - 1)));
        }
        lemma_row_steps_agree(a, b, y0 + rows - 1, x0, cols, threshold);
    }
}

/// The steps counted in a region are steps between the region's own
/// pixels: two frames of one size that agree on every pixel of the region
/// count the same steps there, at every threshold, whatever lies outside.
pub proof fn lemma_steps_depend_only_on_the_region(a: Frame, b: Frame, region: Rect, threshold: int)
    requires
        a.width_spec() == b.width_spec(),
        a.height_spec() == b.height_spec(),
        forall|x: int, y: int|
            region.x <= x < region.x + region.w && region.y <= y < region.y + region.h && a.in_bounds(x, y)
                ==> #[trigger] a.pixel(x, y) == b.pixel(x, y),
    ensures
        region_steps(a, region, threshold) == region_steps(b, region, threshold),
{
    let x0 = region.x as int;
    let y0 = region.y as int;
    let cols = step_cols(a, region);
    let rows = row_count(a, region);
    assert(step_cols(b, region) == cols);
    assert(row_count(b, region) == rows);
    assert forall|i: int, k: int| 0 <= i < cols && 0 <= k < rows implies #[trigger] step_at(a, x0 + i, y0 + k) == step_at(
        b,
        x0 + i,
        y0 + k,
    ) by {
        assert(a.in_bounds(x0 + i, y0 + k));
        assert(a.in_bounds(x0 + i + 1, y0 + k));
        assert(a.pixel(x0 + i, y0 + k) == b.pixel(x0 + i, y0 + k));
        assert(a.pixel(x0 + i + 1, y0 + k) == b.pixel(x0 + i + 1, y0 + k));
    }
    lemma_block_steps_agree(a, b, x0, cols, y0, rows, threshold);
}

/// Do four ambiguous columns stand together at `i`?
pub open spec fn ambiguous_at(kinds: Seq<ColumnKind>, i: int) -> bool {
    &&& 0 <= i && i + 3 < kinds.len()
    &&& kinds[i] == ColumnKind::Neither
    &&& kinds[i + 1] == ColumnKind::Neither
    &&& kinds[i + 2] == ColumnKind::Neither
    &&& kinds[i + 3] == ColumnKind::Neither
}

/// How many columns of `kinds` are filled.
pub open spec fn filled_count(kinds: Seq<ColumnKind>) -> nat
    decreases kinds.len(),
{
    if kinds.len() == 0 {
        0
    } else {
        filled_count(kinds.drop_last()) + if kinds.last() == ColumnKind::Filled { 1nat } else { 0nat }
    }
}

proof fn lemma_walk_holds_back(kinds: Seq<ColumnKind>, filled: int, track: int)
    ensures
        ({
            let w = walk(kinds, filled, track);
            &&& !w.3 ==> {
                &&& w.1 + w.2 == track + kinds.len()
                &&& w.0 >= filled + filled_count(kinds)
                &&& 0 <= w.2 <= 3
                &&& w.2 <= kinds.len()
                &&& forall|j: int| kinds.len() - w.2 <= j < kinds.len() ==> #[trigger] kinds[j] == ColumnKind::Neither
                &&& w.2 < kinds.len() ==> kinds[kinds.len() - 1 - w.2] != ColumnKind::Neither
            }
            &&& w.3 ==> exists|i: int| ambiguous_at(kinds, i)
        }),
    decreases kinds.len(),
{
    if kinds.len() > 0 {
        let front = kinds.drop_last();
        let n = kinds.len() - 1;
        lemma_walk_holds_back(front, filled, track);
        let before = walk(front, filled, track);
        assert forall|j: int| 0 <= j < n implies kinds[j] == #[trigger] front[j] by {}
        if before.3 {
            let i = choose|i: int| ambiguous_at(front, i);
            assert(ambiguous_at(kinds, i));
        } else {
            let p = before.2;
            if kinds.last() == ColumnKind::Neither && p + 1 > 3 {
                assert(front[n - 1] == ColumnKind::Neither);
                assert(front[n - 2] == ColumnKind::Neither);
                assert(front[n - 3] == ColumnKind::Neither);
                assert(ambiguous_at(kinds, n - 3));
            } else if kinds.last() == ColumnKind::Neither {
                let w = walk(kinds, filled, track);
                assert forall|j: int| kinds.len() - w.2 <= j < kinds.len() implies #[trigger] kinds[j] == ColumnKind::Neither by {
                    if j < n {
                        assert(front[j] == ColumnKind::Neither);
                    }
                }
                if w.2 < kinds.len() {
                    assert(front[n - 1 - p] != ColumnKind::Neither);
                }
            }
        }
    }
}

/// A walk along a bar does not end at a short stretch of ambiguous
/// columns, such as the blend where the fill meets the groove: it ends only
/// where more than three ambiguous columns stand together. Where none do
/// and the last column is filled or groove, every column counts as track,
/// the ambiguous ones included, and every filled column counts as filled.
pub proof fn lemma_short_ambiguity_does_not_end_walk(kinds: Seq<ColumnKind>, filled: int, track: int)
    ensures
        walk(kinds, filled, track).3 ==> exists|i: int| ambiguous_at(kinds, i),
        (forall|i: int| !ambiguous_at(kinds, i)) && kinds.len() > 0 && kinds.last() != ColumnKind::Neither ==> {
            &&& !walk(kinds, filled, track).3
            &&& walk(kinds, filled, track).1 == track + kinds.len()
            &&& walk(kinds, filled, track).0 >= filled + filled_count(kinds)
        },
{
    lemma_walk_holds_back(kinds, filled, track);
}

/// The rectangle that segments `[a, b]` on rows `first ..= last` form.
pub open spec fn column_rect(a: u32, b: u32, first: u32, last: u32) -> Rect {
    Rect { x: a, y: first, w: (b - a + 1) as u32, h: (last - first + 1) as u32 }
}

/// The rows hold one segment each, all spanning `rows[0]`'s columns, on
/// rows that follow each other with gaps of at most `max_gap` rows.
pub open spec fn stacked_with_small_gaps(rows: Seq<(u32, u32, u32)>, max_gap: int) -> bool {
    &&& forall|k: int| 0 <= k < rows.len() ==> (#[trigger] rows[k]).1 == rows[0].1 && rows[k].2 == rows[0].2
    &&& forall|k: int| 0 < k < rows.len() ==> rows[k - 1].0 < (#[trigger] rows[k]).0 <= rows[k - 1].0 + max_gap + 1
}

/// A lone segment with nothing active starts a fresh rectangle.
proof fn lemma_lone_segment_starts(seg: (u32, u32, u32), y: int)
    ensures
        row_step(seq![], seq![seg], y, 1).0 == seq![fresh_rect(seg.1 as int, seg.2 as int, y)],
{
    let none = row_step(seq![], seq![seg], y, 0);
    assert(none.0 == Seq::<Rect>::empty());
    assert(continued_by(seq![], seg.1 as int, seg.2 as int) is None);
    assert(none.0.push(fresh_rect(seg.1 as int, seg.2 as int, y)) =~= seq![fresh_rect(seg.1 as int, seg.2 as int, y)]);
}

/// A lone segment over exactly the columns of the one active rectangle
/// continues it.
proof fn lemma_lone_segment_continues(rect: Rect, seg: (u32, u32, u32), y: int)
    requires
        rect.x == seg.1,
        seg.1 <= seg.2,
        rect.w as int == seg.2 - seg.1 + 1,
    ensures
        row_step(seq![rect], seq![seg], y, 1).0 == seq![extend_rect(rect, seg.1 as int, seg.2 as int, y)],
        row_step(seq![rect], seq![seg], y, 1).1 == seq![Some(0usize)],
{
    let a = seg.1 as int;
    let b = seg.2 as int;
    let none = row_step(seq![rect], seq![seg], y, 0);
    assert(none.0 == Seq::<Rect>::empty());
    assert(none.1 =~= seq![None::<usize>]);
    assert(rect.x2_spec() == b);
    assert(crate::geometry::best_upto(seq![rect], a, b, 0) == (None::<int>, 0int));
    assert(crate::geometry::rect_overlap(seq![rect][0], a, b) == b - a + 1);
    assert(crate::geometry::best_upto(seq![rect], a, b, 1) == (Some(0int), b - a + 1));
    assert(continued_by(seq![rect], a, b) == Some(0int));
    let grown = none.0.push(rect);
    let cont = none.1.update(0, Some(0usize));
    assert(cont =~= seq![Some(0usize)]);
    assert(grown.update(0, extend_rect(grown[0], a, b, y)) =~= seq![extend_rect(rect, a, b, y)]);
}

/// After a row whose one segment continues the one active rectangle, that
/// rectangle, grown, is the one active rectangle, and nothing is completed.
proof fn lemma_after_lone_continuing_row(rect: Rect, prev: u32, y: u32, seg: (u32, u32, u32), min_height: int, max_gap: int)
    requires
        !gap_before(Some(prev), y as int, max_gap),
        rect.x == seg.1,
        seg.1 <= seg.2,
        rect.w as int == seg.2 - seg.1 + 1,
    ensures
        after_row((seq![rect], seq![], Some(prev)), y, seq![seg], min_height, max_gap) == (
            seq![extend_rect(rect, seg.1 as int, seg.2 as int, y as int)],
            Seq::<Rect>::empty(),
            Some(y),
        ),
{
    lemma_lone_segment_continues(rect, seg, y as int);
    let stepped = row_step(seq![rect], seq![seg], y as int, 1);
    assert(finished(seq![rect], stepped.1, min_height, 0) =~= seq![]);
    assert(finished(seq![rect], stepped.1, min_height, 1) =~= seq![]);
    assert(Seq::<Rect>::empty() + Seq::<Rect>::empty() =~= Seq::<Rect>::empty());
}

/// Grouping from row group `i`, whose one segment is `rows[i]`, goes on
/// from `i + 1` with the state after that row.
proof fn lemma_group_from_lone_row(rows: Seq<(u32, u32, u32)>, i: int, state: GroupState, min_height: int, max_gap: int)
    requires
        0 <= i < rows.len(),
        i + 1 < rows.len() ==> rows[i + 1].0 != rows[i].0,
    ensures
        group_from(rows, i, state, min_height, max_gap) == group_from(
            rows,
            i + 1,
            after_row(state, rows[i].0, seq![rows[i]], min_height, max_gap),
            min_height,
            max_gap,
        ),
{
    let y = rows[i].0;
    lemma_row_group_end(rows, y, i + 1);
    assert(row_group_end(rows, y, i + 1) == i + 1);
    assert(rows.subrange(i, i + 1) =~= seq![rows[i]]);
}

/// The first row, with one segment, starts one rectangle.
proof fn lemma_after_lone_first_row(y: u32, seg: (u32, u32, u32), min_height: int, max_gap: int)
    ensures
        after_row((seq![], seq![], None), y, seq![seg], min_height, max_gap) == (
            seq![fresh_rect(seg.1 as int, seg.2 as int, y as int)],
            Seq::<Rect>::empty(),
            Some(y),
        ),
{
    lemma_lone_segment_starts(seg, y as int);
    let stepped = row_step(seq![], seq![seg], y as int, 1);
    assert(finished(seq![], stepped.1, min_height, 0) =~= seq![]);
    assert(Seq::<Rect>::empty() + Seq::<Rect>::empty() =~= Seq::<Rect>::empty());
}

/// A single rectangle is kept exactly when it is tall enough.
proof fn lemma_keep_tall_one(rect: Rect, min_height: int)
    ensures
        keep_tall(seq![rect], min_height) == if rect.h >= min_height { seq![rect] } else { seq![] },
{
    assert(seq![rect].drop_last() =~= Seq::<Rect>::empty());
    assert(keep_tall(Seq::<Rect>::empty(), min_height) == Seq::<Rect>::empty());
    assert(Seq::<Rect>::empty() + seq![rect] =~= seq![rect]);
    assert(Seq::<Rect>::empty() + Seq::<Rect>::empty() =~= Seq::<Rect>::empty());
}

#[verifier::spinoff_prover]
proof fn lemma_stacked_group_from(rows: Seq<(u32, u32, u32)>, i: int, min_height: int, max_gap: int)
    requires
        1 <= i <= rows.len(),
        max_gap >= 0,
        rows[0].1 <= rows[0].2,
        rows[0].2 - rows[0].1 + 1 <= u32::MAX,
        rows.last().0 - rows[0].0 + 1 <= u32::MAX,
        stacked_with_small_gaps(rows, max_gap),
    ensures
        group_from(
            rows,
            i,
            (seq![column_rect(rows[0].1, rows[0].2, rows[0].0, rows[i - 1].0)], seq![], Some(rows[i - 1].0)),
            min_height,
            max_gap,
        ) == keep_tall(seq![column_rect(rows[0].1, rows[0].2, rows[0].0, rows.last().0)], min_height),
    decreases rows.len() - i,
{
    let a = rows[0].1;
    let b = rows[0].2;
    let rect = column_rect(a, b, rows[0].0, rows[i - 1].0);
    let state: GroupState = (seq![rect], seq![], Some(rows[i - 1].0));
    lemma_stacked_ascending(rows, max_gap, 0, i - 1);
    lemma_stacked_ascending(rows, max_gap, i - 1, rows.len() - 1);
    if i == rows.len() {
        assert(rows[i - 1] == rows.last());
        assert(Seq::<Rect>::empty() + keep_tall(seq![rect], min_height) =~= keep_tall(seq![rect], min_height));
    } else {
        lemma_stacked_ascending(rows, max_gap, i, rows.len() - 1);
        let y = rows[i].0;
        assert(rows[i - 1].0 < y <= rows[i - 1].0 + max_gap + 1);
        if i + 1 < rows.len() {
            assert(rows[i + 1].0 > y);
        }
        lemma_group_from_lone_row(rows, i, state, min_height, max_gap);
        assert(rows[i].1 == a && rows[i].2 == b);
        lemma_after_lone_continuing_row(rect, rows[i - 1].0, y, rows[i], min_height, max_gap);
        let next = column_rect(a, b, rows[0].0, y);
        assert(extend_rect(rect, a as int, b as int, y as int) == next);
        lemma_stacked_group_from(rows, i + 1, min_height, max_gap);
    }
}

proof fn lemma_stacked_ascending(rows: Seq<(u32, u32, u32)>, max_gap: int, k: int, l: int)
    requires
        stacked_with_small_gaps(rows, max_gap),
        0 <= k <= l < rows.len(),
    ensures
        rows[k].0 <= rows[l].0,
        k < l ==> rows[k].0 < rows[l].0,
    decreases l - k,
{
    if k < l {
        lemma_stacked_ascending(rows, max_gap, k, l - 1);
        assert(rows[l - 1].0 < rows[l].0);
    }
}

/// A gap of at most `max_gap` rows does not split a rectangle: segments of
/// one span on rows that follow each other with such gaps are grouped into
/// one rectangle, over their columns and from the first row to the last,
/// kept when it is at least `min_height` rows tall.
#[verifier::spinoff_prover]
pub proof fn lemma_small_gaps_do_not_split(rows: Seq<(u32, u32, u32)>, min_height: int, max_gap: int)
    requires
        rows.len() > 0,
        max_gap >= 0,
        rows[0].1 <= rows[0].2,
        rows[0].2 - rows[0].1 + 1 <= u32::MAX,
        rows.last().0 - rows[0].0 + 1 <= u32::MAX,
        stacked_with_small_gaps(rows, max_gap),
    ensures
        grouped(rows, min_height, max_gap) == if rows.last().0 - rows[0].0 + 1 >= min_height {
            seq![column_rect(rows[0].1, rows[0].2, rows[0].0, rows.last().0)]
        } else {
            seq![]
        },
{
    let a = rows[0].1;
    let b = rows[0].2;
    let y = rows[0].0;
    let init: GroupState = (seq![], seq![], None);
    if rows.len() > 1 {
        assert(rows[1].0 > y);
    }
    let whole = column_rect(a, b, y, rows.last().0);
    let start: GroupState = (seq![column_rect(a, b, y, y)], Seq::<Rect>::empty(), Some(y));
    lemma_group_from_lone_row(rows, 0, init, min_height, max_gap);
    lemma_after_lone_first_row(y, rows[0], min_height, max_gap);
    assert(fresh_rect(a as int, b as int, y as int) == column_rect(a, b, y, y));
    assert(after_row(init, y, seq![rows[0]], min_height, max_gap) == start);
    lemma_stacked_group_from(rows, 1, min_height, max_gap);
    assert(group_from(rows, 1, start, min_height, max_gap) == keep_tall(seq![whole], min_height));
    assert(grouped(rows, min_height, max_gap) == keep_tall(seq![whole], min_height));
    lemma_keep_tall_one(whole, min_height);
    lemma_stacked_ascending(rows, max_gap, 0, rows.len() - 1);
    assert(rows[rows.len() - 1] == rows.last());
    assert(whole.h as int == rows.last().0 - rows[0].0 + 1);
}

} // verus!
