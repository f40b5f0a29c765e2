//! Judging whether a captured region is sharp enough for text recognition.
//!
//! UI text is a pixel font: rendered natively, a glyph edge is a
//! single-pixel jump from background to full brightness. Rescaling or video
//! compression averages those jumps into ramps, and once the ramp is wider
//! than the stroke the glyph's identity is gone. The metric is the share of
//! strong luminance steps that are *abrupt*.

use vstd::prelude::*;
use crate::frame::{Frame, Pixel, frame_samples};
use crate::geometry::{Rect, abs, clipped_cols, lemma_pixel_len, min, row_count, rows_end, sat_add, sat_sub};

verus! {

/// Luminance step small enough to be noise or a gradient background rather
/// than a glyph edge; steps below this are ignored entirely.
pub const NOISE_STEP: i32 = 18;

/// Luminance step large enough to be a real pixel-font glyph edge.
pub const HARD_STEP: i32 = 70;

/// Fewer strong steps than this means there is nothing to judge.
pub const MIN_EDGE_SAMPLES: u32 = 24;

/// How readable a region's text is likely to be.
#[derive(Debug, Clone, Copy, PartialEq, Eq, Structural)]
pub enum Legibility {
    /// Edges are crisp; OCR has a fair chance.
    Sharp,
    /// Edges are ramps; OCR will return plausible-looking wrong text.
    Blurred,
    /// Nothing with enough contrast to judge.
    NoText,
}

/// The result of assessing a region. Its sharpness, the share of strong
/// luminance steps that are abrupt, is `hard_edges / edge_samples` (0 when
/// the legibility is `NoText`).
#[derive(Debug, Clone, Copy, PartialEq, Eq, Structural)]
pub struct TextQuality {
    /// How many strong steps were abrupt.
    pub hard_edges: u32,
    /// How many strong steps were found; a handful means low confidence.
    pub edge_samples: u32,
    pub legibility: Legibility,
}

impl TextQuality {
    /// Whether OCR output from this region should be trusted at all.
    pub fn is_legible(&self) -> (r: bool)
        ensures
            r == (self.legibility == Legibility::Sharp),
    {
        match self.legibility {
            Legibility::Sharp => true,
            _ => false,
        }
    }
}

/// Integer approximation of Rec. 601 luma of a pixel's samples.
pub open spec fn luma(p: Seq<u8>) -> int {
    ((p[0] as int) * 299 + (p[1] as int) * 587 + (p[2] as int) * 114) / 1000
}

/// Integer approximation of Rec. 601 luma; exactness is irrelevant here
/// because only the size of differences matters.
pub fn luminance(pixel: &Pixel) -> (r: i32)
    ensures
        r == luma(pixel@),
        0 <= r <= 255,
{
    (pixel[0] as i32 * 299 + pixel[1] as i32 * 587 + pixel[2] as i32 * 114) / 1000
}

/// The luminance step from pixel `(x, y)` to its right neighbour.
pub open spec fn step_at(image: Frame, x: int, y: int) -> int {
    abs(luma(image.pixel(x + 1, y)) - luma(image.pixel(x, y)))
}

/// How many of the steps starting at `(x0 .. x0 + n, y)` reach `threshold`.
pub open spec fn row_steps(image: Frame, y: int, x0: int, n: int, threshold: int) -> nat
    decreases n,
{
    if n <= 0 {
        0
    } else {
        row_steps(image, y, x0, n - 1, threshold) + if step_at(image, x0 + n - 1, y) >= threshold { 1nat } else { 0nat }
    }
}

/// How many steps of the `cols` by `rows` block at `(x0, y0)` reach
/// `threshold`.
pub open spec fn block_steps(image: Frame, x0: int, cols: int, y0: int, rows: int, threshold: int) -> nat
    decreases rows,
{
    if rows <= 0 {
        0
    } else {
        block_steps(image, x0, cols, y0, rows - 1, threshold) + row_steps(image, y0 + rows - 1, x0, cols, threshold)
    }
}

/// How many horizontal steps a scan of `region` measures: one per pixel
/// with a right neighbour inside the clipped region.
pub open spec fn step_cols(image: Frame, region: Rect) -> int {
    sat_sub(clipped_cols(image, region), 1)
}

/// Steps in `region` at least `threshold` high.
pub open spec fn region_steps(image: Frame, region: Rect, threshold: int) -> nat {
    block_steps(image, region.x as int, step_cols(image, region), region.y as int, row_count(image, region), threshold)
}

/// The legibility of a region with `strong` strong steps, `hard` of them
/// abrupt: too few strong steps to judge is no text; otherwise at least
/// 35% abrupt is sharp.
pub open spec fn legibility_of(strong: int, hard: int) -> Legibility {
    if strong < 24 {
        Legibility::NoText
    } else if hard * 20 >= strong * 7 {
        Legibility::Sharp
    } else {
        Legibility::Blurred
    }
}

pub proof fn lemma_row_steps_bound(image: Frame, y: int, x0: int, n: int, threshold: int)
    ensures
        row_steps(image, y, x0, n, threshold) <= if n < 0 { 0 } else { n },
        threshold >= NOISE_STEP ==> row_steps(image, y, x0, n, threshold) <= row_steps(image, y, x0, n, NOISE_STEP as int),
    decreases n,
{
    if n > 0 {
        lemma_row_steps_bound(image, y, x0, n - 1, threshold);
    }
}

pub proof fn lemma_block_steps_bound(image: Frame, x0: int, cols: int, y0: int, rows: int, threshold: int)
    requires
        cols >= 0,
    ensures
        block_steps(image, x0, cols, y0, rows, threshold) <= if rows < 0 { 0 } else { rows * cols },
        threshold >= NOISE_STEP ==> block_steps(image, x0, cols, y0, rows, threshold) <= block_steps(image, x0, cols, y0, rows, NOISE_STEP as int),
    decreases rows,
{
    if rows > 0 {
        lemma_block_steps_bound(image, x0, cols, y0, rows - 1, threshold);
        lemma_row_steps_bound(image, y0 + rows - 1, x0, cols, threshold);
        assert((rows - 1) * cols + cols == rows * cols) by (nonlinear_arith);
    }
}

/// The strong (at least 18) and abrupt (at least 70) luminance steps
/// between horizontal neighbours inside `region`, clipped to the frame.
pub fn step_counts(image: &Frame, region: Rect) -> (r: (u64, u64))
    ensures
        r.0 == region_steps(*image, region, NOISE_STEP as int),
        r.1 == region_steps(*image, region, HARD_STEP as int),
        r.1 <= r.0,
{
    let width = image.width();
    let height = image.height();
    let x_end = if region.x.saturating_add(region.w) < width { region.x.saturating_add(region.w) } else { width };
    let y_end = if region.y.saturating_add(region.h) < height { region.y.saturating_add(region.h) } else { height };
    let last = x_end.saturating_sub(1);
    let ghost cols = step_cols(*image, region);
    let ghost rows = row_count(*image, region);
    proof {
        assert(0 <= cols);
        assert(rows <= u32::MAX && cols <= u32::MAX);
        assert(rows * cols <= (u32::MAX as int) * (u32::MAX as int)) by (nonlinear_arith)
            requires 0 <= rows <= u32::MAX, 0 <= cols <= u32::MAX;
    }
    let mut strong: u64 = 0;
    let mut hard: u64 = 0;
    let mut y = region.y;
    while y < y_end
        invariant
            region.y <= y,
            y == region.y || y <= y_end,
            y_end == rows_end(*image, region),
            x_end == min(sat_add(region.x as int, region.w as int), image.width_spec()),
            last == sat_sub(x_end as int, 1),
            x_end <= width == image.width_spec(),
            y_end <= height == image.height_spec(),
            cols == step_cols(*image, region),
            rows == row_count(*image, region),
            0 <= cols,
            rows * cols <= (u32::MAX as int) * (u32::MAX as int),
            frame_samples(*image).len() >= 4 * image.width_spec() * image.height_spec(),
            strong == block_steps(*image, region.x as int, cols, region.y as int, y - region.y, NOISE_STEP as int),
            hard == block_steps(*image, region.x as int, cols, region.y as int, y - region.y, HARD_STEP as int),
            hard <= strong,
        decreases y_end - y,
    {
        let ghost strong_before = strong as int;
        let ghost hard_before = hard as int;
        proof {
            lemma_block_steps_bound(*image, region.x as int, cols, region.y as int, y - region.y, NOISE_STEP as int);
            assert((y - region.y) * cols + cols <= rows * cols) by (nonlinear_arith)
                requires y - region.y < rows, cols >= 0;
        }
        let mut x = region.x;
        while x < last
            invariant
                region.x <= x,
                x == region.x || x <= last,
                region.y <= y < y_end,
                last == sat_sub(x_end as int, 1),
                x_end <= width == image.width_spec(),
                y_end <= height == image.height_spec(),
                cols == step_cols(*image, region),
                cols == sat_sub(last as int, region.x as int),
                frame_samples(*image).len() >= 4 * image.width_spec() * image.height_spec(),
                strong_before + cols <= u64::MAX,
                strong == strong_before + row_steps(*image, y as int, region.x as int, x - region.x, NOISE_STEP as int),
                hard == hard_before + row_steps(*image, y as int, region.x as int, x - region.x, HARD_STEP as int),
                hard <= strong,
            decreases last - x,
        {
            let left = image.get_pixel(x, y);
            let right = image.get_pixel(x + 1, y);
            proof {
                lemma_pixel_len(*image, x as int, y as int);
                lemma_pixel_len(*image, x + 1, y as int);
                lemma_row_steps_bound(*image, y as int, region.x as int, x - region.x, NOISE_STEP as int);
                lemma_row_steps_bound(*image, y as int, region.x as int, x - region.x, HARD_STEP as int);
            }
            let d = luminance(&right) - luminance(&left);
            let step = if d < 0 { -d } else { d };
            if step >= NOISE_STEP {
                strong = strong + 1;
                if step >= HARD_STEP {
                    hard = hard + 1;
                }
            }
            x = x + 1;
        }
        y = y + 1;
    }
    (strong, hard)
}

/// Measure how sharply text edges are rendered inside `region`: count the
/// strong luminance steps (at least 18) between horizontal neighbours and
/// how many of them are abrupt (at least 70). The counts are `u32`, so the
/// strong steps must fit one.
///
/// Scans horizontally, because glyph stems produce vertical edges and those
/// are what a horizontal scan crosses.
pub fn assess_text_quality(image: &Frame, region: Rect) -> (r: TextQuality)
    requires
        region_steps(*image, region, NOISE_STEP as int) <= u32::MAX,
    ensures
        r.edge_samples == region_steps(*image, region, NOISE_STEP as int),
        r.hard_edges == region_steps(*image, region, HARD_STEP as int),
        r.legibility == legibility_of(r.edge_samples as int, r.hard_edges as int),
{
    let (strong, hard) = step_counts(image, region);
    let strong = strong as u32;
    let hard = hard as u32;
    let legibility = if strong < MIN_EDGE_SAMPLES {
        Legibility::NoText
    } else if hard as u64 * 20 >= strong as u64 * 7 {
        Legibility::Sharp
    } else {
        Legibility::Blurred
    };
    TextQuality { hard_edges: hard, edge_samples: strong, legibility }
}

} // verus!
