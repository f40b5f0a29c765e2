//! Moving-blob extraction from a binary motion mask.
//!
//! With a static camera, anything that changes between two frames is a
//! moving object or an animation. A motion mask marks the pixels that
//! changed; this module turns it into rectangles ("blobs"). It does not
//! classify what moved — that interpretation belongs to the consumer.

use vstd::prelude::*;
use crate::frame::{GrayFrame, gray_samples};
use crate::detection::Reliability;
use crate::geometry::{
    Rect, grouped, group_segments, lemma_region_rows_ordered, mask_runs, region_rows, row_runs,
    tag_row, lemma_ordered_grouping_defined,
};

verus! {

/// The moved/unmoved row `y` of a mask: a pixel moved when its sample is
/// non-zero.
pub open spec fn moved_row(mask: GrayFrame, y: int) -> Seq<bool> {
    Seq::new(mask.width_spec() as nat, |x: int| mask.sample(x, y) > 0)
}

/// Every row of a mask as moved/unmoved verdicts.
pub open spec fn moved_rows(mask: GrayFrame) -> Seq<Seq<bool>> {
    Seq::new(mask.height_spec() as nat, |y: int| moved_row(mask, y))
}

/// The rectangles of `rects` covering at least `min_area` pixels, in order.
pub open spec fn large_blobs(rects: Seq<Rect>, min_area: int) -> Seq<Rect>
    decreases rects.len(),
{
    if rects.len() == 0 {
        seq![]
    } else {
        large_blobs(rects.drop_last(), min_area) + if rects.last().area_spec() >= min_area {
            seq![rects.last()]
        } else {
            seq![]
        }
    }
}

/// The blobs of a motion mask: runs of at least `min_run_width` moved
/// pixels in each row, grouped (gaps of up to one row bridged) into
/// rectangles at least `min_blob_height` rows tall, keeping those of at
/// least `min_blob_area` pixels.
pub open spec fn blobs_of(mask: GrayFrame, min_run_width: int, min_blob_height: int, min_blob_area: int) -> Seq<Rect> {
    large_blobs(grouped(region_rows(moved_rows(mask), 0, 0, min_run_width), min_blob_height, 1), min_blob_area)
}

/// Extract the moving blobs of a motion mask.
pub fn extract_blobs(mask: &GrayFrame, min_run_width: u32, min_blob_height: u32, min_blob_area: u32) -> (r: Vec<Rect>)
    ensures
        r@ == blobs_of(*mask, min_run_width as int, min_blob_height as int, min_blob_area as int),
{
    let (width, height) = mask.dimensions();
    let ghost all = moved_rows(*mask);
    let mut rows: Vec<(u32, u32, u32)> = Vec::new();
    let mut y: u32 = 0;
    while y < height
        invariant
            0 <= y <= height,
            width == mask.width_spec() && height == mask.height_spec(),
            gray_samples(*mask).len() >= mask.width_spec() * mask.height_spec(),
            all == moved_rows(*mask),
            rows@ == region_rows(all.take(y as int), 0, 0, min_run_width as int),
        decreases height - y,
    {
        let mut moved: Vec<bool> = Vec::new();
        let mut x: u32 = 0;
        while x < width
            invariant
                0 <= x <= width,
                y < height,
                width == mask.width_spec() && height == mask.height_spec(),
                gray_samples(*mask).len() >= mask.width_spec() * mask.height_spec(),
                moved@ == moved_row(*mask, y as int).take(x as int),
            decreases width - x,
        {
            moved.push(mask.get_pixel(x, y) > 0);
            proof {
                assert(moved@ =~= moved_row(*mask, y as int).take(x + 1));
            }
            x = x + 1;
        }
        proof {
            assert(moved@ =~= moved_row(*mask, y as int));
        }
        let runs = row_runs(&moved, 0, min_run_width);
        let ghost before = rows@;
        let mut k: usize = 0;
        while k < runs.len()
            invariant
                0 <= k <= runs@.len(),
                rows@ == before + tag_row(y, runs@.take(k as int)),
            decreases runs@.len() - k,
        {
            let (a, b) = runs[k];
            rows.push((y, a, b));
            proof {
                assert(rows@ =~= before + tag_row(y, runs@.take(k + 1)));
            }
            k = k + 1;
        }
        proof {
            assert(runs@.take(runs@.len() as int) =~= runs@);
            assert(all.take(y + 1).drop_last() =~= all.take(y as int));
            assert(all.take(y + 1).last() == moved_row(*mask, y as int));
        }
        y = y + 1;
    }
    proof {
        assert(all.take(height as int) =~= all);
        assert forall|k: int| 0 <= k < all.len() implies 0 + (#[trigger] all[k]).len() <= u32::MAX + 1 by {}
        lemma_region_rows_ordered(all, 0, 0, min_run_width as int);
        lemma_ordered_grouping_defined(rows@, min_blob_height as int, 1);
    }
    let grouped_blobs = group_segments(rows, min_blob_height, 1);
    let mut result: Vec<Rect> = Vec::new();
    let mut i: usize = 0;
    while i < grouped_blobs.len()
        invariant
            0 <= i <= grouped_blobs@.len(),
            result@ == large_blobs(grouped_blobs@.take(i as int), min_blob_area as int),
        decreases grouped_blobs@.len() - i,
    {
        proof {
            assert(grouped_blobs@.take(i + 1).drop_last() =~= grouped_blobs@.take(i as int));
        }
        let rect = grouped_blobs[i];
        if rect.area() >= min_blob_area {
            result.push(rect);
        }
        proof {
            assert(result@ =~= large_blobs(grouped_blobs@.take(i + 1), min_blob_area as int));
        }
        i = i + 1;
    }
    proof {
        assert(grouped_blobs@.take(grouped_blobs@.len() as int) =~= grouped_blobs@);
    }
    result
}

/// How many of the first `n` pixels of row `y` moved.
pub open spec fn row_moved_count(mask: GrayFrame, y: int, n: int) -> nat
    decreases n,
{
    if n <= 0 {
        0
    } else {
        row_moved_count(mask, y, n - 1) + if mask.sample(n - 1, y) > 0 { 1nat } else { 0nat }
    }
}

/// How many pixels of the first `rows` rows moved.
pub open spec fn moved_count(mask: GrayFrame, rows: int) -> nat
    decreases rows,
{
    if rows <= 0 {
        0
    } else {
        moved_count(mask, rows - 1) + row_moved_count(mask, rows - 1, mask.width_spec())
    }
}

pub proof fn lemma_row_moved_bound(mask: GrayFrame, y: int, n: int)
    ensures
        row_moved_count(mask, y, n) <= if n < 0 { 0 } else { n },
    decreases n,
{
    if n > 0 {
        lemma_row_moved_bound(mask, y, n - 1);
    }
}

pub proof fn lemma_moved_bound(mask: GrayFrame, rows: int)
    requires
        mask.width_spec() >= 0,
    ensures
        moved_count(mask, rows) <= if rows < 0 { 0 } else { rows * mask.width_spec() },
    decreases rows,
{
    if rows > 0 {
        lemma_moved_bound(mask, rows - 1);
        lemma_row_moved_bound(mask, rows - 1, mask.width_spec());
        assert((rows - 1) * mask.width_spec() + mask.width_spec() == rows * mask.width_spec()) by (nonlinear_arith);
    }
}

/// How many pixels of a motion mask moved; divided by the pixel count it
/// is the fraction of the frame that changed.
pub fn moved_pixel_count(mask: &GrayFrame) -> (r: u64)
    ensures
        r == moved_count(*mask, mask.height_spec()),
{
    let (width, height) = mask.dimensions();
    let mut count: u64 = 0;
    let mut y: u32 = 0;
    while y < height
        invariant
            0 <= y <= height,
            width == mask.width_spec() && height == mask.height_spec(),
            gray_samples(*mask).len() >= mask.width_spec() * mask.height_spec(),
            count == moved_count(*mask, y as int),
        decreases height - y,
    {
        let ghost row_start = count;
        proof {
            lemma_moved_bound(*mask, y as int);
            assert((y as int) * (width as int) + (width as int) <= (u32::MAX as int) * (u32::MAX as int)) by (nonlinear_arith)
                requires y < height <= u32::MAX, width <= u32::MAX;
        }
        let mut x: u32 = 0;
        while x < width
            invariant
                0 <= x <= width,
                y < height,
                width == mask.width_spec() && height == mask.height_spec(),
                gray_samples(*mask).len() >= mask.width_spec() * mask.height_spec(),
                row_start == moved_count(*mask, y as int),
                row_start + width <= u64::MAX,
                count == row_start + row_moved_count(*mask, y as int, x as int),
            decreases width - x,
        {
            proof {
                lemma_row_moved_bound(*mask, y as int, x as int);
            }
            if mask.get_pixel(x, y) > 0 {
                count = count + 1;
            }
            x = x + 1;
        }
        y = y + 1;
    }
    count
}

/// What a motion detector makes of a new frame, given the size of the
/// frame it kept from the previous call.
#[derive(Debug, Clone, Copy, PartialEq, Eq, Structural)]
pub enum MotionStart {
    /// No frame was kept yet: the frame becomes the baseline, and nothing
    /// is reported as moving or still.
    WarmingUp,
    /// The frame size changed: the frame becomes the new baseline rather
    /// than being compared against a frame of other dimensions.
    SizeChanged,
    /// The frames are compared.
    Compare,
}

/// The first decision of a motion detection step: warm up on the first
/// frame, restart on a size change, otherwise compare with the kept frame.
/// In every case the new frame is kept for the next step.
pub fn motion_start(previous: Option<(u32, u32)>, current: (u32, u32)) -> (r: MotionStart)
    ensures
        r == match previous {
            None => MotionStart::WarmingUp,
            Some(size) => if size == current { MotionStart::Compare } else { MotionStart::SizeChanged },
        },
{
    match previous {
        None => MotionStart::WarmingUp,
        Some(size) => {
            if size.0 == current.0 && size.1 == current.1 {
                MotionStart::Compare
            } else {
                MotionStart::SizeChanged
            }
        },
    }
}

/// The grade of a compared frame's motion, given the ages (in frames) of
/// the tracked moving blobs: `None` when nothing moved (a confirmed "no
/// motion"), corroborated when some blob has been tracked for more than
/// three frames, heuristic otherwise.
pub fn motion_reliability(track_ages: &[u32]) -> (r: Option<Reliability>)
    ensures
        track_ages@.len() == 0 ==> r is None,
        track_ages@.len() > 0 ==> r == Some(
            if exists|i: int| 0 <= i < track_ages@.len() && #[trigger] track_ages@[i] > 3 {
                Reliability::Corroborated
            } else {
                Reliability::Heuristic
            },
        ),
{
    if track_ages.len() == 0 {
        return None;
    }
    let mut i: usize = 0;
    while i < track_ages.len()
        invariant
            0 <= i <= track_ages@.len(),
            forall|j: int| 0 <= j < i ==> #[trigger] track_ages@[j] <= 3,
        decreases track_ages@.len() - i,
    {
        if track_ages[i] > 3 {
            return Some(Reliability::Corroborated);
        }
        i = i + 1;
    }
    Some(Reliability::Heuristic)
}

} // verus!
