use syrup::frame::{Frame, Pixel};
use syrup::geometry::{
    BarFill, Rect, dominant_color_bucket, find_color_bar, find_color_regions, find_text_block,
    find_text_block_in_regions, find_uniform_color_panel, group_segments, measure_bar_fill, median_of,
    overlap, segment_row,
};

/// HSV of an RGB triple, H in degrees `[0, 360)`, S and V in `[0, 1]`.
fn hsv(r: u8, g: u8, b: u8) -> (f32, f32, f32) {
    let rf = r as f32 / 255.0;
    let gf = g as f32 / 255.0;
    let bf = b as f32 / 255.0;
    let max = rf.max(gf).max(bf);
    let min = rf.min(gf).min(bf);
    let delta = max - min;
    let h = if delta == 0.0 {
        0.0
    } else if max == rf {
        60.0 * ((gf - bf) / delta % 6.0)
    } else if max == gf {
        60.0 * ((bf - rf) / delta + 2.0)
    } else {
        60.0 * ((rf - gf) / delta + 4.0)
    };
    let h = if h < 0.0 { h + 360.0 } else { h };
    let s = if max == 0.0 { 0.0 } else { delta / max };
    (h, s.clamp(0.0, 1.0), max.clamp(0.0, 1.0))
}

/// The colour test the fixtures use: a saturated colour in a hue range.
fn is_color_pixel(pixel: &Pixel, hue_range: (f32, f32), min_saturation: f32, min_value: f32) -> bool {
    let (h, s, v) = hsv(pixel[0], pixel[1], pixel[2]);
    let in_range = if hue_range.0 <= hue_range.1 {
        h >= hue_range.0 && h <= hue_range.1
    } else {
        h >= hue_range.0 || h <= hue_range.1
    };
    pixel[3] as f32 / 255.0 >= 0.5 && in_range && s >= min_saturation && v >= min_value
}

fn percent(fill: BarFill) -> f32 {
    (fill.filled_columns as f32 / fill.track_columns as f32 * 100.0).clamp(0.0, 100.0)
}

/// Build a frame containing one horizontal bar whose track runs from
/// `track_x` for `track_w` pixels, filled `fill_ratio` of the way.
fn bar_frame(track_x: u32, track_w: u32, fill_ratio: f32) -> (Frame, Rect) {
    let mut image = Frame::from_pixel(400, 40, [120, 180, 90, 255]);
    let filled_w = (track_w as f32 * fill_ratio).round() as u32;
    let (y0, y1) = (14, 22);
    for y in y0..y1 {
        for x in track_x..track_x + track_w {
            let pixel = if x < track_x + filled_w {
                [230, 30, 30, 255] // bar colour
            } else {
                [16, 16, 16, 255] // dark groove
            };
            image.put_pixel(x, y, pixel);
        }
    }
    let fill = Rect {
        x: track_x,
        y: y0,
        w: filled_w.max(1),
        h: y1 - y0,
    };
    (image, fill)
}

fn red_filled(pixel: &Pixel) -> bool {
    is_color_pixel(pixel, (340.0, 30.0), 0.35, 0.30)
}

fn whole(w: u32, h: u32) -> Rect {
    Rect { x: 0, y: 0, w, h }
}

#[test]
fn measure_bar_fill_reports_true_fill_ratio() {
    let search = whole(400, 40);
    for ratio in [0.25f32, 0.5, 0.75, 1.0] {
        let (image, fill) = bar_frame(100, 200, ratio);
        let measured = measure_bar_fill(&image, fill, search, red_filled).expect("track should be measurable");
        let percent = percent(measured);
        let expected = ratio * 100.0;
        assert!(
            (percent - expected).abs() <= 1.0,
            "fill {ratio} should read ~{expected}%, got {percent}%"
        );
    }
}

#[test]
fn measure_bar_fill_is_independent_of_track_width_and_position() {
    let search = whole(400, 40);
    let (narrow_image, narrow_fill) = bar_frame(20, 80, 0.5);
    let (wide_image, wide_fill) = bar_frame(150, 240, 0.5);

    let narrow = percent(measure_bar_fill(&narrow_image, narrow_fill, search, red_filled).unwrap());
    let wide = percent(measure_bar_fill(&wide_image, wide_fill, search, red_filled).unwrap());

    assert!((narrow - 50.0).abs() <= 1.5, "narrow bar read {narrow}%");
    assert!((wide - 50.0).abs() <= 1.5, "wide bar read {wide}%");
}

#[test]
fn measure_bar_fill_handles_a_light_groove_not_only_a_dark_one() {
    let mut image = Frame::from_pixel(400, 40, [25, 25, 28, 255]);
    for y in 14..22 {
        for x in 100..300 {
            let pixel = if x < 100 + 75 {
                [225, 225, 40, 255] // yellow fill
            } else {
                [210, 210, 210, 255] // light grey groove
            };
            image.put_pixel(x, y, pixel);
        }
    }
    let fill = Rect { x: 100, y: 14, w: 75, h: 8 };
    let search = whole(400, 40);
    let measured = measure_bar_fill(&image, fill, search, |pixel: &Pixel| {
        is_color_pixel(pixel, (40.0, 80.0), 0.25, 0.25)
    })
    .expect("light groove should still yield a track");
    let percent = percent(measured);
    assert!(
        (percent - 37.5).abs() <= 1.5,
        "75/200 of the track is filled, got {percent}%"
    );
}

#[test]
fn a_completely_full_bar_reads_full_not_diluted_by_background() {
    let search = whole(400, 40);
    let (image, fill) = bar_frame(100, 200, 1.0);
    let percent = percent(measure_bar_fill(&image, fill, search, red_filled).unwrap());
    assert!((percent - 100.0).abs() <= 1.0, "full bar read {percent}%");
}

#[test]
fn measure_bar_fill_returns_none_without_a_track() {
    let image = Frame::from_pixel(120, 30, [120, 180, 90, 255]);
    let fill = Rect { x: 40, y: 10, w: 10, h: 6 };
    let search = whole(120, 30);
    assert!(measure_bar_fill(&image, fill, search, red_filled).is_none());
}

#[test]
fn measure_bar_fill_handles_a_bar_touching_the_frame_edge() {
    let search = whole(400, 40);
    let (image, fill) = bar_frame(0, 120, 0.5);
    let percent = percent(measure_bar_fill(&image, fill, search, red_filled).unwrap());
    assert!((percent - 50.0).abs() <= 1.5, "edge bar read {percent}%");
}

#[test]
fn measure_bar_fill_of_an_empty_fill_rectangle_is_none() {
    let (image, _) = bar_frame(100, 200, 0.5);
    let fill = Rect { x: 100, y: 14, w: 0, h: 8 };
    assert!(measure_bar_fill(&image, fill, whole(400, 40), red_filled).is_none());
}

#[test]
fn measure_bar_fill_counts_exact_columns() {
    // 100 filled columns of a 200-column track.
    let (image, fill) = bar_frame(100, 200, 0.5);
    let measured = measure_bar_fill(&image, fill, whole(400, 40), red_filled).unwrap();
    assert_eq!(measured, BarFill { filled_columns: 100, track_columns: 200 });
}

#[test]
fn segment_row_finds_runs_above_min_width() {
    let mut image = Frame::from_pixel(40, 4, [0, 0, 0, 255]);
    for x in 5..20 {
        image.put_pixel(x, 1, [255, 0, 0, 255]);
    }
    let segments = segment_row(&image, 1, 0, 39, 10, |p: &Pixel| p[0] > 200);
    assert_eq!(segments, vec![(5, 19)]);
}

#[test]
fn segment_row_drops_short_runs_and_keeps_a_run_at_the_edge() {
    let mut image = Frame::from_pixel(30, 1, [0, 0, 0, 255]);
    for x in [2, 3, 10, 11, 12, 13, 25, 26, 27, 28, 29] {
        image.put_pixel(x, 0, [255, 0, 0, 255]);
    }
    // x1 past the right edge is clipped to the frame.
    let segments = segment_row(&image, 0, 0, 100, 3, |p: &Pixel| p[0] > 200);
    assert_eq!(segments, vec![(10, 13), (25, 29)]);
}

/// Rows containing several separate segments (two regions side by side)
/// must be matched together, so the regions do not evict each other.
#[test]
fn group_segments_keeps_side_by_side_regions_apart() {
    let mut rows = Vec::new();
    for y in 10..20 {
        rows.push((y, 5, 24)); // left region
        rows.push((y, 40, 59)); // right region
    }
    let mut rects = group_segments(rows, 4, 1);
    rects.sort_by_key(|rect| rect.x);
    assert_eq!(rects.len(), 2, "expected two rectangles, got {rects:?}");
    assert_eq!((rects[0].x, rects[0].w, rects[0].h), (5, 20, 10));
    assert_eq!((rects[1].x, rects[1].w, rects[1].h), (40, 20, 10));
}

/// A region that momentarily splits into two segments on one row should
/// continue as a single rectangle, not fork into duplicates.
#[test]
fn group_segments_absorbs_a_momentary_split() {
    let mut rows = Vec::new();
    for y in 0..4 {
        rows.push((y, 10, 39));
    }
    rows.push((4, 10, 23));
    rows.push((4, 26, 39));
    for y in 5..8 {
        rows.push((y, 10, 39));
    }
    let rects = group_segments(rows, 4, 1);
    assert_eq!(rects.len(), 1, "split row forked the region: {rects:?}");
    assert_eq!((rects[0].x, rects[0].w, rects[0].h), (10, 30, 8));
}

#[test]
fn group_segments_closes_regions_across_a_wide_gap() {
    let mut rows = Vec::new();
    for y in 0..5 {
        rows.push((y, 0, 9));
    }
    for y in 10..15 {
        rows.push((y, 0, 9));
    }
    let rects = group_segments(rows, 3, 2);
    assert_eq!(rects, vec![Rect { x: 0, y: 0, w: 10, h: 5 }, Rect { x: 0, y: 10, w: 10, h: 5 }]);
}

#[test]
fn group_segments_drops_short_regions_and_empty_input() {
    assert!(group_segments(Vec::new(), 1, 1).is_empty());
    let rows = vec![(3, 0, 9), (4, 0, 9)];
    assert!(group_segments(rows.clone(), 3, 1).is_empty());
    assert_eq!(group_segments(rows, 2, 1), vec![Rect { x: 0, y: 3, w: 10, h: 2 }]);
}

#[test]
fn overlap_counts_shared_units() {
    assert_eq!(overlap((0, 9), (5, 20)), 5);
    assert_eq!(overlap((0, 9), (10, 20)), 0);
    assert_eq!(overlap((3, 3), (3, 3)), 1);
}

#[test]
fn rect_edges_and_area() {
    let rect = Rect { x: 10, y: 20, w: 5, h: 4 };
    assert_eq!(rect.x2(), 14);
    assert_eq!(rect.y2(), 23);
    assert_eq!(rect.area(), 20);
    let empty = Rect { x: 10, y: 20, w: 0, h: 0 };
    assert_eq!(empty.x2(), 10);
    let huge = Rect { x: u32::MAX - 1, y: 0, w: u32::MAX, h: 2 };
    assert_eq!(huge.x2(), u32::MAX);
    assert_eq!(huge.area(), u32::MAX);
}

#[test]
fn find_color_bar_locates_solid_block() {
    let mut image = Frame::from_pixel(200, 40, [10, 10, 10, 255]);
    for y in 10..20 {
        for x in 20..160 {
            image.put_pixel(x, y, [220, 20, 20, 255]);
        }
    }
    let bar = find_color_bar(&image, whole(200, 40), |p: &Pixel| is_color_pixel(p, (340.0, 30.0), 0.35, 0.30))
        .expect("bar found");
    assert!(bar.w >= 100);
    assert_eq!(bar, Rect { x: 20, y: 10, w: 140, h: 10 });
}

#[test]
fn find_color_regions_keeps_only_big_regions() {
    let mut image = Frame::from_pixel(120, 40, [0, 0, 0, 255]);
    for y in 5..15 {
        for x in 10..40 {
            image.put_pixel(x, y, [0, 0, 255, 255]);
        }
    }
    for y in 20..22 {
        for x in 60..100 {
            image.put_pixel(x, y, [0, 0, 255, 255]);
        }
    }
    let regions = find_color_regions(&image, whole(120, 40), |p: &Pixel| p[2] > 200 && p[0] < 50);
    assert_eq!(regions, vec![Rect { x: 10, y: 5, w: 30, h: 10 }]);
}

#[test]
fn dominant_color_bucket_picks_the_mode() {
    let mut image = Frame::from_pixel(10, 10, [100, 100, 100, 255]);
    for x in 0..10 {
        image.put_pixel(x, 0, [250, 0, 0, 255]);
    }
    // Transparent pixels do not count.
    for x in 0..10 {
        for y in 1..10 {
            if x < 2 {
                image.put_pixel(x, y, [0, 250, 0, 10]);
            }
        }
    }
    assert_eq!(dominant_color_bucket(&image, whole(10, 10), 10), Some((10, 10, 10)));
    let clear = Frame::from_pixel(4, 4, [1, 2, 3, 0]);
    assert_eq!(dominant_color_bucket(&clear, whole(4, 4), 8), None);
}

#[test]
fn find_uniform_color_panel_finds_the_panel() {
    let mut image = Frame::from_pixel(100, 60, [0, 0, 0, 255]);
    for y in 10..40 {
        for x in 20..80 {
            image.put_pixel(x, y, [40, 80, 120, 255]);
        }
    }
    let bucket = dominant_color_bucket(&image, Rect { x: 30, y: 15, w: 20, h: 20 }, 16).unwrap();
    assert_eq!(bucket, (2, 5, 7));
    let panel = find_uniform_color_panel(&image, whole(100, 60), bucket, 16).expect("panel found");
    assert_eq!(panel, Rect { x: 20, y: 10, w: 60, h: 30 });
}

#[test]
fn find_text_block_pads_the_text_bounds() {
    let mut image = Frame::from_pixel(50, 30, [0, 0, 0, 255]);
    for x in 10..20 {
        image.put_pixel(x, 12, [240, 240, 240, 255]);
    }
    let bright = |p: &Pixel| p[0] > 200;
    let block = find_text_block(&image, whole(50, 30), bright).expect("text found");
    assert_eq!(block, Rect { x: 8, y: 10, w: 14, h: 5 });
    // Too few text pixels is noise.
    let mut sparse = Frame::from_pixel(50, 30, [0, 0, 0, 255]);
    for x in 10..15 {
        sparse.put_pixel(x, 12, [240, 240, 240, 255]);
    }
    assert_eq!(find_text_block(&sparse, whole(50, 30), bright), None);
    // The first region with text wins.
    let regions = [Rect { x: 0, y: 0, w: 5, h: 5 }, whole(50, 30)];
    assert_eq!(find_text_block_in_regions(&image, &regions, bright), Some(block));
    assert_eq!(find_text_block_in_regions(&sparse, &regions, bright), None);
}

#[test]
fn median_is_the_middle_of_the_sorted_values() {
    assert_eq!(median_of(&vec![5, 1, 9]), 5);
    assert_eq!(median_of(&vec![4, 4, 1, 200]), 4);
    assert_eq!(median_of(&vec![7]), 7);
    assert_eq!(median_of(&vec![3, 1, 2, 0]), 2);
}

#[test]
fn a_reversed_segment_that_meets_no_rectangle_starts_a_one_column_one() {
    let rects = group_segments(vec![(0, 10, 5), (3, 40, 60)], 1, 0);
    assert_eq!(rects, vec![Rect { x: 10, y: 0, w: 1, h: 1 }, Rect { x: 40, y: 3, w: 21, h: 1 }]);
}
