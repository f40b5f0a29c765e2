//! Each stated property of the library, checked on concrete values.

use syrup::capture::{bgra_to_rgba, is_blank};
use syrup::draw::{draw_rect, text_height, text_pixels, text_width};
use syrup::frame::Frame;
use syrup::geometry::{Rect, dominant_color_bucket, find_uniform_color_panel, group_segments, measure_bar_fill, segment_row};
use syrup::quality::{assess_text_quality, step_counts};
use syrup::ocr::text::normalize_text;
use syrup::ocr::windows::{recognized_line, to_opaque_bgra};
use syrup::ocr::{OcrConfig, tesseract_args};

#[test]
fn row_runs_are_the_maximal_matching_runs_in_order() {
    let mut image = Frame::from_pixel(30, 1, [0, 0, 0, 255]);
    // Runs: 2..=4 (3 wide), 6..=6 (1 wide), 8..=15 (8 wide), 25..=29 (edge, 5 wide).
    for x in (2..5).chain(6..7).chain(8..16).chain(25..30) {
        image.put_pixel(x, 0, [255, 255, 255, 255]);
    }
    let white = |p: &[u8; 4]| p[0] == 255;
    assert_eq!(segment_row(&image, 0, 0, 29, 3, white), vec![(2, 4), (8, 15), (25, 29)]);
    assert_eq!(segment_row(&image, 0, 0, 29, 1, white), vec![(2, 4), (6, 6), (8, 15), (25, 29)]);
    // A scan window that cuts a run reports the part inside it.
    assert_eq!(segment_row(&image, 0, 10, 27, 2, white), vec![(10, 15), (25, 27)]);
}

#[test]
fn grouped_rectangles_are_never_shorter_than_min_height() {
    let rows = vec![(0, 0, 9), (1, 0, 9), (2, 0, 9), (10, 20, 29), (11, 20, 29)];
    let rects = group_segments(rows, 3, 1);
    assert_eq!(rects, vec![Rect { x: 0, y: 0, w: 10, h: 3 }]);
    assert!(rects.iter().all(|r| r.h >= 3));
}

#[test]
fn drawn_text_stays_in_its_box() {
    let (x, y, scale) = (-7i64, 3i64, 3u32);
    let text = "W1%Q";
    let width = text_width(text, scale) as i64;
    let height = text_height(scale) as i64;
    let points = text_pixels(text, x, y, scale);
    assert!(!points.is_empty());
    assert!(points.iter().all(|&(px, py)| x <= px && px < x + width && y <= py && py < y + height));
    // The box is tight: the last column of the last glyph ("%") is lit.
    assert!(points.iter().any(|&(px, _)| px == x + width - 1));
}

#[test]
fn scaling_multiplies_lit_pixels_by_the_square() {
    let one = text_pixels("HELLO 42", 0, 0, 1).len();
    let three = text_pixels("HELLO 42", 100, -50, 3).len();
    assert_eq!(three, 9 * one);
}

#[test]
fn case_does_not_change_what_is_drawn() {
    assert_eq!(text_pixels("hello, world", 4, 4, 2), text_pixels("HELLO, WORLD", 4, 4, 2));
}

#[test]
fn the_tsv_config_is_the_last_argument() {
    let args = tesseract_args("in.png", &OcrConfig::default());
    assert_eq!(args.first().map(String::as_str), Some("in.png"));
    assert_eq!(args[1], "stdout");
    assert_eq!(args.last().map(String::as_str), Some("tsv"));
    assert_eq!(args[2..args.len() - 1].to_vec(), OcrConfig::default().to_args());
}

#[test]
fn a_uniform_surface_is_blank() {
    let buffer = [3u8, 4, 5, 9].repeat(10_000);
    assert!(is_blank(&buffer));
}

#[test]
fn a_measured_fill_never_exceeds_its_track() {
    let mut image = Frame::from_pixel(100, 12, [0, 0, 0, 255]);
    for y in 5..9 {
        for x in 10..60 {
            image.put_pixel(x, y, [200, 0, 0, 255]);
        }
        for x in 60..90 {
            image.put_pixel(x, y, [60, 60, 60, 255]);
        }
    }
    let fill = Rect { x: 10, y: 5, w: 50, h: 4 };
    let red = |p: &[u8; 4]| p[0] == 200;
    let measured = measure_bar_fill(&image, fill, Rect { x: 0, y: 0, w: 100, h: 12 }, red).unwrap();
    assert!(measured.track_columns >= 1);
    assert!(measured.filled_columns <= measured.track_columns);
    assert_eq!((measured.filled_columns, measured.track_columns), (50, 80));
}

#[test]
fn normalized_text_is_one_trimmed_line() {
    let text = normalize_text("\u{00A0} first\r\nsecond \n\n  third\u{2014}end\t\n");
    assert_eq!(text, "first second third-end");
    assert!(!text.contains('\n') && !text.contains('\r'));
    assert_eq!(text.trim(), text);
}

#[test]
fn bgra_becomes_opaque_rgba() {
    let mut buffer = vec![1, 2, 3, 4, 10, 20, 30, 40, 7, 8];
    bgra_to_rgba(&mut buffer);
    assert_eq!(buffer, vec![3, 2, 1, 255, 30, 20, 10, 255, 7, 8]);
}

#[test]
fn windows_engine_input_is_opaque_bgra_in_row_order() {
    let mut image = Frame::from_pixel(2, 2, [1, 2, 3, 0]);
    image.put_pixel(1, 0, [10, 20, 30, 40]);
    image.put_pixel(0, 1, [50, 60, 70, 80]);
    let bytes = to_opaque_bgra(&image).unwrap();
    assert_eq!(bytes, vec![3, 2, 1, 255, 30, 20, 10, 255, 70, 60, 50, 255, 3, 2, 1, 255]);
    assert!(to_opaque_bgra(&Frame::new(0, 3)).is_none());
}

#[test]
fn recognized_text_is_trimmed_or_nothing() {
    assert_eq!(recognized_line("  1291/1351 \n").as_deref(), Some("1291/1351"));
    assert_eq!(recognized_line(" \t\n"), None);
    assert_eq!(recognized_line(""), None);
}

#[test]
fn an_outline_stays_in_the_border_band_of_its_rectangle() {
    let before = Frame::from_pixel(30, 30, [0, 0, 0, 255]);
    let mut after = Frame::from_pixel(30, 30, [0, 0, 0, 255]);
    let (x, y, w, h, t) = (4u32, 6u32, 12u32, 9u32, 3u32);
    draw_rect(&mut after, x, y, w, h, [9, 9, 9, 255], t);
    let mut changed = 0;
    for py in 0..30 {
        for px in 0..30 {
            if after.get_pixel(px, py) != before.get_pixel(px, py) {
                changed += 1;
                assert!(x <= px && px < x + w && y <= py && py < y + h);
                assert!(px < x + t || px >= x + w - t || py < y + t || py >= y + h - t);
            }
        }
    }
    // The whole band: the rectangle less its untouched 6 x 3 core.
    assert_eq!(changed, 12 * 9 - 6 * 3);
}

#[test]
fn an_outline_thicker_than_its_rectangle_spills_past_it() {
    let mut image = Frame::from_pixel(10, 10, [0, 0, 0, 255]);
    draw_rect(&mut image, 2, 2, 2, 2, [9, 9, 9, 255], 3);
    // Ring 2 of a two-row rectangle lands on row 4, below the rectangle.
    assert_eq!(image.get_pixel(2, 4), [9, 9, 9, 255]);
}

#[test]
fn a_rectangle_grown_leftwards_keeps_its_right_edge() {
    let rects = group_segments(vec![(0, 10, 39), (1, 5, 20)], 1, 1);
    assert_eq!(rects, vec![Rect { x: 5, y: 0, w: 35, h: 2 }]);
}

#[test]
fn every_segment_lies_in_a_grouped_rectangle() {
    let rows = vec![(0, 10, 39), (1, 5, 20), (1, 30, 45), (2, 0, 3), (5, 8, 9), (6, 7, 12)];
    let rects = group_segments(rows.clone(), 1, 0);
    for (y, x0, x1) in rows {
        assert!(
            rects.iter().any(|r| r.y <= y && y <= r.y2() && r.x <= x0 && x1 <= r.x2()),
            "segment ({y}, {x0}, {x1}) not covered by {rects:?}"
        );
    }
}

#[test]
fn a_bar_in_a_uniform_frame_is_not_measured() {
    let image = Frame::from_pixel(4, 4, [40, 40, 40, 255]);
    let red = |p: &[u8; 4]| p[0] == 200;
    let fill = Rect { x: 0, y: 3, w: 1, h: 1 };
    assert!(measure_bar_fill(&image, fill, Rect { x: 0, y: 0, w: 4, h: 4 }, red).is_none());
}

#[test]
fn a_bar_at_the_top_of_a_frame_takes_what_lies_past_it_as_groove() {
    let image = Frame::from_pixel(4, 1, [40, 40, 40, 255]);
    let red = |p: &[u8; 4]| p[0] == 200;
    let fill = Rect { x: 0, y: 0, w: 1, h: 1 };
    let bar = measure_bar_fill(&image, fill, Rect { x: 0, y: 0, w: 4, h: 1 }, red).unwrap();
    assert_eq!((bar.filled_columns, bar.track_columns), (0, 4));
}

#[test]
fn a_ragged_patch_is_not_reported_as_a_panel() {
    let mut image = Frame::from_pixel(60, 40, [0, 0, 0, 255]);
    for y in 0..40 {
        let width = if y < 20 { 40 } else { 20 };
        for x in 0..width {
            image.put_pixel(x, y, [250, 250, 250, 255]);
        }
    }
    let whole = Rect { x: 0, y: 0, w: 60, h: 40 };
    assert_eq!(find_uniform_color_panel(&image, whole, (25, 25, 25), 10), None);

    let mut square = Frame::from_pixel(60, 40, [0, 0, 0, 255]);
    for y in 5..25 {
        for x in 10..40 {
            square.put_pixel(x, y, [250, 250, 250, 255]);
        }
    }
    assert_eq!(find_uniform_color_panel(&square, whole, (25, 25, 25), 10), Some(Rect { x: 10, y: 5, w: 30, h: 20 }));
}

#[test]
fn equally_common_buckets_resolve_to_the_first_in_rgb_order() {
    let mut image = Frame::from_pixel(2, 1, [200, 0, 0, 255]);
    image.put_pixel(1, 0, [0, 0, 200, 255]);
    let whole = Rect { x: 0, y: 0, w: 2, h: 1 };
    assert_eq!(dominant_color_bucket(&image, whole, 10), Some((0, 0, 20)));
    assert_eq!(dominant_color_bucket(&image, whole, 10), dominant_color_bucket(&image, whole, 10));
}

#[test]
fn normalizing_twice_changes_nothing() {
    for text in ["  It\u{2019}s \u{2013} 5\u{00A0}%\r\n\n next ", "", " \n ", "a\u{2014}b"] {
        let once = normalize_text(text);
        assert_eq!(normalize_text(&once), once);
        assert!(!once.chars().any(|c| matches!(c, '\u{2018}' | '\u{2019}' | '\u{2013}' | '\u{2014}' | '\u{00A0}')));
    }
}

#[test]
fn text_quality_counts_match_the_step_counts() {
    let mut image = Frame::from_pixel(30, 4, [10, 10, 10, 255]);
    for y in 0..4 {
        for x in (0..30).step_by(3) {
            image.put_pixel(x, y, [240, 240, 240, 255]);
        }
    }
    let region = Rect { x: 0, y: 0, w: 30, h: 4 };
    let quality = assess_text_quality(&image, region);
    assert_eq!(step_counts(&image, region), (quality.edge_samples as u64, quality.hard_edges as u64));
    // 10 stripes, each with a rising and (but the first at x = 0) a falling edge.
    assert_eq!(quality.edge_samples, 4 * 19);
}
