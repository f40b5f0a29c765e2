use syrup::draw::{GLYPH_HEIGHT, GLYPH_SPACING, GLYPH_WIDTH, draw_rect, draw_text, glyph, text_height, text_pixels, text_width};
use syrup::frame::Frame;

#[test]
fn draw_rect_strokes_the_outline_and_clips_to_bounds() {
    let black = [0, 0, 0, 255];
    let red = [255, 0, 0, 255];
    let mut img = Frame::from_pixel(20, 20, black);

    // Partially off-image: must not panic, must stroke what is visible.
    draw_rect(&mut img, 15, 15, 10, 10, red, 1);
    assert_eq!(img.get_pixel(15, 15), red);

    draw_rect(&mut img, 2, 2, 5, 5, red, 1);
    assert_eq!(img.get_pixel(2, 2), red); // corner
    assert_eq!(img.get_pixel(4, 4), black); // interior untouched
}

#[test]
fn known_characters_have_glyphs() {
    for ch in "ABCXYZ0189:/%.,()-".chars() {
        assert!(glyph(ch).is_some(), "expected a glyph for {ch:?}");
    }
}

#[test]
fn lowercase_falls_back_to_uppercase_glyph() {
    assert_eq!(glyph('a'), glyph('A'));
    assert_eq!(glyph('z'), glyph('Z'));
}

#[test]
fn unmapped_characters_are_skipped_not_panicking() {
    assert!(glyph('☃').is_none());
    // Drawing must survive characters outside the table.
    let mut plotted = 0;
    draw_text("☃", 0, 0, 1, |_, _| plotted += 1);
    assert_eq!(plotted, 0);
}

#[test]
fn text_width_accounts_for_spacing() {
    assert_eq!(text_width("", 1), 0);
    assert_eq!(text_width("A", 1), GLYPH_WIDTH);
    // Two glyphs plus one gap between them.
    assert_eq!(text_width("AB", 1), GLYPH_WIDTH * 2 + GLYPH_SPACING);
    assert_eq!(text_width("A", 2), GLYPH_WIDTH * 2);
}

#[test]
fn space_draws_nothing_but_still_advances() {
    let mut plotted = 0;
    draw_text(" ", 0, 0, 1, |_, _| plotted += 1);
    assert_eq!(plotted, 0);
    assert_eq!(text_width(" ", 1), GLYPH_WIDTH);
}

#[test]
fn scale_expands_pixel_count_quadratically() {
    let mut small = 0;
    draw_text("A", 0, 0, 1, |_, _| small += 1);
    let mut large = 0;
    draw_text("A", 0, 0, 2, |_, _| large += 1);
    assert_eq!(large, small * 4);
}

#[test]
fn glyphs_stay_within_their_cell() {
    let mut max_x = 0i64;
    let mut max_y = 0i64;
    draw_text("W", 0, 0, 1, |x, y| {
        max_x = max_x.max(x);
        max_y = max_y.max(y);
    });
    assert!(max_x < GLYPH_WIDTH as i64);
    assert!(max_y < GLYPH_HEIGHT as i64);
}

#[test]
fn text_height_scales_the_glyph_height() {
    assert_eq!(text_height(1), 7);
    assert_eq!(text_height(3), 21);
}

#[test]
fn the_second_glyph_starts_one_cell_later() {
    // "I" lights column 2 fully (0x7F): its points at scale 1 from x = 10.
    let points = text_pixels("I", 10, 5, 1);
    assert!(points.contains(&(12, 5)));
    assert!(points.contains(&(12, 11)));
    let two = text_pixels(" I", 10, 5, 1);
    assert!(two.contains(&(18, 5)), "second glyph advances by 6 columns");
    assert_eq!(points.len(), two.len());
}

#[test]
fn draw_text_plots_exactly_the_text_pixels_in_order() {
    let mut plotted = Vec::new();
    draw_text("Hi!", -3, 4, 2, |x, y| plotted.push((x, y)));
    assert_eq!(plotted, text_pixels("Hi!", -3, 4, 2));
}

#[test]
fn scale_zero_draws_like_scale_one() {
    assert_eq!(text_pixels("A", 0, 0, 0), text_pixels("A", 0, 0, 1));
}

#[test]
fn draw_rect_thickness_two_paints_two_rings_only() {
    let black = [0, 0, 0, 255];
    let green = [0, 255, 0, 255];
    let mut img = Frame::from_pixel(12, 12, black);
    draw_rect(&mut img, 1, 1, 8, 8, green, 2);
    assert_eq!(img.get_pixel(1, 1), green);
    assert_eq!(img.get_pixel(2, 5), green); // second ring, left
    assert_eq!(img.get_pixel(7, 5), green); // second ring, right
    assert_eq!(img.get_pixel(8, 8), green); // outer corner
    assert_eq!(img.get_pixel(4, 4), black); // inside both rings
    assert_eq!(img.get_pixel(9, 9), black); // outside
}

#[test]
fn text_can_be_drawn_right_up_to_the_coordinate_limit() {
    let (x, y) = (i64::MAX - 5, i64::MAX - 6);
    let points = text_pixels("A", x, y, 1);
    assert!(!points.is_empty());
    assert!(points.iter().all(|&(px, py)| px >= x && py >= y));
    let mut plotted = 0;
    draw_text("A", x, y, 1, |_, _| plotted += 1);
    assert_eq!(plotted, points.len());
}
