use syrup::frame::Frame;
use syrup::geometry::Rect;
use syrup::quality::{Legibility, assess_text_quality, luminance};

/// The sharpness threshold: 35% of strong steps abrupt.
const LEGIBLE_SHARPNESS: f32 = 0.35;

fn region(width: u32, height: u32) -> Rect {
    Rect { x: 0, y: 0, w: width, h: height }
}

fn sharpness(hard: u32, strong: u32) -> f32 {
    hard as f32 / strong as f32
}

/// Hard-edged stripes: a pixel font rendered natively.
fn crisp_text() -> Frame {
    let mut image = Frame::from_pixel(80, 20, [10, 10, 10, 255]);
    for x in 0..80u32 {
        if (x / 3) % 2 == 0 {
            for y in 4..16 {
                image.put_pixel(x, y, [240, 240, 240, 255]);
            }
        }
    }
    image
}

/// The same stripes with every edge spread into a gradual ramp, which is
/// what rescaling a screenshot does.
fn blurred_text() -> Frame {
    let mut image = Frame::from_pixel(80, 20, [10, 10, 10, 255]);
    for x in 0..80u32 {
        let level = match x % 8 {
            0 => 40u8,
            1 => 85,
            2 => 130,
            3 => 175,
            4 => 220,
            5 => 175,
            6 => 130,
            _ => 85,
        };
        for y in 4..16 {
            image.put_pixel(x, y, [level, level, level, 255]);
        }
    }
    image
}

#[test]
fn native_pixel_text_reads_as_sharp() {
    let quality = assess_text_quality(&crisp_text(), region(80, 20));
    assert_eq!(quality.legibility, Legibility::Sharp);
    assert!(quality.is_legible());
    let sharpness = sharpness(quality.hard_edges, quality.edge_samples);
    assert!(sharpness > 0.9, "got {}", sharpness);
}

#[test]
fn rescaled_text_reads_as_blurred() {
    let quality = assess_text_quality(&blurred_text(), region(80, 20));
    assert_eq!(quality.legibility, Legibility::Blurred);
    assert!(!quality.is_legible());
    let sharpness = sharpness(quality.hard_edges, quality.edge_samples);
    assert!(sharpness < LEGIBLE_SHARPNESS, "got {}", sharpness);
}

#[test]
fn a_flat_region_is_reported_as_having_no_text() {
    let flat = Frame::from_pixel(60, 20, [30, 30, 30, 255]);
    let quality = assess_text_quality(&flat, region(60, 20));
    assert_eq!(quality.legibility, Legibility::NoText);
    // "No text" must not masquerade as good input.
    assert!(!quality.is_legible());
}

#[test]
fn assessment_is_clipped_to_the_image() {
    // A region running past the edge must not panic.
    let image = crisp_text();
    let quality = assess_text_quality(&image, region(500, 500));
    assert!(quality.edge_samples > 0);
}

#[test]
fn luminance_is_the_integer_rec601_luma() {
    assert_eq!(luminance(&[255, 255, 255, 255]), 255);
    assert_eq!(luminance(&[0, 0, 0, 0]), 0);
    assert_eq!(luminance(&[100, 0, 0, 255]), 29);
    assert_eq!(luminance(&[10, 20, 30, 255]), 18);
}

#[test]
fn crisp_stripes_have_exact_edge_counts() {
    // Each of the 12 striped rows has an edge every 3 columns: 26 steps of
    // 230 between 80 columns; all of them abrupt.
    let quality = assess_text_quality(&crisp_text(), region(80, 20));
    assert_eq!(quality.edge_samples, 12 * 26);
    assert_eq!(quality.hard_edges, 12 * 26);
}
