//! Composing the primitives the way a real consumer does: locate a status
//! bar on a synthetic screen and measure its fill.

use syrup::frame::{Frame, Pixel};
use syrup::geometry::{BarFill, Rect, find_color_bar, measure_bar_fill};

/// HSV of an RGB triple, H in degrees `[0, 360)`, S and V in `[0, 1]`.
fn hsv(r: u8, g: u8, b: u8) -> (f32, f32, f32) {
    let rf = r as f32 / 255.0;
    let gf = g as f32 / 255.0;
    let bf = b as f32 / 255.0;
    let max = rf.max(gf).max(bf);
    let min = rf.min(gf).min(bf);
    let delta = max - min;
    let h = if delta == 0.0 {
        0.0
    } else if max == rf {
        60.0 * ((gf - bf) / delta % 6.0)
    } else if max == gf {
        60.0 * ((bf - rf) / delta + 2.0)
    } else {
        60.0 * ((rf - gf) / delta + 4.0)
    };
    let h = if h < 0.0 { h + 360.0 } else { h };
    let s = if max == 0.0 { 0.0 } else { delta / max };
    (h, s.clamp(0.0, 1.0), max.clamp(0.0, 1.0))
}

fn is_color_pixel(pixel: &Pixel, hue_range: (f32, f32), min_saturation: f32, min_value: f32) -> bool {
    let (h, s, v) = hsv(pixel[0], pixel[1], pixel[2]);
    let in_range = if hue_range.0 <= hue_range.1 {
        h >= hue_range.0 && h <= hue_range.1
    } else {
        h >= hue_range.0 || h <= hue_range.1
    };
    pixel[3] as f32 / 255.0 >= 0.5 && in_range && s >= min_saturation && v >= min_value
}

fn percent(fill: BarFill) -> f32 {
    (fill.filled_columns as f32 / fill.track_columns as f32 * 100.0).clamp(0.0, 100.0)
}

/// A synthetic 800x600 "application screen": dark background, a bottom
/// status band holding a red bar at a known fill ratio in a visible grey
/// track, and a bright square.
fn screen(square_x: u32, bar_fill: f32) -> Frame {
    let mut image = Frame::from_pixel(800, 600, [28, 30, 34, 255]);

    // Status bar: track from x=60 to x=360, rows 570..580.
    let track_w = 300u32;
    let filled = (track_w as f32 * bar_fill) as u32;
    for y in 570..580 {
        for x in 60..60 + track_w {
            let pixel = if x < 60 + filled { [210, 40, 40, 255] } else { [70, 70, 78, 255] };
            image.put_pixel(x, y, pixel);
        }
    }

    for y in 200..240 {
        for x in square_x..square_x + 40 {
            image.put_pixel(x, y, [230, 230, 230, 255]);
        }
    }

    image
}

fn red(pixel: &Pixel) -> bool {
    is_color_pixel(pixel, (340.0, 30.0), 0.35, 0.30)
}

#[test]
fn bar_is_located_and_measured_on_a_synthetic_screen() {
    let image = screen(100, 0.4);
    let band = Rect {
        x: 0,
        y: 540,
        w: 800,
        h: 60,
    };

    let bar = find_color_bar(&image, band, red).expect("the red bar should be found in the status band");
    assert!(bar.y >= 565 && bar.y <= 575, "bar found at y={}", bar.y);

    let percent = percent(measure_bar_fill(&image, bar, band, red).expect("the bar's track should be measurable"));
    assert!(
        (percent - 40.0).abs() <= 2.0,
        "a 40% bar should measure ~40%, got {percent}%"
    );
}

// The bar half of this scenario: the motion half needs a frame-to-frame
// tracker, which the library does not have.
#[test]
fn a_static_screen_reports_no_motion_while_the_bar_stays_measurable() {
    let image = screen(100, 0.75);
    let band = Rect {
        x: 0,
        y: 540,
        w: 800,
        h: 60,
    };
    let bar = find_color_bar(&image, band, red).unwrap();
    assert_eq!(bar, Rect { x: 60, y: 570, w: 225, h: 10 });
    let fill = measure_bar_fill(&image, bar, band, red).unwrap();
    assert_eq!(fill, BarFill { filled_columns: 225, track_columns: 300 });
    let percent = percent(fill);
    assert!((percent - 75.0).abs() <= 2.0, "got {percent}%");
}
