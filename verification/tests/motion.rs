use syrup::detection::Reliability;
use syrup::frame::GrayFrame;
use syrup::geometry::Rect;
use syrup::motion::{MotionStart, extract_blobs, motion_reliability, motion_start, moved_pixel_count};

#[test]
fn the_first_frame_warms_up_and_a_resize_restarts() {
    assert_eq!(motion_start(None, (64, 64)), MotionStart::WarmingUp);
    assert_eq!(motion_start(Some((64, 64)), (32, 32)), MotionStart::SizeChanged);
    assert_eq!(motion_start(Some((64, 64)), (64, 32)), MotionStart::SizeChanged);
    assert_eq!(motion_start(Some((64, 64)), (64, 64)), MotionStart::Compare);
}

#[test]
fn long_lived_tracks_corroborate_motion() {
    assert_eq!(motion_reliability(&[]), None);
    assert_eq!(motion_reliability(&[1, 2, 3]), Some(Reliability::Heuristic));
    assert_eq!(motion_reliability(&[1, 4]), Some(Reliability::Corroborated));
}

#[test]
fn a_moved_square_gives_one_blob() {
    let (w, h) = (32u32, 20u32);
    let mut samples = vec![0u8; (w * h) as usize];
    for y in 4..12 {
        for x in 6..14 {
            samples[(y * w + x) as usize] = 255;
        }
    }
    let mask = GrayFrame::from_raw(w, h, samples).unwrap();
    assert_eq!(moved_pixel_count(&mask), 64);
    assert_eq!(extract_blobs(&mask, 4, 4, 24), vec![Rect { x: 6, y: 4, w: 8, h: 8 }]);
}
