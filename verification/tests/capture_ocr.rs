use syrup::capture::{capture_window_by_title_info, contains_text, first_matching_title, is_blank, list_windows, title_has};
use syrup::frame::Frame;
use syrup::ocr::{OcrConfig, crop_region, decimal_string};

#[test]
fn capture_is_unavailable_on_this_platform() {
    assert!(list_windows().is_empty());
    assert!(capture_window_by_title_info("anything").is_none());
    assert!(!syrup::ocr::windows::is_available());
    assert!(syrup::ocr::windows::recognize(&Frame::new(2, 2)).is_none());
}

#[test]
fn a_uniform_surface_is_blank_and_a_varied_one_is_not() {
    assert!(is_blank(&[]));
    assert!(is_blank(&[1, 2, 3]));
    let uniform = vec![7u8, 8, 9, 0].repeat(2000);
    assert!(is_blank(&uniform));
    let mut varied = uniform.clone();
    varied[4 * 3 + 1] = 99; // pixel 3 is sampled (stride 3 for 2000 pixels)
    assert!(!is_blank(&varied));
    // Alpha is not compared.
    let mut alpha = uniform.clone();
    alpha[4 * 3 + 3] = 255;
    assert!(is_blank(&alpha));
    // Pixels between samples are not looked at.
    let mut between = uniform.clone();
    between[4 * 1] = 99;
    assert!(is_blank(&between));
}

#[test]
fn ocr_args_put_every_flag_in_order() {
    let config = OcrConfig { psm: 11, whitelist: Some("0123456789".to_string()) };
    let args = config.to_args();
    assert_eq!(
        args,
        vec!["--oem", "3", "--psm", "11", "-c", "tessedit_char_whitelist=0123456789", "-c", "preserve_interword_spaces=1"]
    );
    let plain = OcrConfig::default().to_args();
    assert_eq!(plain, vec!["--oem", "3", "--psm", "11", "-c", "preserve_interword_spaces=1"]);
}

#[test]
fn decimal_strings() {
    assert_eq!(decimal_string(0), "0");
    assert_eq!(decimal_string(7), "7");
    assert_eq!(decimal_string(42), "42");
    assert_eq!(decimal_string(100), "100");
    assert_eq!(decimal_string(255), "255");
}

#[test]
fn crop_copies_the_clipped_region() {
    let mut image = Frame::from_pixel(10, 8, [1, 1, 1, 255]);
    image.put_pixel(7, 6, [9, 8, 7, 6]);
    let crop = crop_region(&image, 5, 4, 20, 20).expect("crop inside the frame");
    assert_eq!(crop.dimensions(), (5, 4));
    assert_eq!(crop.get_pixel(2, 2), [9, 8, 7, 6]);
    assert_eq!(crop.get_pixel(0, 0), [1, 1, 1, 255]);
    assert!(crop_region(&image, 5, 4, 0, 3).is_none());
    assert!(crop_region(&image, 10, 0, 3, 3).is_none());
}

#[test]
fn capture_picks_the_first_title_containing_the_search() {
    let titles = vec!["Calculator".to_string(), "My NOTEPAD - notes.txt".to_string(), "Notepad".to_string()];
    assert_eq!(first_matching_title(&titles, "NotePad"), Some(1));
    assert_eq!(first_matching_title(&titles, "paint"), None);
    assert_eq!(first_matching_title(&titles, ""), Some(0));
    assert!(title_has("My NOTEPAD", "notepad"));
    // Both the title and the search are lowercased in full Unicode.
    assert!(title_has("\u{e4}bc", "\u{e4}b"));
    assert!(title_has("\u{c4}BC", "\u{e4}b"));
    assert!(!title_has("\u{c4}BC", "\u{c4}b"));
    assert_eq!(first_matching_title(&vec!["\u{c9}diteur".to_string()], "\u{e9}DITEUR"), Some(0));
    assert!(contains_text("abcabd", "abd"));
    assert!(!contains_text("ab", "abc"));
}
