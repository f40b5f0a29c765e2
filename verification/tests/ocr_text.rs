use syrup::ocr::text::{normalize_text, parse_tsv_words};
use syrup::ocr::{OcrConfig, ocr_result_from_tsv, tesseract_args, upscaled_size};

#[test]
fn tsv_config_comes_after_option_flags() {
    let args = tesseract_args(
        "crop.png",
        &OcrConfig {
            psm: 11,
            whitelist: Some("0123456789".to_string()),
        },
    );

    assert_eq!(args[0], "crop.png");
    assert_eq!(args[1], "stdout");
    // Tesseract stops parsing options at the first config-file argument,
    // so every flag must precede `tsv` or it is read as a config name.
    assert_eq!(args.last().map(String::as_str), Some("tsv"));
    let tsv = args.iter().position(|arg| arg == "tsv").unwrap();
    for flag in ["--oem", "--psm", "-c"] {
        let at = args.iter().position(|arg| arg == flag).unwrap();
        assert!(at < tsv, "{flag} must come before the tsv config file");
    }
    assert!(
        args.iter()
            .any(|arg| arg == "tessedit_char_whitelist=0123456789")
    );
}

const HEADER: &str =
    "level\tpage_num\tblock_num\tpar_num\tline_num\tword_num\tleft\ttop\twidth\theight\tconf\ttext";

#[test]
fn tsv_word_rows_are_read_and_other_rows_skipped() {
    let tsv = format!(
        "{HEADER}\n\
         1\t1\t0\t0\t0\t0\t0\t0\t640\t480\t-1\t\n\
         5\t1\t1\t1\t1\t1\t12\t34\t56\t20\t91.5\tHealth\n\
         5\t1\t1\t1\t1\t2\t70\t34\t30\t20\t88.0\t  87%  \r\n\
         5\t1\t1\t1\t1\t3\tx\t34\t30\t20\t88.0\tbad\n\
         5\t1\t1\t1\t1\t4\t1\t2\t3\n"
    );
    let words = parse_tsv_words(&tsv);
    assert_eq!(words.len(), 2);
    assert_eq!(words[0].text, "Health");
    assert_eq!((words[0].x, words[0].y, words[0].w, words[0].h), (12, 34, 56, 20));
    assert_eq!(words[1].text, "87%");
    assert_eq!((words[1].x, words[1].y, words[1].w, words[1].h), (70, 34, 30, 20));
}

#[test]
fn tsv_numbers_parse_as_u32_does() {
    let row = |left: &str| format!("{HEADER}\n5\t1\t1\t1\t1\t1\t{left}\t0\t1\t1\t90\tw");
    assert_eq!(parse_tsv_words(&row("+7"))[0].x, 7);
    assert_eq!(parse_tsv_words(&row("4294967295"))[0].x, 4294967295);
    assert!(parse_tsv_words(&row("4294967296")).is_empty());
    assert!(parse_tsv_words(&row("-1")).is_empty());
    assert!(parse_tsv_words(&row("+")).is_empty());
    assert!(parse_tsv_words(&row("")).is_empty());
    assert!(parse_tsv_words(&row(" 7")).is_empty());
}

#[test]
fn the_first_line_is_always_taken_as_the_header() {
    let row = "5\t1\t1\t1\t1\t1\t1\t2\t3\t4\t90\tword";
    assert!(parse_tsv_words(row).is_empty());
    assert_eq!(parse_tsv_words(&format!("\n{row}")).len(), 1);
    assert!(parse_tsv_words("").is_empty());
}

#[test]
fn normalized_text_is_one_plain_line() {
    assert_eq!(normalize_text("  Hello \r\n\n  world  \n"), "Hello world");
    assert_eq!(normalize_text("it\u{2019}s \u{2018}a\u{2019} \u{2013} b\u{2014}c"), "it's 'a' - b-c");
    assert_eq!(normalize_text("1\u{00A0}000"), "1 000");
    assert_eq!(normalize_text(" \u{00A0}\t\r\n "), "");
    assert_eq!(normalize_text("a\rb"), "ab");
    assert_eq!(normalize_text("x\u{3000}"), "x");
}

#[test]
fn an_ocr_result_joins_its_words() {
    let tsv = format!(
        "{HEADER}\n\
         5\t1\t1\t1\t1\t1\t0\t0\t10\t10\t90\tHP\n\
         5\t1\t1\t1\t1\t2\t12\t0\t10\t10\t90\t42\u{2013}50\n"
    );
    let result = ocr_result_from_tsv(&tsv).expect("two words");
    assert_eq!(result.text, "HP 42-50");
    assert!(result.available);
    assert_eq!(result.words.len(), 2);
    assert_eq!(result.words[1].text, "42\u{2013}50");
}

#[test]
fn an_ocr_run_without_words_gives_nothing() {
    assert!(ocr_result_from_tsv(HEADER).is_none());
    assert!(ocr_result_from_tsv("").is_none());
    let blank = format!("{HEADER}\n5\t1\t1\t1\t1\t1\t0\t0\t1\t1\t90\t \u{00A0} ");
    assert!(ocr_result_from_tsv(&blank).is_none());
}

#[test]
fn small_crops_are_enlarged_by_a_whole_factor() {
    assert_eq!(upscaled_size(100, 10), Some((500, 50)));
    assert_eq!(upscaled_size(7, 1), Some((56, 8)));
    assert_eq!(upscaled_size(30, 30), Some((60, 60)));
    assert_eq!(upscaled_size(30, 47), Some((60, 94)));
    assert_eq!(upscaled_size(30, 48), None);
    assert_eq!(upscaled_size(30, 0), None);
    assert_eq!(upscaled_size(u32::MAX, 10), Some((u32::MAX, 50)));
}
