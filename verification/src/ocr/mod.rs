//! Text recognition for small on-screen UI text: the configuration and
//! argument building for a Tesseract run, crop extraction, and
//! normalisation of the recognised text.

pub mod windows;
pub mod text;

use vstd::prelude::*;
use crate::frame::{Frame, frame_dims};
use crate::geometry::min;
use crate::ocr::text::{push_char, chars_of, normalize_text, normalized, join_spaced, trim, parse_tsv_words, tsv_words, word_view, trimmed_range};

verus! {

/// OCR configuration for a single crop.
#[derive(Debug, Clone)]
pub struct OcrConfig {
    /// Page segmentation mode passed to Tesseract.
    pub psm: u8,
    /// Optional whitelist of characters to prefer.
    pub whitelist: Option<String>,
}

impl Default for OcrConfig {
    /// Sparse-text segmentation (mode 11), which handles UI labels and
    /// values that sit apart; no whitelist.
    fn default() -> (r: Self)
        ensures
            r.psm == 11,
            r.whitelist is None,
    {
        OcrConfig { psm: 11, whitelist: None }
    }
}

/// OCR result for a single crop.
#[derive(Debug, Clone, Default)]
pub struct OcrResult {
    pub text: String,
    pub available: bool,
    pub words: Vec<OcrWord>,
}

/// A word recognized by OCR and its bounding rectangle in crop coordinates.
#[derive(Debug, Clone)]
pub struct OcrWord {
    pub text: String,
    pub x: u32,
    pub y: u32,
    pub w: u32,
    pub h: u32,
}

/// The decimal digit character for `d`.
pub open spec fn digit_char(d: int) -> char {
    ((48 + d) as u32) as char
}

/// The decimal representation of `n`, without leading zeros.
pub open spec fn decimal(n: nat) -> Seq<char>
    decreases n,
{
    if n < 10 {
        seq![digit_char(n as int)]
    } else {
        decimal(n / 10).push(digit_char((n % 10) as int))
    }
}

fn digit(d: u8) -> (c: char)
    requires
        d < 10,
    ensures
        c == digit_char(d as int),
{
    match d {
        0 => '0',
        1 => '1',
        2 => '2',
        3 => '3',
        4 => '4',
        5 => '5',
        6 => '6',
        7 => '7',
        8 => '8',
        _ => '9',
    }
}

/// `n` in decimal.
pub fn decimal_string(n: u8) -> (r: String)
    ensures
        r@ == decimal(n as nat),
{
    let mut s = String::new();
    if n >= 100 {
        push_char(&mut s, digit(n / 100));
        push_char(&mut s, digit((n / 10) % 10));
        push_char(&mut s, digit(n % 10));
        proof {
            let tens = (n / 10) as nat;
            assert(tens / 10 == n / 100);
            assert(tens >= 10);
            assert(decimal(tens) == decimal(tens / 10).push(digit_char((tens % 10) as int)));
            assert(decimal((n / 100) as nat) == seq![digit_char((n / 100) as int)]);
            assert(decimal(n as nat) == decimal(tens).push(digit_char((n % 10) as int)));
        }
    } else if n >= 10 {
        push_char(&mut s, digit(n / 10));
        push_char(&mut s, digit(n % 10));
        proof {
            assert(decimal((n / 10) as nat) == seq![digit_char((n / 10) as int)]);
            assert(decimal(n as nat) == decimal((n / 10) as nat).push(digit_char((n % 10) as int)));
        }
    } else {
        push_char(&mut s, digit(n));
    }
    proof {
        assert(s@ =~= decimal(n as nat));
    }
    s
}

impl OcrConfig {
    /// The option flags of a Tesseract run: engine mode 3, this page
    /// segmentation mode, the whitelist when there is one, and
    /// inter-word spaces preserved.
    pub open spec fn args_spec(self) -> Seq<Seq<char>> {
        seq!["--oem"@, "3"@, "--psm"@, decimal(self.psm as nat)] + match self.whitelist {
            Some(w) => seq!["-c"@, "tessedit_char_whitelist="@ + w@],
            None => seq![],
        } + seq!["-c"@, "preserve_interword_spaces=1"@]
    }

    /// Option flags only, without the leading positional arguments or the
    /// trailing config-file name.
    pub fn to_args(&self) -> (r: Vec<String>)
        ensures
            r@.map_values(|s: String| s@) == self.args_spec(),
    {
        let mut args: Vec<String> = Vec::new();
        args.push(String::from_str("--oem"));
        args.push(String::from_str("3"));
        args.push(String::from_str("--psm"));
        args.push(decimal_string(self.psm));
        match &self.whitelist {
            Some(whitelist) => {
                args.push(String::from_str("-c"));
                let mut setting = String::from_str("tessedit_char_whitelist=");
                setting.append(whitelist.as_str());
                args.push(setting);
            },
            None => {},
        }
        args.push(String::from_str("-c"));
        args.push(String::from_str("preserve_interword_spaces=1"));
        proof {
            assert(args@.map_values(|s: String| s@) =~= self.args_spec());
        }
        args
    }
}

/// The crop of `image` at `(x, y)` of size `w` by `h`, clipped to the
/// frame: `None` when it is empty or lies outside.
pub open spec fn crop_bounds(image: Frame, x: int, y: int, w: int, h: int) -> Option<(int, int)> {
    if w == 0 || h == 0 {
        None
    } else {
        let x_end = min(x + w, image.width_spec());
        let y_end = min(y + h, image.height_spec());
        if x_end <= x || y_end <= y {
            None
        } else {
            Some((x_end - x, y_end - y))
        }
    }
}

/// Copy the region at `(x, y)` of size `w` by `h`, clipped to the frame,
/// into a frame of its own.
pub fn crop_region(image: &Frame, x: u32, y: u32, w: u32, h: u32) -> (r: Option<Frame>)
    requires
        w > 0 && h > 0 ==> x + w <= u32::MAX && y + h <= u32::MAX,
    ensures
        match crop_bounds(*image, x as int, y as int, w as int, h as int) {
            None => r is None,
            Some((cw, ch)) => r matches Some(crop) && frame_dims(crop) == (cw as u32, ch as u32) && forall|cx: int, cy: int|
                #[trigger] crop.in_bounds(cx, cy) ==> crop.pixel(cx, cy) == image.pixel(x + cx, y + cy),
        },
{
    if w == 0 || h == 0 {
        return None;
    }
    let (width, height) = image.dimensions();
    let x_end = if x + w < width { x + w } else { width };
    let y_end = if y + h < height { y + h } else { height };
    if x_end <= x || y_end <= y {
        return None;
    }
    let cw = x_end - x;
    let ch = y_end - y;
    proof {
        assert(4 * (cw as int) * (ch as int) <= 4 * (width as int) * (height as int)) by (nonlinear_arith)
            requires cw <= width, ch <= height;
        assert(4 * (width as int) * (height as int) <= crate::frame::frame_samples(*image).len());
    }
    let mut crop = Frame::new(cw, ch);
    let mut yy: u32 = 0;
    while yy < ch
        invariant
            0 <= yy <= ch,
            x + cw <= width == image.width_spec(),
            y + ch <= height == image.height_spec(),
            crate::frame::frame_samples(*image).len() >= 4 * image.width_spec() * image.height_spec(),
            frame_dims(crop) == (cw, ch),
            forall|cx: int, cy: int| #[trigger] crop.in_bounds(cx, cy) && cy < yy ==> crop.pixel(cx, cy) == image.pixel(x + cx, y + cy),
        decreases ch - yy,
    {
        let mut xx: u32 = 0;
        while xx < cw
            invariant
                0 <= xx <= cw,
                0 <= yy < ch,
                x + cw <= width == image.width_spec(),
                y + ch <= height == image.height_spec(),
                crate::frame::frame_samples(*image).len() >= 4 * image.width_spec() * image.height_spec(),
                frame_dims(crop) == (cw, ch),
                forall|cx: int, cy: int|
                    #[trigger] crop.in_bounds(cx, cy) && (cy < yy || (cy == yy && cx < xx)) ==> crop.pixel(cx, cy) == image.pixel(x + cx, y + cy),
            decreases cw - xx,
        {
            let pixel = image.get_pixel(x + xx, y + yy);
            let ghost before = crop;
            crop.put_pixel(xx, yy, pixel);
            proof {
                assert forall|cx: int, cy: int|
                    #[trigger] crop.in_bounds(cx, cy) && (cy < yy || (cy == yy && cx < xx + 1)) implies crop.pixel(cx, cy) == image.pixel(x + cx, y + cy) by {
                    assert(before.in_bounds(cx, cy));
                }
            }
            xx = xx + 1;
        }
        yy = yy + 1;
    }
    Some(crop)
}

/// The full Tesseract command line for one crop, after the program name:
/// the input path, `stdout` as the output base, the option flags, and the
/// `tsv` config file last. Tesseract stops reading options at the first
/// config-file name, so every flag has to come before `tsv`.
pub open spec fn tesseract_args_spec(input: Seq<char>, config: OcrConfig) -> Seq<Seq<char>> {
    seq![input, "stdout"@] + config.args_spec() + seq!["tsv"@]
}

/// The full Tesseract command line for one crop (see `tesseract_args_spec`).
pub fn tesseract_args(input: &str, config: &OcrConfig) -> (r: Vec<String>)
    ensures
        r@.map_values(|s: String| s@) == tesseract_args_spec(input@, *config),
{
    let mut args: Vec<String> = Vec::new();
    args.push(input.to_owned());
    args.push(String::from_str("stdout"));
    let options = config.to_args();
    let mut i: usize = 0;
    while i < options.len()
        invariant
            0 <= i <= options.len(),
            options@.map_values(|s: String| s@) == config.args_spec(),
            args@.map_values(|s: String| s@) == seq![input@, "stdout"@] + options@.take(i as int).map_values(
                |s: String| s@,
            ),
        decreases options.len() - i,
    {
        let ghost before = args@;
        args.push(options[i].clone());
        assert(args@.map_values(|s: String| s@) =~= before.map_values(|s: String| s@).push(options@[i as int]@));
        assert(options@.take(i + 1).map_values(|s: String| s@) =~= options@.take(i as int).map_values(|s: String| s@).push(options@[i as int]@));
        assert(args@.map_values(|s: String| s@) =~= seq![input@, "stdout"@] + options@.take(i + 1).map_values(
            |s: String| s@,
        ));
        i = i + 1;
    }
    assert(options@.take(options.len() as int) =~= options@);
    args.push(String::from_str("tsv"));
    assert(args@.map_values(|s: String| s@) =~= tesseract_args_spec(input@, *config));
    args
}

/// The text of Tesseract's words: their texts joined with spaces, then
/// made a single plain line.
pub open spec fn words_text(words: Seq<(Seq<char>, u32, u32, u32, u32)>) -> Seq<char> {
    normalized(join_spaced(words.map_values(|w: (Seq<char>, u32, u32, u32, u32)| w.0)))
}

/// What one Tesseract run over a crop amounts to, from the TSV it printed:
/// the words it found and their text, or `None` when the text is blank.
pub fn ocr_result_from_tsv(tsv: &str) -> (r: Option<OcrResult>)
    ensures
        match r {
            None => trim(words_text(tsv_words(tsv@))).len() == 0,
            Some(result) => {
                &&& trim(words_text(tsv_words(tsv@))).len() > 0
                &&& result.text@ == words_text(tsv_words(tsv@))
                &&& result.available
                &&& result.words@.map_values(|w: OcrWord| word_view(w)) == tsv_words(tsv@)
            },
        },
{
    let words = parse_tsv_words(tsv);
    let ghost texts = words@.map_values(|w: OcrWord| word_view(w)).map_values(
        |w: (Seq<char>, u32, u32, u32, u32)| w.0,
    );
    let mut joined = String::new();
    let mut i: usize = 0;
    while i < words.len()
        invariant
            0 <= i <= words.len(),
            texts == words@.map_values(|w: OcrWord| word_view(w)).map_values(
                |w: (Seq<char>, u32, u32, u32, u32)| w.0,
            ),
            joined@ == join_spaced(texts.take(i as int)),
        decreases words.len() - i,
    {
        let ghost before = joined@;
        if i > 0 {
            push_char(&mut joined, ' ');
        }
        let piece = chars_of(words[i].text.as_str());
        let mut k: usize = 0;
        while k < piece.len()
            invariant
                0 <= k <= piece.len(),
                joined@ == (if i > 0 { before + seq![' '] } else { before }) + piece@.take(k as int),
            decreases piece.len() - k,
        {
            push_char(&mut joined, piece[k]);
            assert(piece@.take(k + 1) =~= piece@.take(k as int).push(piece[k as int]));
            k = k + 1;
        }
        proof {
            assert(piece@.take(k as int) =~= piece@);
            assert(texts[i as int] == words[i as int].text@);
            assert(texts.take(i + 1).drop_last() =~= texts.take(i as int));
            if i == 0 {
                assert(joined@ =~= join_spaced(texts.take(1)));
            } else {
                assert(joined@ =~= join_spaced(texts.take(i + 1)));
            }
        }
        i = i + 1;
    }
    assert(texts.take(words.len() as int) =~= texts);
    let text = normalize_text(joined.as_str());
    let chars = chars_of(text.as_str());
    let (a, b) = trimmed_range(&chars, 0, chars.len());
    assert(chars@.subrange(0, chars@.len() as int) =~= chars@);
    if a == b {
        return None;
    }
    Some(OcrResult { text, available: true, words })
}

/// Crop height, in pixels, that OCR is given to work with: on-screen UI
/// text is often 8-10 pixels tall, far below what Tesseract is trained
/// for, so crops are enlarged to roughly this height first.
pub const MIN_OCR_TEXT_HEIGHT: u32 = 48;

/// `a * b`, or `u32::MAX` when that does not fit.
pub open spec fn sat_mul(a: int, b: int) -> int {
    if a * b > u32::MAX { u32::MAX as int } else { a * b }
}

/// The whole factor a crop `height` pixels tall is enlarged by: enough to
/// reach `MIN_OCR_TEXT_HEIGHT`, at least 2 and at most 8.
pub open spec fn upscale_factor(height: int) -> int {
    let needed = (48 + height - 1) / height;
    if needed < 2 { 2 } else if needed > 8 { 8 } else { needed }
}

/// The size an OCR crop of `width` by `height` is enlarged to, keeping its
/// aspect ratio with a whole factor; `None` when it is empty or already
/// tall enough and stays as it is.
pub fn upscaled_size(width: u32, height: u32) -> (r: Option<(u32, u32)>)
    ensures
        height == 0 || height >= MIN_OCR_TEXT_HEIGHT ==> r is None,
        0 < height < MIN_OCR_TEXT_HEIGHT ==> r == Some(
            (
                sat_mul(width as int, upscale_factor(height as int)) as u32,
                sat_mul(height as int, upscale_factor(height as int)) as u32,
            ),
        ),
{
    if height == 0 || height >= MIN_OCR_TEXT_HEIGHT {
        return None;
    }
    let needed = (MIN_OCR_TEXT_HEIGHT + height - 1) / height;
    let factor = if needed < 2 { 2 } else if needed > 8 { 8 } else { needed };
    assert(2 <= factor <= 8);
    assert(width as u64 * factor as u64 <= 0xFFFF_FFFFu64 * 8) by (nonlinear_arith)
        requires factor <= 8;
    assert(height as u64 * factor as u64 <= 0xFFFF_FFFFu64 * 8) by (nonlinear_arith)
        requires factor <= 8;
    let wide = width as u64 * factor as u64;
    let tall = height as u64 * factor as u64;
    let w = if wide > 0xFFFF_FFFF { 0xFFFF_FFFFu32 } else { wide as u32 };
    let h = if tall > 0xFFFF_FFFF { 0xFFFF_FFFFu32 } else { tall as u32 };
    Some((w, h))
}

} // verus!
