//! The OCR engine built into Windows. It needs the Windows runtime, which
//! this platform does not have, so it always reports itself absent and
//! callers fall back to Tesseract.

use vstd::prelude::*;
use crate::frame::{Frame, frame_dims};
use crate::ocr::text::{chars_of, string_of_range, trim, trimmed_range};

verus! {

/// Whether the Windows OCR engine is usable on this machine: never here.
pub fn is_available() -> (r: bool)
    ensures
        !r,
{
    false
}

/// Recognise the text in `image`: the engine is absent, so nothing is
/// recognised.
pub fn recognize(image: &Frame) -> (r: Option<String>)
    ensures
        r is None,
{
    None
}

/// The BGRA bytes of the bitmap the Windows engine is handed for `image`:
/// pixel by pixel in row-major order, blue, green, red, then an opaque
/// alpha; `None` for an image without pixels.
pub fn to_opaque_bgra(image: &Frame) -> (r: Option<Vec<u8>>)
    ensures
        r is None <==> image.width_spec() == 0 || image.height_spec() == 0,
        r matches Some(bytes) ==> {
            &&& bytes@.len() == 4 * image.width_spec() * image.height_spec()
            &&& forall|x: int, y: int| #[trigger] image.in_bounds(x, y) ==> {
                let i = 4 * (y * image.width_spec() + x);
                let p = image.pixel(x, y);
                bytes@.subrange(i, i + 4) == seq![p[2], p[1], p[0], 255u8]
            }
        },
{
    let (width, height) = image.dimensions();
    if width == 0 || height == 0 {
        return None;
    }
    let ghost w = width as int;
    let ghost h = height as int;
    let mut bytes: Vec<u8> = Vec::new();
    let mut y: u32 = 0;
    while y < height
        invariant
            0 <= y <= height,
            (width, height) == frame_dims(*image),
            w == width,
            h == height,
            crate::frame::frame_samples(*image).len() >= 4 * w * h,
            bytes@.len() == 4 * (y * w),
            forall|px: int, py: int| #[trigger] image.in_bounds(px, py) && py < y ==> {
                let i = 4 * (py * w + px);
                let p = image.pixel(px, py);
                bytes@.subrange(i, i + 4) == seq![p[2], p[1], p[0], 255u8]
            },
        decreases height - y,
    {
        let mut x: u32 = 0;
        while x < width
            invariant
                0 <= x <= width,
                0 <= y < height,
                (width, height) == frame_dims(*image),
                w == width,
                h == height,
                crate::frame::frame_samples(*image).len() >= 4 * w * h,
                bytes@.len() == 4 * (y * w + x),
                forall|px: int, py: int| #[trigger] image.in_bounds(px, py) && (py < y || (py == y && px < x)) ==> {
                    let i = 4 * (py * w + px);
                    let p = image.pixel(px, py);
                    bytes@.subrange(i, i + 4) == seq![p[2], p[1], p[0], 255u8]
                },
            decreases width - x,
        {
            let pixel = image.get_pixel(x, y);
            let ghost before = bytes@;
            bytes.push(pixel[2]);
            bytes.push(pixel[1]);
            bytes.push(pixel[0]);
            bytes.push(255);
            proof {
                assert forall|px: int, py: int| #[trigger] image.in_bounds(px, py) && (py < y || (py == y && px < x
                    + 1)) implies {
                    let i = 4 * (py * w + px);
                    let p = image.pixel(px, py);
                    bytes@.subrange(i, i + 4) == seq![p[2], p[1], p[0], 255u8]
                } by {
                    let i = 4 * (py * w + px);
                    if py < y || px < x {
                        assert(py * w + px < y * w + x) by (nonlinear_arith)
                            requires py < y || (py == y && px < x), 0 <= px < w, 0 <= py;
                        assert(bytes@.subrange(i, i + 4) =~= before.subrange(i, i + 4));
                    } else {
                        assert(bytes@.subrange(i, i + 4) =~= seq![pixel[2], pixel[1], pixel[0], 255u8]);
                    }
                }
            }
            x = x + 1;
        }
        assert(4 * (y * w + w) == 4 * ((y + 1) * w)) by (nonlinear_arith);
        y = y + 1;
    }
    assert(4 * (h * w) == 4 * w * h) by (nonlinear_arith);
    Some(bytes)
}

/// The text the Windows engine read, as one trimmed line; `None` when it
/// read nothing but white space.
pub fn recognized_line(text: &str) -> (r: Option<String>)
    ensures
        match r {
            None => trim(text@).len() == 0,
            Some(line) => trim(text@).len() > 0 && line@ == trim(text@),
        },
{
    let chars = chars_of(text);
    let (a, b) = trimmed_range(&chars, 0, chars.len());
    assert(chars@.subrange(0, chars@.len() as int) =~= chars@);
    if a == b {
        None
    } else {
        Some(string_of_range(&chars, a, b))
    }
}

} // verus!
