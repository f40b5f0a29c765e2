//! The pixel buffers the library reads: `image`'s RGBA and grayscale
//! buffers, each held in a frame type of this crate and described by its
//! dimensions and its raw sample sequence.

use vstd::prelude::*;
use image::{GrayImage, Rgba, RgbaImage};

verus! {

/// An RGBA frame: an `image::RgbaImage`, four samples per pixel, row-major.
#[verifier::external_body]
pub struct Frame {
    image: RgbaImage,
}

/// A single-channel frame: an `image::GrayImage`, one sample per pixel.
#[verifier::external_body]
pub struct GrayFrame {
    image: GrayImage,
}

/// The raw sample buffer of an RGBA frame.
pub uninterp spec fn frame_samples(frame: Frame) -> Seq<u8>;

/// The `(width, height)` an RGBA frame was made with.
pub uninterp spec fn frame_dims(frame: Frame) -> (u32, u32);

/// The raw sample buffer of a grayscale frame.
pub uninterp spec fn gray_samples(frame: GrayFrame) -> Seq<u8>;

/// The `(width, height)` a grayscale frame was made with.
pub uninterp spec fn gray_dims(frame: GrayFrame) -> (u32, u32);

pub type Pixel = [u8; 4];

impl Frame {
    pub open spec fn width_spec(self) -> int {
        frame_dims(self).0 as int
    }

    pub open spec fn height_spec(self) -> int {
        frame_dims(self).1 as int
    }

    /// Index of the first sample of pixel `(x, y)`.
    pub open spec fn sample_index(self, x: int, y: int) -> int {
        (y * self.width_spec() + x) * 4
    }

    /// The four samples of pixel `(x, y)`.
    pub open spec fn pixel(self, x: int, y: int) -> Seq<u8> {
        let i = self.sample_index(x, y);
        frame_samples(self).subrange(i, i + 4)
    }

    pub open spec fn in_bounds(self, x: int, y: int) -> bool {
        0 <= x < self.width_spec() && 0 <= y < self.height_spec()
    }

    /// Calls `ImageBuffer::new`: a zero-filled buffer of `4 * width * height`
    /// samples. The source panics when that length overflows `usize`, and
    /// the `Vec` it allocates panics beyond `isize::MAX` bytes.
    #[verifier::external_body]
    fn image_new(width: u32, height: u32) -> (r: Frame)
        requires
            4 * (width as int) * (height as int) <= isize::MAX,
        ensures
            frame_dims(r) == (width, height),
            frame_samples(r) == Seq::new((4 * (width as int) * (height as int)) as nat, |i: int| 0u8),
    {
        Frame { image: RgbaImage::new(width, height) }
    }

    /// Calls `ImageBuffer::from_pixel`: every pixel of the new buffer is
    /// `pixel` (it allocates as `ImageBuffer::new` does, with the same
    /// limits).
    #[verifier::external_body]
    fn image_from_pixel(width: u32, height: u32, pixel: Pixel) -> (r: Frame)
        requires
            4 * (width as int) * (height as int) <= isize::MAX,
        ensures
            frame_dims(r) == (width, height),
            frame_samples(r) == Seq::new(
                (4 * (width as int) * (height as int)) as nat,
                |i: int| pixel@[i % 4],
            ),
    {
        Frame { image: RgbaImage::from_pixel(width, height, Rgba(pixel)) }
    }

    /// Calls `ImageBuffer::from_raw`: it accepts `samples` exactly when they
    /// hold at least `4 * width * height` values, and keeps them unchanged.
    #[verifier::external_body]
    fn image_from_raw(width: u32, height: u32, samples: Vec<u8>) -> (r: Option<Frame>)
        ensures
            r is Some <==> 4 * (width as int) * (height as int) <= samples@.len(),
            r matches Some(f) ==> frame_dims(f) == (width, height) && frame_samples(f)
                == samples@,
    {
        match RgbaImage::from_raw(width, height, samples) {
            Some(image) => Some(Frame { image }),
            None => None,
        }
    }

    /// Calls `ImageBuffer::dimensions`, which returns the two fields the
    /// buffer was made with; every constructor has checked that the sample
    /// buffer (a `Vec<u8>`, which never holds more than `isize::MAX` bytes)
    /// holds at least `4 * width * height` samples.
    #[verifier::external_body]
    fn image_dimensions(&self) -> (r: (u32, u32))
        ensures
            r == frame_dims(*self),
            4 * (r.0 as int) * (r.1 as int) <= frame_samples(*self).len() <= isize::MAX,
    {
        self.image.dimensions()
    }

    /// Calls `ImageBuffer::get_pixel` (which panics out of bounds) and hands
    /// out the pixel's four samples.
    #[verifier::external_body]
    fn image_get_pixel(&self, x: u32, y: u32) -> (r: Pixel)
        requires
            self.in_bounds(x as int, y as int),
        ensures
            r@ == self.pixel(x as int, y as int),
    {
        self.image.get_pixel(x, y).0
    }

    /// Calls `ImageBuffer::put_pixel` (which panics out of bounds): the
    /// four samples of pixel `(x, y)` become `pixel`, nothing else changes.
    #[verifier::external_body]
    fn image_put_pixel(&mut self, x: u32, y: u32, pixel: Pixel)
        requires
            old(self).in_bounds(x as int, y as int),
        ensures
            frame_dims(*final(self)) == frame_dims(*old(self)),
            frame_samples(*final(self)) == frame_samples(*old(self)).update(
                old(self).sample_index(x as int, y as int),
                pixel[0],
            ).update(old(self).sample_index(x as int, y as int) + 1, pixel[1]).update(
                old(self).sample_index(x as int, y as int) + 2,
                pixel[2],
            ).update(old(self).sample_index(x as int, y as int) + 3, pixel[3]),
    {
        self.image.put_pixel(x, y, Rgba(pixel))
    }

    /// Calls `ImageBuffer::into_raw`, which hands back the sample buffer.
    #[verifier::external_body]
    fn image_into_raw(self) -> (r: Vec<u8>)
        ensures
            r@ == frame_samples(self),
    {
        self.image.into_raw()
    }

    /// A black, fully transparent frame of the given size.
    pub fn new(width: u32, height: u32) -> (r: Frame)
        requires
            4 * (width as int) * (height as int) <= isize::MAX,
        ensures
            frame_dims(r) == (width, height),
            forall|x: int, y: int| #[trigger] r.in_bounds(x, y) ==> r.pixel(x, y) == seq![0u8, 0u8, 0u8, 0u8],
    {
        let r = Frame::image_new(width, height);
        proof {
            assert forall|x: int, y: int| #[trigger] r.in_bounds(x, y) implies r.pixel(x, y) == seq![0u8, 0u8, 0u8, 0u8] by {
                lemma_pixel_index_in_range(width as int, height as int, x, y);
                assert(r.pixel(x, y) =~= seq![0u8, 0u8, 0u8, 0u8]);
            }
        }
        r
    }

    /// A frame of the given size whose every pixel is `pixel`.
    pub fn from_pixel(width: u32, height: u32, pixel: Pixel) -> (r: Frame)
        requires
            4 * (width as int) * (height as int) <= isize::MAX,
        ensures
            frame_dims(r) == (width, height),
            forall|x: int, y: int| #[trigger] r.in_bounds(x, y) ==> r.pixel(x, y) == pixel@,
    {
        let r = Frame::image_from_pixel(width, height, pixel);
        proof {
            assert forall|x: int, y: int| #[trigger] r.in_bounds(x, y) implies r.pixel(x, y) == pixel@ by {
                lemma_pixel_index_in_range(width as int, height as int, x, y);
                let i = r.sample_index(x, y);
                assert(i % 4 == 0) by (nonlinear_arith)
                    requires i == (y * (width as int) + x) * 4;
                assert((i + 1) % 4 == 1) by (nonlinear_arith)
                    requires i % 4 == 0, i >= 0;
                assert((i + 2) % 4 == 2) by (nonlinear_arith)
                    requires i % 4 == 0, i >= 0;
                assert((i + 3) % 4 == 3) by (nonlinear_arith)
                    requires i % 4 == 0, i >= 0;
                assert(r.pixel(x, y) =~= pixel@);
            }
        }
        r
    }

    /// A frame over `samples`, four per pixel, row-major; `None` when they
    /// are fewer than `4 * width * height`.
    pub fn from_raw(width: u32, height: u32, samples: Vec<u8>) -> (r: Option<Frame>)
        ensures
            r is Some <==> 4 * (width as int) * (height as int) <= samples@.len(),
            r matches Some(f) ==> frame_dims(f) == (width, height) && frame_samples(f)
                == samples@,
    {
        Frame::image_from_raw(width, height, samples)
    }

    /// The frame's sample buffer.
    pub fn into_raw(self) -> (r: Vec<u8>)
        ensures
            r@ == frame_samples(self),
    {
        self.image_into_raw()
    }

    pub fn width(&self) -> (r: u32)
        ensures
            r == self.width_spec(),
            frame_samples(*self).len() >= 4 * self.width_spec() * self.height_spec(),
    {
        self.image_dimensions().0
    }

    pub fn height(&self) -> (r: u32)
        ensures
            r == self.height_spec(),
            frame_samples(*self).len() >= 4 * self.width_spec() * self.height_spec(),
    {
        self.image_dimensions().1
    }

    pub fn dimensions(&self) -> (r: (u32, u32))
        ensures
            r == frame_dims(*self),
            frame_samples(*self).len() >= 4 * self.width_spec() * self.height_spec(),
            frame_samples(*self).len() <= isize::MAX,
    {
        self.image_dimensions()
    }

    /// The four samples of pixel `(x, y)`.
    pub fn get_pixel(&self, x: u32, y: u32) -> (r: Pixel)
        requires
            self.in_bounds(x as int, y as int),
        ensures
            r@ == self.pixel(x as int, y as int),
    {
        self.image_get_pixel(x, y)
    }

    /// Set pixel `(x, y)` to `pixel`, leaving every other pixel unchanged.
    pub fn put_pixel(&mut self, x: u32, y: u32, pixel: Pixel)
        requires
            old(self).in_bounds(x as int, y as int),
        ensures
            frame_dims(*final(self)) == frame_dims(*old(self)),
            final(self).pixel(x as int, y as int) == pixel@,
            forall|px: int, py: int|
                #[trigger] old(self).in_bounds(px, py) && (px != x || py != y) ==> final(self).pixel(px, py)
                    == old(self).pixel(px, py),
    {
        let ghost before = *self;
        let _ = self.image_dimensions();
        self.image_put_pixel(x, y, pixel);
        proof {
            let w = before.width_spec();
            let h = before.height_spec();
            lemma_pixel_index_in_range(w, h, x as int, y as int);
            assert(self.pixel(x as int, y as int) =~= pixel@);
            assert forall|px: int, py: int|
                #[trigger] before.in_bounds(px, py) && (px != x || py != y) implies self.pixel(px, py)
                    == before.pixel(px, py) by {
                lemma_pixel_index_in_range(w, h, px, py);
                lemma_pixels_disjoint(w, h, px, py, x as int, y as int);
                assert(self.pixel(px, py) =~= before.pixel(px, py));
            }
        }
    }
}

impl GrayFrame {
    pub open spec fn width_spec(self) -> int {
        gray_dims(self).0 as int
    }

    pub open spec fn height_spec(self) -> int {
        gray_dims(self).1 as int
    }

    pub open spec fn in_bounds(self, x: int, y: int) -> bool {
        0 <= x < self.width_spec() && 0 <= y < self.height_spec()
    }

    /// The sample of pixel `(x, y)`.
    pub open spec fn sample(self, x: int, y: int) -> u8 {
        gray_samples(self)[y * self.width_spec() + x]
    }

    /// Calls `ImageBuffer::from_raw`: it accepts `samples` exactly when they
    /// hold at least `width * height` values, and keeps them unchanged.
    #[verifier::external_body]
    fn image_from_raw(width: u32, height: u32, samples: Vec<u8>) -> (r: Option<GrayFrame>)
        ensures
            r is Some <==> (width as int) * (height as int) <= samples@.len(),
            r matches Some(f) ==> gray_dims(f) == (width, height) && gray_samples(f) == samples@,
    {
        match GrayImage::from_raw(width, height, samples) {
            Some(image) => Some(GrayFrame { image }),
            None => None,
        }
    }

    /// Calls `ImageBuffer::dimensions`, which returns the two fields the
    /// buffer was made with; every constructor has checked that the sample
    /// buffer holds at least `width * height` samples.
    #[verifier::external_body]
    fn image_dimensions(&self) -> (r: (u32, u32))
        ensures
            r == gray_dims(*self),
            gray_samples(*self).len() >= (r.0 as int) * (r.1 as int),
    {
        self.image.dimensions()
    }

    /// Calls `ImageBuffer::get_pixel` (which panics out of bounds) and hands
    /// out the pixel's one sample.
    #[verifier::external_body]
    fn image_get_pixel(&self, x: u32, y: u32) -> (r: u8)
        requires
            self.in_bounds(x as int, y as int),
        ensures
            r == self.sample(x as int, y as int),
    {
        self.image.get_pixel(x, y).0[0]
    }

    /// A grayscale frame over `samples`, one per pixel, row-major; `None`
    /// when they are fewer than `width * height`.
    pub fn from_raw(width: u32, height: u32, samples: Vec<u8>) -> (r: Option<GrayFrame>)
        ensures
            r is Some <==> (width as int) * (height as int) <= samples@.len(),
            r matches Some(f) ==> gray_dims(f) == (width, height) && gray_samples(f) == samples@,
    {
        GrayFrame::image_from_raw(width, height, samples)
    }

    pub fn dimensions(&self) -> (r: (u32, u32))
        ensures
            r == gray_dims(*self),
            gray_samples(*self).len() >= self.width_spec() * self.height_spec(),
    {
        self.image_dimensions()
    }

    /// The sample of pixel `(x, y)`.
    pub fn get_pixel(&self, x: u32, y: u32) -> (r: u8)
        requires
            self.in_bounds(x as int, y as int),
        ensures
            r == self.sample(x as int, y as int),
    {
        self.image_get_pixel(x, y)
    }
}

/// Pixel `(x, y)` of a `w` by `h` frame starts at a sample index whose four
/// samples lie inside the first `4 * w * h`.
pub proof fn lemma_pixel_index_in_range(w: int, h: int, x: int, y: int)
    requires
        0 <= x < w,
        0 <= y < h,
    ensures
        0 <= (y * w + x) * 4,
        (y * w + x) * 4 + 4 <= 4 * w * h,
{
    assert(y * w + x + 1 <= w * h) by (nonlinear_arith)
        requires 0 <= x < w, 0 <= y < h;
    assert(0 <= y * w) by (nonlinear_arith)
        requires 0 <= y, 0 <= w;
    assert(4 * w * h == (w * h) * 4) by (nonlinear_arith);
}

/// Two distinct pixels of a `w`-wide frame own disjoint sample ranges.
pub proof fn lemma_pixels_disjoint(w: int, h: int, x1: int, y1: int, x2: int, y2: int)
    requires
        0 <= x1 < w,
        0 <= y1 < h,
        0 <= x2 < w,
        0 <= y2 < h,
        x1 != x2 || y1 != y2,
    ensures
        (y1 * w + x1) * 4 + 4 <= (y2 * w + x2) * 4 || (y2 * w + x2) * 4 + 4 <= (y1 * w + x1) * 4,
{
    if y1 == y2 {
    } else if y1 < y2 {
        assert(y1 * w + w <= y2 * w) by (nonlinear_arith)
            requires y1 < y2, w > 0;
    } else {
        assert(y2 * w + w <= y1 * w) by (nonlinear_arith)
            requires y2 < y1, w > 0;
    }
}

} // verus!
