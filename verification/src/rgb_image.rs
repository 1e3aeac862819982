//! The RGB image buffer of the `image` crate, as this library fills it.
//!
//! A `Canvas` holds an `image::RgbImage`; two names describe it: the size it
//! was created with and its pixels keyed by `(x, y)`. The library creates,
//! writes and crops canvases only through the wrappers below, and hands the
//! finished image out as its size and its row-major `R, G, B` bytes, from
//! which `RgbImage::from_raw` rebuilds it.
use image::{GenericImageView, Rgb, RgbImage};
use vstd::prelude::*;

verus! {

/// An `image::RgbImage` produced by this library.
#[verifier::external_body]
pub struct Canvas(RgbImage);

/// Width and height the canvas was created with.
pub uninterp spec fn canvas_dims(c: Canvas) -> (u32, u32);

/// The pixels of a canvas as `(r, g, b)`, keyed by `(x, y)`.
pub uninterp spec fn canvas_pixels(c: Canvas) -> Map<(u32, u32), (u8, u8, u8)>;

/// `ImageBuffer::new` can size an RGB buffer of `width` x `height`: it
/// checks `3 * width`, then `3 * width * height`, against `usize`.
pub open spec fn rgb_buffer_fits(width: u32, height: u32) -> bool {
    &&& 3 * (width as int) <= usize::MAX
    &&& 3 * (width as int) * (height as int) <= usize::MAX
}

/// The bytes of a `width` x `height` image, row by row, three per pixel.
pub open spec fn rgb_bytes(pixels: Map<(u32, u32), (u8, u8, u8)>, width: u32, height: u32) -> Seq<
    u8,
> {
    Seq::new(
        (3 * width * height) as nat,
        |i: int|
            {
                let p = pixels[(((i / 3) % (width as int)) as u32, ((i / 3) / (width as int)) as u32)];
                if i % 3 == 0 {
                    p.0
                } else if i % 3 == 1 {
                    p.1
                } else {
                    p.2
                }
            },
    )
}

/// Every coordinate inside a `width` x `height` image mapped to black.
pub open spec fn blank_pixels(width: u32, height: u32) -> Map<(u32, u32), (u8, u8, u8)> {
    Map::new(|p: (u32, u32)| p.0 < width && p.1 < height, |p: (u32, u32)| (0u8, 0u8, 0u8))
}

/// The pixels of `pixels` whose coordinates lie inside `width` x `height`.
pub open spec fn crop_pixels(
    pixels: Map<(u32, u32), (u8, u8, u8)>,
    width: u32,
    height: u32,
) -> Map<(u32, u32), (u8, u8, u8)> {
    Map::new(|p: (u32, u32)| p.0 < width && p.1 < height, |p: (u32, u32)| pixels[p])
}

/// The pixels of a `width` x `height` image filled in row-major order up to,
/// not including, `(x, y)`: those come from `target`, the rest are black.
pub open spec fn row_major_prefix(
    target: Map<(u32, u32), (u8, u8, u8)>,
    width: u32,
    height: u32,
    x: int,
    y: int,
) -> Map<(u32, u32), (u8, u8, u8)> {
    Map::new(
        |p: (u32, u32)| p.0 < width && p.1 < height,
        |p: (u32, u32)|
            if p.1 < y || (p.1 == y && p.0 < x) {
                target[p]
            } else {
                (0u8, 0u8, 0u8)
            },
    )
}

/// Nothing filled yet is a black image.
pub proof fn lemma_prefix_empty(target: Map<(u32, u32), (u8, u8, u8)>, width: u32, height: u32)
    ensures
        row_major_prefix(target, width, height, 0, 0) == blank_pixels(width, height),
{
    assert(row_major_prefix(target, width, height, 0, 0) =~= blank_pixels(width, height));
}

/// Writing the target pixel at `(x, y)` extends the prefix by one pixel.
pub proof fn lemma_prefix_step(
    target: Map<(u32, u32), (u8, u8, u8)>,
    width: u32,
    height: u32,
    x: u32,
    y: u32,
)
    requires
        x < width,
        y < height,
    ensures
        row_major_prefix(target, width, height, x as int, y as int).insert((x, y), target[(x, y)])
            == row_major_prefix(target, width, height, x + 1, y as int),
{
    assert(row_major_prefix(target, width, height, x as int, y as int).insert((x, y), target[(x, y)])
        =~= row_major_prefix(target, width, height, x + 1, y as int));
}

/// A finished row is the start of the next one.
pub proof fn lemma_prefix_next_row(
    target: Map<(u32, u32), (u8, u8, u8)>,
    width: u32,
    height: u32,
    y: u32,
)
    ensures
        row_major_prefix(target, width, height, width as int, y as int) == row_major_prefix(
            target,
            width,
            height,
            0,
            y + 1,
        ),
{
    assert(row_major_prefix(target, width, height, width as int, y as int) =~= row_major_prefix(
        target,
        width,
        height,
        0,
        y + 1,
    ));
}

/// Once every row is filled the image is the target.
pub proof fn lemma_prefix_full(target: Map<(u32, u32), (u8, u8, u8)>, width: u32, height: u32)
    requires
        forall|p: (u32, u32)| #[trigger] target.dom().contains(p) <==> p.0 < width && p.1 < height,
    ensures
        row_major_prefix(target, width, height, 0, height as int) == target,
{
    assert(row_major_prefix(target, width, height, 0, height as int) =~= target);
}

/// Calls `ImageBuffer::new`, which allocates `3 * width * height` zero bytes
/// (it panics when `3 * width` or that length does not fit in `usize`):
/// every pixel of the new image is black.
#[verifier::external_body]
pub(crate) fn new_canvas(width: u32, height: u32) -> (c: Canvas)
    requires
        rgb_buffer_fits(width, height),
    ensures
        canvas_dims(c) == (width, height),
        canvas_pixels(c) == blank_pixels(width, height),
{
    Canvas(RgbImage::new(width, height))
}

/// Calls `ImageBuffer::put_pixel`, which panics outside the image and
/// otherwise overwrites the one pixel at `(x, y)`.
#[verifier::external_body]
pub(crate) fn put_canvas_pixel(c: &mut Canvas, x: u32, y: u32, px: (u8, u8, u8))
    requires
        x < canvas_dims(*old(c)).0,
        y < canvas_dims(*old(c)).1,
    ensures
        canvas_dims(*final(c)) == canvas_dims(*old(c)),
        canvas_pixels(*final(c)) == canvas_pixels(*old(c)).insert((x, y), px),
{
    c.0.put_pixel(x, y, Rgb([px.0, px.1, px.2]))
}

/// Calls `GenericImageView::view` on the top-left `width` x `height` corner
/// (it asserts that the corner lies inside the image) and `SubImage::to_image`,
/// which copies that corner pixel by pixel into a new image.
#[verifier::external_body]
pub(crate) fn crop_canvas(c: &Canvas, width: u32, height: u32) -> (r: Canvas)
    requires
        width <= canvas_dims(*c).0,
        height <= canvas_dims(*c).1,
    ensures
        canvas_dims(r) == (width, height),
        canvas_pixels(r) == crop_pixels(canvas_pixels(*c), width, height),
{
    Canvas(c.0.view(0, 0, width, height).to_image())
}

/// Calls `ImageBuffer::dimensions`, which returns the width and height the
/// buffer was created with.
#[verifier::external_body]
fn canvas_dimensions(c: &Canvas) -> (r: (u32, u32))
    ensures
        r == canvas_dims(*c),
{
    c.0.dimensions()
}

/// Calls `ImageBuffer::into_raw`, which hands out the buffer's bytes: pixel
/// `(x, y)` is at `3 * (y * width + x)`, red first.
#[verifier::external_body]
fn canvas_into_raw(c: Canvas) -> (bytes: Vec<u8>)
    ensures
        bytes@ == rgb_bytes(canvas_pixels(c), canvas_dims(c).0, canvas_dims(c).1),
{
    c.0.into_raw()
}

impl Canvas {
    /// Width and height of the image.
    pub fn dimensions(&self) -> (r: (u32, u32))
        ensures
            r == canvas_dims(*self),
    {
        canvas_dimensions(self)
    }

    /// The image's bytes, row by row, `R, G, B` for each pixel.
    pub fn into_raw(self) -> (bytes: Vec<u8>)
        ensures
            bytes@ == rgb_bytes(canvas_pixels(self), canvas_dims(self).0, canvas_dims(self).1),
    {
        canvas_into_raw(self)
    }
}

} // verus!
