//! A raster as an image buffer of the `image` crate, ready to be encoded.

use vstd::prelude::*;
use image::{GrayImage, Luma};
use crate::normalize::{lemma_index_in_bounds, GrayscaleRaster};

verus! {

/// A gray image buffer of the `image` crate: one 8-bit sample for each
/// pixel.
#[verifier::external_body]
pub struct GrayCanvas {
    image: GrayImage,
}

/// Width and height of the buffer, in pixels.
pub uninterp spec fn canvas_size(canvas: GrayCanvas) -> (nat, nat);

/// The samples of the buffer in row-major order.
pub uninterp spec fn canvas_samples(canvas: GrayCanvas) -> Seq<u8>;

/// `ImageBuffer::new` for gray pixels: a buffer of the given size with one
/// sample for each pixel, every sample zero. The call panics where the
/// number of samples does not fit a `usize`, which `requires` leaves out.
#[verifier::external_body]
fn blank_canvas(width: u32, height: u32) -> (canvas: GrayCanvas)
    requires
        height * width <= usize::MAX,
    ensures
        canvas_size(canvas) == (width as nat, height as nat),
        canvas_samples(canvas) == Seq::new((height * width) as nat, |i: int| 0u8),
{
    GrayCanvas { image: GrayImage::new(width, height) }
}

/// `ImageBuffer::put_pixel` for gray pixels: the sample of column `x`, row
/// `y`, which lies at `y * width + x`, becomes `level`, and nothing else
/// changes. The call panics outside the image, which `requires` leaves out.
#[verifier::external_body]
fn put_sample(canvas: &mut GrayCanvas, x: u32, y: u32, level: u8)
    requires
        x < canvas_size(*old(canvas)).0,
        y < canvas_size(*old(canvas)).1,
    ensures
        canvas_size(*final(canvas)) == canvas_size(*old(canvas)),
        canvas_samples(*final(canvas)) == canvas_samples(*old(canvas)).update(
            y * canvas_size(*old(canvas)).0 + x,
            level,
        ),
{
    canvas.image.put_pixel(x, y, Luma([level]));
}

/// `ImageBuffer::into_raw`: the vector of samples that the buffer holds.
#[verifier::external_body]
fn take_samples(canvas: GrayCanvas) -> (samples: Vec<u8>)
    ensures
        samples@ == canvas_samples(canvas),
{
    canvas.image.into_raw()
}

impl GrayCanvas {
    /// Hands out the samples in row-major order and gives up the buffer.
    pub fn into_samples(self) -> (samples: Vec<u8>)
        ensures
            samples@ == canvas_samples(self),
    {
        take_samples(self)
    }
}

/// Copies a raster into an image buffer of the same size, pixel by pixel.
/// There is no such buffer for a raster wider or higher than `u32::MAX`.
pub fn to_image(raster: &GrayscaleRaster) -> (r: Option<GrayCanvas>)
    ensures
        r is Some <==> raster.spec_width() <= u32::MAX && raster.spec_height() <= u32::MAX,
        r matches Some(canvas) ==> {
            &&& canvas_size(canvas) == (raster.spec_width(), raster.spec_height())
            &&& canvas_samples(canvas) == raster@
        },
{
    let width = raster.width();
    let height = raster.height();
    if width > u32::MAX as usize || height > u32::MAX as usize {
        return None;
    }
    let pixels = raster.pixels();
    let columns = width as u32;
    let rows = height as u32;
    let total = pixels.len();
    assert(rows * columns == total) by (nonlinear_arith)
        requires
            rows == height,
            columns == width,
            total == height * width,
    ;
    let mut canvas = blank_canvas(columns, rows);
    let mut at: usize = 0;
    let mut y: usize = 0;
    while y < height
        invariant
            y <= height <= u32::MAX,
            width <= u32::MAX,
            pixels@.len() == height * width,
            at == y * width,
            canvas_size(canvas) == (width as nat, height as nat),
            canvas_samples(canvas).len() == pixels@.len(),
            forall|i: int| 0 <= i < at ==> canvas_samples(canvas)[i] == pixels@[i],
        decreases height - y,
    {
        let mut x: usize = 0;
        while x < width
            invariant
                y < height <= u32::MAX,
                x <= width <= u32::MAX,
                pixels@.len() == height * width,
                at == y * width + x,
                canvas_size(canvas) == (width as nat, height as nat),
                canvas_samples(canvas).len() == pixels@.len(),
                forall|i: int| 0 <= i < at ==> canvas_samples(canvas)[i] == pixels@[i],
            decreases width - x,
        {
            proof {
                lemma_index_in_bounds(y as int, x as int, height as int, width as int);
            }
            put_sample(&mut canvas, x as u32, y as u32, pixels[at]);
            at += 1;
            x += 1;
        }
        assert((y + 1) * width == y * width + width) by (nonlinear_arith);
        y += 1;
    }
    assert(canvas_samples(canvas) =~= raster@);
    Some(canvas)
}

} // verus!
