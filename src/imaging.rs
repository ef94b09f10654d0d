//! Calls into the image-processing crates that the framing logic relies on.
use vstd::prelude::*;
use image::{GrayImage, Luma};
use imageproc::drawing::draw_hollow_rect_mut;
use imageproc::region_labelling::{connected_components, Connectivity};
use kornia::image::{allocator::CpuAllocator, Image, ImageSize};
use kornia::imgproc::crop::crop_image;
use crate::geometry::Rect;

verus! {

/// The label map that connected-component labelling gives for a grey image
/// of `width x height` pixels stored row by row in `pixels`.
pub uninterp spec fn components_of(width: u32, height: u32, pixels: Seq<u8>) -> Seq<u32>;

/// Whether connected-component labelling can run on the image. It keeps one
/// provisional-label slot per pixel and numbers provisional labels from 1, so
/// at most `width * height - 1` pixels may open a label of their own: this
/// holds when some pixel is background, or when all pixels hold one value and
/// there are at least two of them (only the first pixel then opens a label).
pub open spec fn labelling_fits(width: u32, height: u32, pixels: Seq<u8>) -> bool {
    let n = width * height;
    ||| n == 0
    ||| exists|i: int| 0 <= i < n && pixels[i] == 0
    ||| n >= 2 && forall|i: int| 0 <= i < n ==> #[trigger] pixels[i] == pixels[0]
}

/// Relies on `imageproc::region_labelling::connected_components` with
/// eight-connectivity and background value 0: one label per pixel in row-major
/// order, 0 exactly on background pixels, regions numbered upward from 1 (so no
/// label exceeds the pixel count). It panics on images of 2^32 pixels or more,
/// and on images where every pixel opens a label (the forest's bounds check
/// fails), and `GrayImage::from_raw` needs at least `width * height` bytes.
#[verifier::external_body]
pub(crate) fn label_components(width: u32, height: u32, pixels: Vec<u8>) -> (r: Vec<u32>)
    requires
        pixels.len() >= width * height,
        width * height < 0x1_0000_0000,
        labelling_fits(width, height, pixels@),
    ensures
        r@ == components_of(width, height, pixels@),
        r.len() == width * height,
        forall|i: int| 0 <= i < r.len() ==> (r[i] == 0 <==> pixels[i] == 0),
        forall|i: int| 0 <= i < r.len() ==> r[i] <= width * height,
{
    let img = GrayImage::from_raw(width, height, pixels).unwrap();
    connected_components(&img, Connectivity::Eight, Luma([0u8])).into_raw()
}

/// An RGBA image of `width x height` pixels, stored row by row in `data`,
/// after the outline of the rectangle `(left, top, width, height)` has been
/// drawn on it in `color`.
pub uninterp spec fn outline_drawn(width: u32, height: u32, data: Seq<u8>, rect: (u32, u32, u32, u32), color: (u8, u8, u8, u8)) -> Seq<u8>;

/// Whether pixel `(x, y)` lies on the one-pixel outline of the rectangle
/// `(left, top, width, height)`.
pub open spec fn on_outline(rect: (u32, u32, u32, u32), x: int, y: int) -> bool {
    let (left, top, width, height) = rect;
    let right = left + width - 1;
    let bottom = top + height - 1;
    ||| (y == top || y == bottom) && left <= x <= right
    ||| (x == left || x == right) && top <= y <= bottom
}

/// Channel `c` of a colour.
pub open spec fn channel(color: (u8, u8, u8, u8), c: int) -> u8 {
    if c == 0 {
        color.0
    } else if c == 1 {
        color.1
    } else if c == 2 {
        color.2
    } else {
        color.3
    }
}

/// An RGBA image with the outline of `rect` painted in `color`: every pixel
/// of the image on the outline takes the colour, every other byte is kept.
pub open spec fn outline_painted(width: u32, data: Seq<u8>, rect: (u32, u32, u32, u32), color: (u8, u8, u8, u8)) -> Seq<u8> {
    Seq::new(
        data.len(),
        |b: int| if on_outline(rect, (b / 4) % (width as int), (b / 4) / (width as int)) { channel(color, b % 4) } else { data[b] },
    )
}

/// Relies on `kornia::imgproc::crop::crop_image` on four-channel byte
/// images: row `i` of the result is the `rect.width` pixels of source row
/// `rect.top + i` that start at column `rect.left`. It indexes out of bounds
/// (and panics) when the rectangle leaves the source image, and splits the
/// result into rows with `chunks_exact_mut`, which panics on a zero width.
#[verifier::external_body]
pub(crate) fn crop_rgba(data: Vec<u8>, width: u32, height: u32, rect: Rect) -> (r: Vec<u8>)
    requires
        data.len() == 4 * width * height,
        rect.width >= 1,
        rect.left + rect.width <= width,
        rect.top + rect.height <= height,
    ensures
        r.len() == 4 * rect.width * rect.height,
        forall|y: int, x: int, c: int|
            0 <= y < rect.height && 0 <= x < rect.width && 0 <= c < 4 ==> #[trigger] r[4 * (y * rect.width + x) + c]
                == data[4 * ((rect.top + y) * width + rect.left + x) + c],
{
    let src_size = ImageSize { width: width as usize, height: height as usize };
    let dst_size = ImageSize { width: rect.width as usize, height: rect.height as usize };
    let alloc = CpuAllocator::default();
    let src = Image::<u8, 4, _>::new(src_size, data, alloc.clone()).unwrap();
    let mut dst = Image::<u8, 4, _>::from_size_val(dst_size, 0, alloc).unwrap();
    let _ = crop_image(&src, &mut dst, rect.left as usize, rect.top as usize);
    dst.into_vec()
}

/// Relies on `imageproc::drawing::draw_hollow_rect_mut` on an RGBA image:
/// only the outline is drawn, clipped to the image, and the buffer keeps its
/// length. `Rect::of_size` needs both sides positive, and the far edges go
/// through `f32` and the line iterator steps in `i32`, so they are kept well
/// below `i32::MAX`. Each side is a Bresenham line with one constant
/// coordinate, so it covers exactly the pixels from one corner to the other
/// where the corners are exact in `f32` (below 2^24). Pixels are clipped
/// against the image sides cast to `i32`, so the sides stay below 2^31 there.
#[verifier::external_body]
pub(crate) fn draw_outline(data: Vec<u8>, width: u32, height: u32, rect: Rect, color: (u8, u8, u8, u8)) -> (r: Vec<u8>)
    requires
        data.len() == 4 * width * height,
        rect.width >= 1,
        rect.height >= 1,
        rect.left + rect.width <= 0x4000_0000,
        rect.top + rect.height <= 0x4000_0000,
    ensures
        r@ == outline_drawn(width, height, data@, (rect.left, rect.top, rect.width, rect.height), color),
        r.len() == data.len(),
        1 <= width < 0x8000_0000 && height < 0x8000_0000 && rect.left + rect.width <= 0x100_0000
            && rect.top + rect.height <= 0x100_0000
            ==> r@ == outline_painted(width, data@, (rect.left, rect.top, rect.width, rect.height), color),
{
    let mut img = image::RgbaImage::from_raw(width, height, data).unwrap();
    let area = imageproc::rect::Rect::at(rect.left as i32, rect.top as i32).of_size(rect.width, rect.height);
    draw_hollow_rect_mut(&mut img, area, image::Rgba([color.0, color.1, color.2, color.3]));
    img.into_raw()
}

} // verus!
