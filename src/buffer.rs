//! The pixel storage of a canvas: slint's shared pixel buffer and image handle,
//! and the few calls into them that the canvas makes.
use vstd::prelude::*;
use slint::{Image, Rgb8Pixel, SharedPixelBuffer};

verus! {

#[verifier::external_type_specification]
#[verifier::reject_recursive_types(T)]
pub struct ExRgb<T>(rgb::Rgb<T>);

#[verifier::external_type_specification]
#[verifier::external_body]
#[verifier::reject_recursive_types(Pixel)]
pub struct ExSharedPixelBuffer<Pixel>(slint::SharedPixelBuffer<Pixel>);

#[verifier::external_type_specification]
#[verifier::external_body]
pub struct ExImage(slint::Image);

/// The pixels that a shared pixel buffer holds, in its own row-major order.
pub uninterp spec fn buffer_pixels(b: SharedPixelBuffer<Rgb8Pixel>) -> Seq<Rgb8Pixel>;

/// The width and height, in pixels, that a shared pixel buffer was made with.
pub uninterp spec fn buffer_size(b: SharedPixelBuffer<Rgb8Pixel>) -> (u32, u32);

/// The pixels of an image that was made from an RGB pixel buffer.
pub uninterp spec fn image_pixels(img: Image) -> Seq<Rgb8Pixel>;

/// The width and height, in pixels, of an image.
pub uninterp spec fn image_size(img: Image) -> (u32, u32);

/// The color every pixel of a fresh buffer starts with: `Rgb8Pixel::default()`.
pub open spec fn black() -> Rgb8Pixel {
    rgb::Rgb { r: 0, g: 0, b: 0 }
}

/// Relies on `SharedPixelBuffer::new`: a buffer of the given width and
/// height holding `width * height` pixels, each `Default::default()`, which
/// for `Rgb<u8>` is all channels zero.
#[verifier::external_body]
pub(crate) fn new_buffer(width: u32, height: u32) -> (b: SharedPixelBuffer<Rgb8Pixel>)
    requires
        width as int * height as int <= usize::MAX as int,
    ensures
        buffer_size(b) == (width, height),
        buffer_pixels(b).len() == width as int * height as int,
        forall|i: int| 0 <= i < buffer_pixels(b).len() ==> buffer_pixels(b)[i] == black(),
{
    SharedPixelBuffer::new(width, height)
}

/// Relies on `SharedPixelBuffer::make_mut_slice`: a slice over the buffer's
/// pixels (copied first if the buffer was shared), so that writing one element
/// changes that pixel and no other, and leaves the buffer's size as it was.
#[verifier::external_body]
pub(crate) fn store_pixel(b: &mut SharedPixelBuffer<Rgb8Pixel>, index: usize, color: Rgb8Pixel)
    requires
        index < buffer_pixels(*old(b)).len(),
    ensures
        buffer_size(*final(b)) == buffer_size(*old(b)),
        buffer_pixels(*final(b)) == buffer_pixels(*old(b)).update(index as int, color),
{
    b.make_mut_slice()[index] = color;
}

/// Relies on `Clone` for `SharedPixelBuffer` and on `Image::from_rgb8`: the
/// image has the size and holds the pixels of the buffer it was made from.
#[verifier::external_body]
pub(crate) fn image_of(b: &SharedPixelBuffer<Rgb8Pixel>) -> (img: Image)
    ensures
        image_size(img) == buffer_size(*b),
        image_pixels(img) == buffer_pixels(*b),
{
    Image::from_rgb8(b.clone())
}

} // verus!
