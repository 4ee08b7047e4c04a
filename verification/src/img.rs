use vstd::prelude::*;
use crate::color::Rgb8;

verus! {

/// An RGB raster: row-major pixels, one byte per channel.  The buffer
/// itself comes from the image crate and is held opaquely; everything the
/// library states about a raster goes through the two names below.
#[verifier::external_body]
pub struct Raster {
    inner: image::ImageBuffer<image::Rgb<u8>, Vec<u8>>,
}

/// What a raster holds: the channel triple at each in-bounds coordinate
/// pair (x, y).
pub uninterp spec fn img_pixels(img: Raster) -> Map<(u32, u32), (u8, u8, u8)>;

/// The width and height that a raster was made with.
pub uninterp spec fn img_dims(img: Raster) -> (u32, u32);

/// The coordinate pair lies inside a raster of the given dimensions.
pub open spec fn in_img(dims: (u32, u32), x: u32, y: u32) -> bool {
    x < dims.0 && y < dims.1
}

/// A well-formed raster holds a pixel exactly at each in-bounds pair.
pub open spec fn raster_ok(img: Raster) -> bool {
    forall|p: (u32, u32)| #[trigger]
        img_pixels(img).dom().contains(p) <==> in_img(img_dims(img), p.0, p.1)
}

/// Relies on image::ImageBuffer::new: a width-by-height buffer whose every
/// pixel is zero in every channel.
#[verifier::external_body]
fn new_image(w: u32, h: u32) -> (r: Raster)
    requires
        3 * w * h <= usize::MAX,
    ensures
        img_dims(r) == (w, h),
        forall|p: (u32, u32)| #[trigger]
            img_pixels(r).dom().contains(p) <==> in_img((w, h), p.0, p.1),
        forall|p: (u32, u32)|
            in_img((w, h), p.0, p.1) ==> #[trigger] img_pixels(r)[p] == (0u8, 0u8, 0u8),
{
    Raster { inner: image::ImageBuffer::new(w, h) }
}

/// Relies on image::ImageBuffer::dimensions: the width and height.
#[verifier::external_body]
fn image_dims(img: &Raster) -> (r: (u32, u32))
    ensures
        r == img_dims(*img),
{
    img.inner.dimensions()
}

/// Relies on image::ImageBuffer::put_pixel: replaces the pixel at (x, y),
/// in bounds, and changes nothing else.
#[verifier::external_body]
fn image_put(img: &mut Raster, x: u32, y: u32, c: Rgb8)
    requires
        in_img(img_dims(*old(img)), x, y),
    ensures
        img_dims(*final(img)) == img_dims(*old(img)),
        img_pixels(*final(img)) == img_pixels(*old(img)).insert((x, y), (c.r, c.g, c.b)),
{
    img.inner.put_pixel(x, y, image::Rgb([c.r, c.g, c.b]));
}

/// Relies on image::ImageBuffer::get_pixel: the pixel at (x, y), in bounds.
#[verifier::external_body]
fn image_get(img: &Raster, x: u32, y: u32) -> (r: Rgb8)
    requires
        in_img(img_dims(*img), x, y),
    ensures
        img_pixels(*img).dom().contains((x, y)) ==> (r.r, r.g, r.b) == img_pixels(*img)[(x, y)],
{
    let p = img.inner.get_pixel(x, y);
    Rgb8 { r: p.0[0], g: p.0[1], b: p.0[2] }
}

impl Raster {
    /// A raster of the given width and height, all pixels black.
    pub fn new(w: u32, h: u32) -> (r: Raster)
        requires
            3 * w * h <= usize::MAX,
        ensures
            raster_ok(r),
            img_dims(r) == (w, h),
            forall|p: (u32, u32)|
                in_img((w, h), p.0, p.1) ==> #[trigger] img_pixels(r)[p] == (0u8, 0u8, 0u8),
    {
        new_image(w, h)
    }

    /// The width and height of the raster.
    pub fn dimensions(&self) -> (r: (u32, u32))
        ensures
            r == img_dims(*self),
    {
        image_dims(self)
    }

    /// The pixel at (x, y).
    pub fn get_pixel(&self, x: u32, y: u32) -> (r: Rgb8)
        requires
            raster_ok(*self),
            in_img(img_dims(*self), x, y),
        ensures
            (r.r, r.g, r.b) == img_pixels(*self)[(x, y)],
    {
        image_get(self, x, y)
    }

    /// Replace the pixel at (x, y).
    pub fn put_pixel(&mut self, x: u32, y: u32, c: Rgb8)
        requires
            raster_ok(*old(self)),
            in_img(img_dims(*old(self)), x, y),
        ensures
            raster_ok(*final(self)),
            img_dims(*final(self)) == img_dims(*old(self)),
            img_pixels(*final(self)) == img_pixels(*old(self)).insert((x, y), (c.r, c.g, c.b)),
    {
        image_put(self, x, y, c);
    }
}

} // verus!
