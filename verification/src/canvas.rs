//! The picture that a layer is drawn on: an RGB image of the `image` crate.

use image::{Rgb, RgbImage};
use vstd::prelude::*;

verus! {

/// An image, whose pixels and size only the functions below know of.
#[verifier::external_body]
pub struct Picture {
    image: RgbImage,
}

/// The pixels of a picture, row by row, as red, green and blue.
pub uninterp spec fn pixels_of(picture: Picture) -> Seq<(u8, u8, u8)>;

/// The width and the height of a picture.
pub uninterp spec fn extent_of(picture: Picture) -> (u32, u32);

/// The three channels of a colour.
pub open spec fn channels(color: [u8; 3]) -> (u8, u8, u8) {
    (color[0], color[1], color[2])
}

/// `ImageBuffer::new`: an image of the given size, black all over.
#[verifier::external_body]
fn make(width: u32, height: u32) -> (r: Picture)
    requires
        3 * (width * height) <= isize::MAX,
    ensures
        extent_of(r) == (width, height),
        pixels_of(r) == Seq::new((width * height) as nat, |i: int| (0u8, 0u8, 0u8)),
{
    Picture { image: RgbImage::new(width, height) }
}

/// `ImageBuffer::width`.
#[verifier::external_body]
fn width_of(picture: &Picture) -> (r: u32)
    ensures
        r == extent_of(*picture).0,
{
    picture.image.width()
}

/// `ImageBuffer::height`.
#[verifier::external_body]
fn height_of(picture: &Picture) -> (r: u32)
    ensures
        r == extent_of(*picture).1,
{
    picture.image.height()
}

/// `ImageBuffer::put_pixel`: one pixel inside the image gets a new colour, and
/// nothing else changes.
#[verifier::external_body]
fn write(picture: &mut Picture, x: u32, y: u32, color: [u8; 3])
    requires
        x < extent_of(*old(picture)).0,
        y < extent_of(*old(picture)).1,
    ensures
        extent_of(*final(picture)) == extent_of(*old(picture)),
        pixels_of(*final(picture)) == pixels_of(*old(picture)).update(
            y * extent_of(*old(picture)).0 + x,
            channels(color),
        ),
{
    picture.image.put_pixel(x, y, Rgb(color))
}

/// `ImageBuffer::get_pixel`: the colour of a pixel inside the image.
#[verifier::external_body]
fn read(picture: &Picture, x: u32, y: u32) -> (r: [u8; 3])
    requires
        x < extent_of(*picture).0,
        y < extent_of(*picture).1,
    ensures
        channels(r) == pixels_of(*picture)[y * extent_of(*picture).0 + x],
{
    picture.image.get_pixel(x, y).0
}

/// `ImageBuffer::into_raw`: the channels of all pixels, one after the other.
#[verifier::external_body]
fn unpack(picture: Picture) -> (r: Vec<u8>)
    ensures
        r@ == flattened(pixels_of(picture)),
{
    picture.image.into_raw()
}

/// The channels of all pixels, one after the other.
pub open spec fn flattened(pixels: Seq<(u8, u8, u8)>) -> Seq<u8> {
    Seq::new(
        3 * pixels.len(),
        |i: int|
            if i % 3 == 0 {
                pixels[i / 3].0
            } else if i % 3 == 1 {
                pixels[i / 3].1
            } else {
                pixels[i / 3].2
            },
    )
}

impl Picture {
    pub open spec fn wide(&self) -> int {
        extent_of(*self).0 as int
    }

    pub open spec fn high(&self) -> int {
        extent_of(*self).1 as int
    }

    pub open spec fn pixels(&self) -> Seq<(u8, u8, u8)> {
        pixels_of(*self)
    }

    /// The picture has one pixel per cell of its size.
    pub open spec fn wf(&self) -> bool {
        self.pixels().len() == self.wide() * self.high()
    }

    /// A black picture.
    pub fn new(width: u32, height: u32) -> (r: Self)
        requires
            3 * (width * height) <= isize::MAX,
        ensures
            r.wf(),
            r.wide() == width,
            r.high() == height,
            r.pixels() == Seq::new((width * height) as nat, |i: int| (0u8, 0u8, 0u8)),
    {
        assert(0 <= width * height) by (nonlinear_arith)
            requires
                0 <= width,
                0 <= height,
        ;
        make(width, height)
    }

    pub fn width(&self) -> (r: u32)
        ensures
            r == self.wide(),
    {
        width_of(self)
    }

    pub fn height(&self) -> (r: u32)
        ensures
            r == self.high(),
    {
        height_of(self)
    }

    /// Colour one pixel.
    pub fn put_pixel(&mut self, x: u32, y: u32, color: [u8; 3])
        requires
            x < old(self).wide(),
            y < old(self).high(),
        ensures
            final(self).wide() == old(self).wide(),
            final(self).high() == old(self).high(),
            final(self).pixels() == old(self).pixels().update(
                y * old(self).wide() + x,
                channels(color),
            ),
            old(self).wf() ==> final(self).wf(),
    {
        proof {
            if self.wf() {
                crate::world::lemma_cell_in_grid(
                    self.wide(),
                    self.high(),
                    x as int,
                    y as int,
                );
            }
        }
        write(self, x, y, color)
    }

    /// The colour of one pixel.
    pub fn get_pixel(&self, x: u32, y: u32) -> (r: [u8; 3])
        requires
            x < self.wide(),
            y < self.high(),
        ensures
            channels(r) == self.pixels()[y * self.wide() + x],
    {
        read(self, x, y)
    }

    /// The channels of all pixels, one after the other.
    pub fn into_raw(self) -> (r: Vec<u8>)
        ensures
            r@ == flattened(self.pixels()),
    {
        unpack(self)
    }
}

} // verus!
