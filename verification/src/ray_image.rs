//! The image a render writes into: a grid of colours that gives its
//! dimensions.

use vstd::prelude::*;
use crate::color::Color;
use crate::image::{Grid, Image, ImagePixelIter};

verus! {

/// The grid of pixels that a render fills.
#[derive(Debug)]
pub struct RayImage {
    grid: Image,
}

impl View for RayImage {
    type V = Grid;

    closed spec fn view(&self) -> Grid {
        self.grid@
    }
}

impl Clone for RayImage {
    fn clone(&self) -> (copy: RayImage)
        ensures
            copy@ == self@,
    {
        RayImage { grid: self.grid.clone() }
    }
}

impl RayImage {
    /// A black image of the given dimensions.
    pub fn new(width: usize, height: usize) -> (image: RayImage)
        requires
            width * height <= usize::MAX,
        ensures
            image@ == Grid::black(width as nat, height as nat),
            image@.wf(),
    {
        RayImage { grid: Image::new(width, height) }
    }

    /// The pixel at column `x`, row `y`.
    pub fn get_pixel(&self, x: usize, y: usize) -> (color: Color)
        requires
            self@.holds(x as int, y as int),
        ensures
            color == self@.at(x as int, y as int),
    {
        self.grid.get_pixel(x, y)
    }

    /// Replaces the pixel at column `x`, row `y`.
    pub fn set_pixel(&mut self, x: usize, y: usize, color: Color)
        requires
            old(self)@.holds(x as int, y as int),
        ensures
            final(self)@ == old(self)@.with(x as int, y as int, color),
    {
        self.grid.set_pixel(x, y, color);
    }

    /// A cursor over the places of this image, row after row from the top.
    pub fn pixel_mut_iter(&mut self) -> (cursor: RayImagePixelIter)
        ensures
            *final(self) == *old(self),
            cursor.width() == old(self)@.width,
            cursor.height() == old(self)@.height,
            cursor.position() == 0,
    {
        RayImagePixelIter { places: self.grid.pixel_mut_iter() }
    }

    /// The dimensions: width, then height. There is one pixel for each place.
    pub fn get_dimensions(&self) -> (dimensions: (usize, usize))
        ensures
            dimensions.0 == self@.width,
            dimensions.1 == self@.height,
            self@.wf(),
    {
        self.grid.get_dimensions()
    }

    /// The plain-text form of the image.
    pub fn to_ppm(&self) -> (text: String)
        ensures
            text@ == self@.ppm(),
    {
        self.grid.to_ppm()
    }
}

/// A cursor over the places of a render's image, row after row from the top.
#[derive(Debug)]
pub struct RayImagePixelIter {
    places: ImagePixelIter,
}

impl RayImagePixelIter {
    /// The width of the grid.
    pub closed spec fn width(&self) -> nat {
        self.places.width()
    }

    /// The height of the grid.
    pub closed spec fn height(&self) -> nat {
        self.places.height()
    }

    /// How many places the cursor has handed out.
    pub closed spec fn position(&self) -> nat {
        self.places.position()
    }

    /// The next place, as column and row, or nothing once every place was
    /// handed out.
    pub fn next(&mut self) -> (place: Option<(usize, usize)>)
        ensures
            final(self).width() == old(self).width(),
            final(self).height() == old(self).height(),
            old(self).position() < old(self).width() * old(self).height() ==> {
                &&& place == Some(
                    (
                        (old(self).position() % old(self).width()) as usize,
                        (old(self).position() / old(self).width()) as usize,
                    ),
                )
                &&& place.unwrap().0 < old(self).width()
                &&& place.unwrap().1 < old(self).height()
                &&& place.unwrap().1 * old(self).width() + place.unwrap().0 == old(self).position()
                &&& final(self).position() == old(self).position() + 1
            },
            old(self).position() >= old(self).width() * old(self).height() ==> {
                &&& place.is_none()
                &&& final(self).position() == old(self).position()
            },
    {
        self.places.next()
    }
}

} // verus!
