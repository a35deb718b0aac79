//! Surface colour lookup.

use vstd::prelude::*;
use crate::color::Color;
use crate::math::{Point, Scalar};

verus! {

/// A texture: the colour of a surface at the surface coordinates `u`, `v`
/// and the point `point`. It is a function of these alone.
pub trait Texture {
    fn value(&self, u: Scalar, v: Scalar, point: Point) -> Color;
}

/// A texture of one colour everywhere.
#[derive(Debug, Clone, Copy)]
pub struct ConstantTexture {
    pub color: Color,
}

impl ConstantTexture {
    pub fn new(color: Color) -> (texture: ConstantTexture)
        ensures
            texture.color == color,
    {
        ConstantTexture { color }
    }
}

impl Texture for ConstantTexture {
    fn value(&self, u: Scalar, v: Scalar, point: Point) -> (color: Color)
        ensures
            color == self.color,
    {
        self.color
    }
}

impl From<Color> for ConstantTexture {
    fn from(color: Color) -> (texture: ConstantTexture) {
        ConstantTexture::new(color)
    }
}

impl vstd::std_specs::convert::FromSpecImpl<Color> for ConstantTexture {
    open spec fn obeys_from_spec() -> bool {
        true
    }

    open spec fn from_spec(color: Color) -> ConstantTexture {
        ConstantTexture { color }
    }
}

/// A texture of two textures in a checker pattern.
#[derive(Debug, Clone)]
pub struct CheckerTexture<Odd: Texture, Even: Texture> {
    pub odd: Odd,
    pub even: Even,
}

impl<Odd: Texture, Even: Texture> CheckerTexture<Odd, Even> {
    pub fn new(odd: Odd, even: Even) -> (texture: Self)
        ensures
            texture.odd == odd,
            texture.even == even,
    {
        CheckerTexture { odd, even }
    }

    /// The colour of the pattern where the product of the three sines of
    /// the pattern is `coeff`: that of the odd texture where `coeff` is
    /// below zero, and that of the even texture elsewhere.
    pub fn pick(&self, coeff: Scalar, u: Scalar, v: Scalar, point: Point) -> (color: Color)
        ensures
            coeff.lt_spec(Scalar { bits: 0 }) ==> call_ensures(
                Odd::value,
                (&self.odd, u, v, point),
                color,
            ),
            !coeff.lt_spec(Scalar { bits: 0 }) ==> call_ensures(
                Even::value,
                (&self.even, u, v, point),
                color,
            ),
    {
        if coeff.lt(Scalar::zero()) {
            self.odd.value(u, v, point)
        } else {
            self.even.value(u, v, point)
        }
    }
}

} // verus!
