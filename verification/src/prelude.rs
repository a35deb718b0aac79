//! The names that most users of the kernel need.

pub use crate::color::Color;
pub use crate::hitable::Hitable;
pub use crate::material::Material;
pub use crate::math::{Point, Scalar, Vector};
pub use crate::ray::Ray;
pub use crate::texture::Texture;
