//! Scattering: what a material makes of a ray that hits it, and the
//! decisions of the three kinds of material.

use vstd::prelude::*;
use crate::hitable::HitInfos;
use crate::math::{Point, Scalar, Vector};
use crate::ray::Ray;

verus! {

/// The bit pattern of the number one.
pub const ONE_BITS: u32 = 0x3f80_0000;

/// The outcome of a scattering: the ray that leaves, and how much of each
/// colour channel it keeps.
#[derive(Debug, Clone, Copy)]
pub struct MaterialInfos {
    pub scattered: Ray,
    pub attenuation: Vector,
}

/// A material: it scatters a ray that hit it, or absorbs it.
pub trait Material: Sized {
    fn scatter(&self, ray: Ray, infos: &HitInfos<Self>) -> Option<MaterialInfos>;
}

/// The scattering of a diffuse surface: the ray leaves the hit point along
/// the given direction, with the colour of the surface.
pub fn lambertian_scatter(point: Point, direction: Vector, albedo: Vector) -> (infos: MaterialInfos)
    ensures
        infos.scattered.origin == point,
        infos.scattered.direction == direction,
        infos.attenuation == albedo,
{
    MaterialInfos { scattered: Ray::new(point, direction), attenuation: albedo }
}

/// The scattering of a metal. `direction` is the reflection with its fuzz,
/// and `facing` its dot product with the surface normal. The ray leaves the
/// hit point along `direction` where that points away from the surface, which
/// is where `facing` is above zero; else the ray is absorbed.
pub fn metal_scatter(point: Point, direction: Vector, facing: Scalar, albedo: Vector) -> (infos:
    Option<MaterialInfos>)
    ensures
        infos == if (Scalar { bits: 0 }).lt_spec(facing) {
            Some(MaterialInfos { scattered: Ray { origin: point, direction }, attenuation: albedo })
        } else {
            None
        },
{
    if facing.gt(Scalar::zero()) {
        Some(MaterialInfos { scattered: Ray::new(point, direction), attenuation: albedo })
    } else {
        None
    }
}

/// The direction in which a ray leaves a dielectric: the reflection where
/// there is no refraction, and where the number drawn is below the chance of
/// reflection; else the refraction.
pub open spec fn dielectric_direction(
    reflected: Vector,
    refracted: Option<Vector>,
    reflect_prob: Scalar,
    draw: Scalar,
) -> Vector {
    match refracted {
        None => reflected,
        Some(refracted) => if draw.lt_spec(reflect_prob) {
            reflected
        } else {
            refracted
        },
    }
}

/// The scattering of a dielectric. It never absorbs and keeps every colour
/// channel whole: the ray leaves the hit point along the reflection or the
/// refraction.
pub fn dielectric_scatter(
    point: Point,
    reflected: Vector,
    refracted: Option<Vector>,
    reflect_prob: Scalar,
    draw: Scalar,
) -> (infos: MaterialInfos)
    ensures
        infos.scattered.origin == point,
        infos.scattered.direction == dielectric_direction(
            reflected,
            refracted,
            reflect_prob,
            draw,
        ),
        infos.attenuation.x.bits == ONE_BITS,
        infos.attenuation.y.bits == ONE_BITS,
        infos.attenuation.z.bits == ONE_BITS,
{
    let one = Scalar::from_bits(ONE_BITS);
    let attenuation = Vector::new(one, one, one);
    let direction = match refracted {
        None => reflected,
        Some(refracted) => if draw.lt(reflect_prob) {
            reflected
        } else {
            refracted
        },
    };
    MaterialInfos { scattered: Ray::new(point, direction), attenuation }
}

} // verus!
