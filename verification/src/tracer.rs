//! The integrator: the colour that a ray brings back from the scene.

use vstd::prelude::*;
use crate::color::Color;
use crate::hitable::{HitInfos, Hitable};
use crate::material::{Material, MaterialInfos};
use crate::math::{Scalar, Vector};
use crate::ray::Ray;

verus! {

/// The number of scatterings after which a ray counts as absorbed.
pub const MAX_DEPTH: usize = 50;

/// The bit pattern of 0.001, where the window of a hit starts: a ray does
/// not hit the surface that it leaves.
pub const BIAS_BITS: u32 = 0x3a83_126f;

/// The bit pattern of the largest finite number, where the window of a hit
/// ends.
pub const FARTHEST_BITS: u32 = 0x7f7f_ffff;

/// `color` is what a ray at the given depth brings back from the scene.
///
/// A ray that hits nothing brings back the background. A ray that hits a
/// surface at a depth below the limit is scattered by the material: it
/// brings back what the scattered ray brings back one level deeper, shaded
/// by the attenuation. A ray that is absorbed, or hits a surface at the
/// limit, brings back black.
pub open spec fn traced<H, B, S>(
    hitable: &H,
    background: &B,
    shade: &S,
    ray: Ray,
    depth: int,
    color: Color,
) -> bool where
    H: Hitable,
    H::Material: Material,
    B: Fn(Ray) -> Color,
    S: Fn(Color, Vector) -> Color,

    decreases MAX_DEPTH - depth, 2int,
{
    exists|hit: Option<HitInfos<H::Material>>|
        {
            &&& #[trigger] call_ensures(
                H::hit,
                (hitable, ray, Scalar { bits: BIAS_BITS }, Scalar { bits: FARTHEST_BITS }),
                hit,
            )
            &&& after_hit(hitable, background, shade, ray, depth, hit, color)
        }
}

/// `color` is what a ray at the given depth brings back, given what it
/// hit.
pub open spec fn after_hit<H, B, S>(
    hitable: &H,
    background: &B,
    shade: &S,
    ray: Ray,
    depth: int,
    hit: Option<HitInfos<H::Material>>,
    color: Color,
) -> bool where
    H: Hitable,
    H::Material: Material,
    B: Fn(Ray) -> Color,
    S: Fn(Color, Vector) -> Color,

    decreases MAX_DEPTH - depth, 1int,
{
    match hit {
        None => background.ensures((ray,), color),
        Some(infos) => if depth < MAX_DEPTH {
            exists|scattering: Option<MaterialInfos>|
                {
                    &&& #[trigger] call_ensures(
                        <H::Material as Material>::scatter,
                        (&infos.material, ray, &infos),
                        scattering,
                    )
                    &&& match scattering {
                        None => color == Color { red: 0, green: 0, blue: 0 },
                        Some(out) => after_scatter(hitable, background, shade, depth, out, color),
                    }
                }
        } else {
            color == Color { red: 0, green: 0, blue: 0 }
        },
    }
}

/// `color` is what a ray at the given depth, below the limit, brings back,
/// given the scattering that the material made of it.
pub open spec fn after_scatter<H, B, S>(
    hitable: &H,
    background: &B,
    shade: &S,
    depth: int,
    out: MaterialInfos,
    color: Color,
) -> bool where
    H: Hitable,
    H::Material: Material,
    B: Fn(Ray) -> Color,
    S: Fn(Color, Vector) -> Color,

    decreases MAX_DEPTH - depth, 0int,
{
    depth < MAX_DEPTH && exists|inner: Color|
        {
            &&& traced(hitable, background, shade, out.scattered, depth + 1, inner)
            &&& #[trigger] shade.ensures((inner, out.attenuation), color)
        }
}

/// A ray that is scattered below the depth limit brings back what the
/// scattered ray brings back, shaded by the attenuation.
pub proof fn lemma_traced_through<H, B, S>(
    hitable: &H,
    background: &B,
    shade: &S,
    ray: Ray,
    depth: int,
    infos: HitInfos<H::Material>,
    out: MaterialInfos,
    inner: Color,
    color: Color,
) where H: Hitable, H::Material: Material, B: Fn(Ray) -> Color, S: Fn(Color, Vector) -> Color
    requires
        depth < MAX_DEPTH,
        call_ensures(
            H::hit,
            (hitable, ray, Scalar { bits: BIAS_BITS }, Scalar { bits: FARTHEST_BITS }),
            Some(infos),
        ),
        call_ensures(
            <H::Material as Material>::scatter,
            (&infos.material, ray, &infos),
            Some(out),
        ),
        traced(hitable, background, shade, out.scattered, depth + 1, inner),
        shade.ensures((inner, out.attenuation), color),
    ensures
        traced(hitable, background, shade, ray, depth, color),
{
    assert(after_scatter(hitable, background, shade, depth, out, color));
    assert(after_hit(hitable, background, shade, ray, depth, Some(infos), color));
}

/// The colour that a ray brings back from the scene, from the given depth
/// on. `background` gives the colour of a ray that leaves the scene, and
/// `shade` the product of a colour and an attenuation.
pub fn color<H, B, S>(ray: Ray, hitable: &H, depth: usize, background: &B, shade: &S) -> (result:
    Color) where
    H: Hitable,
    H::Material: Material,
    B: Fn(Ray) -> Color,
    S: Fn(Color, Vector) -> Color,

    requires
        forall|r: Ray| #[trigger] background.requires((r,)),
        forall|c: Color, v: Vector| #[trigger] shade.requires((c, v)),
    ensures
        traced(hitable, background, shade, ray, depth as int, result),
{
    let tmin = Scalar::from_bits(BIAS_BITS);
    let tmax = Scalar::from_bits(FARTHEST_BITS);
    let mut attenuations: Vec<Vector> = Vec::new();
    let mut current = ray;
    let mut level = depth;
    let mut terminal = Color::new(0, 0, 0);
    let ghost mut rays: Seq<Ray> = seq![ray];
    let ghost mut hits: Seq<HitInfos<H::Material>> = Seq::empty();
    let ghost mut outs: Seq<MaterialInfos> = Seq::empty();
    loop
        invariant
            tmin == (Scalar { bits: BIAS_BITS }),
            tmax == (Scalar { bits: FARTHEST_BITS }),
            forall|r: Ray| #[trigger] background.requires((r,)),
            level == depth + attenuations@.len(),
            rays.len() == attenuations@.len() + 1,
            hits.len() == attenuations@.len(),
            outs.len() == attenuations@.len(),
            rays[0] == ray,
            rays.last() == current,
            forall|i: int|
                0 <= i < attenuations@.len() ==> {
                    &&& depth + i < MAX_DEPTH
                    &&& call_ensures(H::hit, (hitable, rays[i], tmin, tmax), Some(#[trigger] hits[i]))
                    &&& call_ensures(
                        <H::Material as Material>::scatter,
                        (&hits[i].material, rays[i], &hits[i]),
                        Some(outs[i]),
                    )
                    &&& outs[i].scattered == rays[i + 1]
                    &&& outs[i].attenuation == attenuations@[i]
                },
        ensures
            level == depth + attenuations@.len(),
            rays.len() == attenuations@.len() + 1,
            hits.len() == attenuations@.len(),
            outs.len() == attenuations@.len(),
            rays[0] == ray,
            forall|i: int|
                0 <= i < attenuations@.len() ==> {
                    &&& depth + i < MAX_DEPTH
                    &&& call_ensures(H::hit, (hitable, rays[i], tmin, tmax), Some(#[trigger] hits[i]))
                    &&& call_ensures(
                        <H::Material as Material>::scatter,
                        (&hits[i].material, rays[i], &hits[i]),
                        Some(outs[i]),
                    )
                    &&& outs[i].scattered == rays[i + 1]
                    &&& outs[i].attenuation == attenuations@[i]
                },
            traced(hitable, background, shade, rays.last(), level as int, terminal),
        decreases MAX_DEPTH - level,
    {
        let hit = hitable.hit(current, tmin, tmax);
        match hit {
            None => {
                terminal = background(current);
                break ;
            },
            Some(infos) => {
                if level < MAX_DEPTH {
                    let scattering = infos.material.scatter(current, &infos);
                    match scattering {
                        Some(out) => {
                            proof {
                                rays = rays.push(out.scattered);
                                hits = hits.push(infos);
                                outs = outs.push(out);
                            }
                            attenuations.push(out.attenuation);
                            current = out.scattered;
                            level += 1;
                        },
                        None => {
                            terminal = Color::new(0, 0, 0);
                            break ;
                        },
                    }
                } else {
                    terminal = Color::new(0, 0, 0);
                    break ;
                }
            },
        }
    }
    let mut result = terminal;
    let mut i: usize = attenuations.len();
    while i > 0
        invariant
            i <= attenuations@.len(),
            tmin == (Scalar { bits: BIAS_BITS }),
            tmax == (Scalar { bits: FARTHEST_BITS }),
            forall|c: Color, v: Vector| #[trigger] shade.requires((c, v)),
            rays.len() == attenuations@.len() + 1,
            hits.len() == attenuations@.len(),
            outs.len() == attenuations@.len(),
            rays[0] == ray,
            forall|k: int|
                0 <= k < attenuations@.len() ==> {
                    &&& depth + k < MAX_DEPTH
                    &&& call_ensures(H::hit, (hitable, rays[k], tmin, tmax), Some(#[trigger] hits[k]))
                    &&& call_ensures(
                        <H::Material as Material>::scatter,
                        (&hits[k].material, rays[k], &hits[k]),
                        Some(outs[k]),
                    )
                    &&& outs[k].scattered == rays[k + 1]
                    &&& outs[k].attenuation == attenuations@[k]
                },
            traced(hitable, background, shade, rays[i as int], depth + i, result),
        decreases i,
    {
        i -= 1;
        let ghost inner = result;
        result = shade(result, attenuations[i]);
        proof {
            let k = i as int;
            let hit = Some(hits[k]);
            let scattering = Some(outs[k]);
            assert(call_ensures(H::hit, (hitable, rays[k], tmin, tmax), hit));
            assert(call_ensures(
                <H::Material as Material>::scatter,
                (&hits[k].material, rays[k], &hits[k]),
                scattering,
            ));
            lemma_traced_through(
                hitable,
                background,
                shade,
                rays[k],
                depth + k,
                hits[k],
                outs[k],
                inner,
                result,
            );
            assert(traced(hitable, background, shade, rays[k], depth + k, result));
        }
    }
    result
}

} // verus!
