use raytracer::color::Color;
use raytracer::hitable::aabb::AABB;
use raytracer::hitable::sphere::{Crossing, Roots};
use raytracer::hitable::triangle::{extent, greatest, least, triangle_box};
use raytracer::material::{dielectric_scatter, lambertian_scatter, metal_scatter, ONE_BITS};
use raytracer::math::{Point, Scalar, Vector};
use raytracer::ray::Ray;
use raytracer::texture::{CheckerTexture, ConstantTexture, Texture};

fn s(x: f32) -> Scalar {
    Scalar::from_bits(x.to_bits())
}

fn f(x: Scalar) -> f32 {
    f32::from_bits(x.to_bits())
}

fn v(x: f32, y: f32, z: f32) -> Vector {
    Vector::new(s(x), s(y), s(z))
}

fn p(x: f32, y: f32, z: f32) -> Point {
    Point::new(s(x), s(y), s(z))
}

fn arr_v(q: Vector) -> [f32; 3] {
    [f(q.x), f(q.y), f(q.z)]
}

fn arr_p(q: Point) -> [f32; 3] {
    [f(q.x), f(q.y), f(q.z)]
}

#[test]
fn points_vectors_and_rays_keep_what_they_are_given() {
    assert_eq!(arr_p(Point::origin()), [0.0, 0.0, 0.0]);
    assert_eq!(arr_v(Vector::zero()), [0.0, 0.0, 0.0]);
    assert_eq!(arr_v(p(1.0, 2.0, 3.0).as_vector()), [1.0, 2.0, 3.0]);
    let q = v(4.0, 5.0, 6.0);
    assert_eq!(f(q.component(0)), 4.0);
    assert_eq!(f(q.component(1)), 5.0);
    assert_eq!(f(q.component(2)), 6.0);
    let r = Ray::new(p(1.0, 2.0, 3.0), q);
    assert_eq!(arr_p(r.origin), [1.0, 2.0, 3.0]);
    assert_eq!(arr_v(r.direction), [4.0, 5.0, 6.0]);
    let b = AABB::new(v(0.0, 0.0, 0.0), q);
    assert_eq!(arr_v(b.max), [4.0, 5.0, 6.0]);
}

#[test]
fn lambertian_scatters_from_the_hit_point() {
    let out = lambertian_scatter(p(1.0, 2.0, 3.0), v(0.5, 0.25, -1.0), v(0.8, 0.3, 0.1));
    assert_eq!(arr_p(out.scattered.origin), [1.0, 2.0, 3.0]);
    assert_eq!(arr_v(out.scattered.direction), [0.5, 0.25, -1.0]);
    assert_eq!(arr_v(out.attenuation), [0.8, 0.3, 0.1]);
}

#[test]
fn metal_absorbs_what_points_into_the_surface() {
    let at = |facing: f32| metal_scatter(p(0.0, 1.0, 0.0), v(1.0, 1.0, 0.0), s(facing), v(0.8, 0.6, 0.2));
    for facing in [-1.0f32, -1.0e-20, -0.0, 0.0, f32::NAN] {
        assert!(at(facing).is_none(), "{}", facing);
    }
    for facing in [1.0e-20f32, 0.5, 3.0] {
        let out = at(facing).unwrap();
        assert_eq!(arr_p(out.scattered.origin), [0.0, 1.0, 0.0]);
        assert_eq!(arr_v(out.scattered.direction), [1.0, 1.0, 0.0]);
        assert_eq!(arr_v(out.attenuation), [0.8, 0.6, 0.2]);
    }
}

#[test]
fn dielectric_reflects_or_refracts_and_keeps_every_channel() {
    assert_eq!(ONE_BITS, 1.0f32.to_bits());
    let reflected = v(0.0, 1.0, 0.0);
    let refracted = v(0.0, -1.0, 0.0);
    let at = |refracted: Option<Vector>, prob: f32, draw: f32| {
        dielectric_scatter(p(7.0, 8.0, 9.0), reflected, refracted, s(prob), s(draw))
    };
    // No refraction: reflect, whatever is drawn.
    assert_eq!(arr_v(at(None, 1.0, 0.99).scattered.direction), [0.0, 1.0, 0.0]);
    assert_eq!(arr_v(at(None, 0.0, 0.5).scattered.direction), [0.0, 1.0, 0.0]);
    // A draw below the chance of reflection reflects.
    assert_eq!(arr_v(at(Some(refracted), 0.3, 0.29).scattered.direction), [0.0, 1.0, 0.0]);
    assert_eq!(arr_v(at(Some(refracted), 0.3, 0.3).scattered.direction), [0.0, -1.0, 0.0]);
    assert_eq!(arr_v(at(Some(refracted), 0.3, 0.9).scattered.direction), [0.0, -1.0, 0.0]);
    assert_eq!(arr_v(at(Some(refracted), 0.0, 0.0).scattered.direction), [0.0, -1.0, 0.0]);
    let out = at(Some(refracted), 0.3, 0.9);
    assert_eq!(arr_v(out.attenuation), [1.0, 1.0, 1.0]);
    assert_eq!(arr_p(out.scattered.origin), [7.0, 8.0, 9.0]);
}

fn crossing(t: f32) -> Crossing {
    Crossing { t: s(t), point: p(t, 0.0, 0.0), normal: v(1.0, 0.0, 0.0) }
}

#[test]
fn the_smaller_root_in_the_window_is_picked() {
    let pick = |roots: Roots, lo: f32, hi: f32| roots.pick(s(lo), s(hi)).map(|c| f(c.t));
    assert_eq!(pick(Roots::Zero, 0.0, 10.0), None);
    assert_eq!(pick(Roots::One(crossing(2.0)), 0.0, 10.0), Some(2.0));
    assert_eq!(pick(Roots::One(crossing(2.0)), 3.0, 10.0), None);
    assert_eq!(pick(Roots::Two(crossing(2.0), crossing(4.0)), 0.0, 10.0), Some(2.0));
    assert_eq!(pick(Roots::Two(crossing(4.0), crossing(2.0)), 0.0, 10.0), Some(2.0));
    // The ray starts inside: the root behind it does not count.
    assert_eq!(pick(Roots::Two(crossing(-3.0), crossing(4.0)), 0.001, 10.0), Some(4.0));
    // A closer hit was found elsewhere: only the near root is in range.
    assert_eq!(pick(Roots::Two(crossing(2.0), crossing(4.0)), 0.001, 3.0), Some(2.0));
    assert_eq!(pick(Roots::Two(crossing(2.0), crossing(4.0)), 0.001, 1.0), None);
    // Both roots behind the ray: a sphere that the ray leaves behind.
    assert_eq!(pick(Roots::Two(crossing(-4.0), crossing(-2.0)), 0.001, f32::MAX), None);
    assert_eq!(pick(Roots::Two(crossing(2.0), crossing(4.0)), 2.0, 2.0), Some(2.0));
    let h = Roots::Two(crossing(5.0), crossing(3.0)).hit(s(0.0), s(9.0), 'm').unwrap();
    assert_eq!((f(h.t), h.material), (3.0, 'm'));
    assert_eq!(arr_p(h.point), [3.0, 0.0, 0.0]);
    assert!(Roots::Zero.hit(s(0.0), s(9.0), 'm').is_none());
    assert!(crossing(1.0).in_window(s(1.0), s(1.0)));
    assert!(!crossing(1.0).in_window(s(1.5), s(1.0)));
}

fn pad(x: Scalar) -> (Scalar, Scalar) {
    (s(f(x) - 0.001), s(f(x) + 0.001))
}

#[test]
fn least_and_greatest_of_three() {
    let all = [[1.0f32, 2.0, 3.0], [3.0, 2.0, 1.0], [2.0, 3.0, 1.0], [2.0, 2.0, 2.0], [-1.0, 5.0, -1.0]];
    for [a, b, c] in all {
        assert_eq!(f(least(s(a), s(b), s(c))), a.min(b).min(c));
        assert_eq!(f(greatest(s(a), s(b), s(c))), a.max(b).max(c));
    }
    let (low, high) = extent(s(1.0), s(4.0), s(2.0), &pad);
    assert_eq!((f(low), f(high)), (1.0, 4.0));
    let (low, high) = extent(s(2.0), s(2.0), s(2.0), &pad);
    assert_eq!((f(low), f(high)), (2.0 - 0.001, 2.0 + 0.001));
}

#[test]
fn triangle_box_is_tight_and_padded_where_flat() {
    let b = triangle_box(p(0.0, 1.0, 5.0), p(2.0, -1.0, 5.0), p(1.0, 3.0, 5.0), &pad);
    assert_eq!(arr_v(b.min), [0.0, -1.0, 5.0 - 0.001]);
    assert_eq!(arr_v(b.max), [2.0, 3.0, 5.0 + 0.001]);
    // A triangle that is one point is padded on every axis.
    let b = triangle_box(p(1.0, 1.0, 1.0), p(1.0, 1.0, 1.0), p(1.0, 1.0, 1.0), &pad);
    assert_eq!(arr_v(b.min), [1.0 - 0.001; 3]);
    assert_eq!(arr_v(b.max), [1.0 + 0.001; 3]);
    for k in 0..3 {
        assert!(arr_v(b.min)[k] < arr_v(b.max)[k]);
    }
}

#[test]
fn constant_texture_is_its_colour_everywhere() {
    let red = Color::new(200, 10, 20);
    let t = ConstantTexture::new(red);
    assert_eq!(t.value(s(0.0), s(0.0), p(0.0, 0.0, 0.0)), red);
    assert_eq!(t.value(s(0.3), s(0.9), p(5.0, -6.0, 7.0)), red);
    let u: ConstantTexture = red.into();
    assert_eq!(u.color, red);
    assert_eq!(ConstantTexture::from(red).value(s(1.0), s(1.0), p(1.0, 1.0, 1.0)), red);
}

#[test]
fn checker_picks_by_the_sign_of_the_pattern() {
    let odd = Color::new(51, 76, 25);
    let even = Color::new(229, 229, 229);
    let t = CheckerTexture::new(ConstantTexture::new(odd), ConstantTexture::new(even));
    let at = p(0.1, 0.2, 0.3);
    assert_eq!(t.pick(s(-0.5), s(0.0), s(0.0), at), odd);
    assert_eq!(t.pick(s(0.5), s(0.0), s(0.0), at), even);
    assert_eq!(t.pick(s(0.0), s(0.0), s(0.0), at), even);
    assert_eq!(t.pick(s(-0.0), s(0.0), s(0.0), at), even);
    assert_eq!(t.pick(s(f32::NAN), s(0.0), s(0.0), at), even);
    // With the sines of the pattern computed here.
    let q = [0.35f32, 1.0, 2.0];
    let coeff = (10.0 * q[0]).sin() * (10.0 * q[1]).sin() * (10.0 * q[2]).sin();
    let expected = if coeff < 0.0 { odd } else { even };
    assert_eq!(t.pick(s(coeff), s(0.0), s(0.0), p(q[0], q[1], q[2])), expected);
}
