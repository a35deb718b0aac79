use raytracer::hitable::aabb::{fast_max, fast_min, slabs_hit, Slab, Slabs, AABB};
use raytracer::hitable::bvh::{box_compare, comes_after, fast_cmp, Entry, BVH};
use raytracer::hitable::sort::{merge, reversed, sort_on_axis};
use raytracer::hitable::{nearer, HitInfos, Hitable};
use raytracer::math::{Point, Scalar, Vector};
use raytracer::ray::Ray;
use std::cmp::Ordering;

fn s(x: f32) -> Scalar {
    Scalar::from_bits(x.to_bits())
}

fn f(x: Scalar) -> f32 {
    f32::from_bits(x.to_bits())
}

fn v(x: f32, y: f32, z: f32) -> Vector {
    Vector::new(s(x), s(y), s(z))
}

fn p(x: f32, y: f32, z: f32) -> Point {
    Point::new(s(x), s(y), s(z))
}

fn ray(o: [f32; 3], d: [f32; 3]) -> Ray {
    Ray::new(p(o[0], o[1], o[2]), v(d[0], d[1], d[2]))
}

/// A sphere with a number for its material.
struct Ball {
    center: [f32; 3],
    radius: f32,
    tag: usize,
}

fn arr_p(q: Point) -> [f32; 3] {
    [f(q.x), f(q.y), f(q.z)]
}

fn arr_v(q: Vector) -> [f32; 3] {
    [f(q.x), f(q.y), f(q.z)]
}

fn dot(a: [f32; 3], b: [f32; 3]) -> f32 {
    a[0] * b[0] + a[1] * b[1] + a[2] * b[2]
}

impl Hitable for Ball {
    type Material = usize;

    fn hit(&self, ray: Ray, tmin: Scalar, tmax: Scalar) -> Option<HitInfos<usize>> {
        let o = arr_p(ray.origin);
        let d = arr_v(ray.direction);
        let oc = [o[0] - self.center[0], o[1] - self.center[1], o[2] - self.center[2]];
        let a = dot(d, d);
        let b = 2.0 * dot(oc, d);
        let c = dot(oc, oc) - self.radius * self.radius;
        let disc = b * b - 4.0 * a * c;
        if disc < 0.0 {
            return None;
        }
        let at = |t: f32| {
            let q = [o[0] + d[0] * t, o[1] + d[1] * t, o[2] + d[2] * t];
            let n = [
                (q[0] - self.center[0]) / self.radius,
                (q[1] - self.center[1]) / self.radius,
                (q[2] - self.center[2]) / self.radius,
            ];
            HitInfos::min_max(s(t), tmin, tmax, p(q[0], q[1], q[2]), v(n[0], n[1], n[2]), self.tag)
        };
        let t1 = (-b - disc.sqrt()) / (2.0 * a);
        let t2 = (-b + disc.sqrt()) / (2.0 * a);
        nearer(at(t1), at(t2))
    }

    fn bounding_box(&self) -> Option<AABB> {
        let r = self.radius.abs();
        let c = self.center;
        Some(AABB::new(v(c[0] - r, c[1] - r, c[2] - r), v(c[0] + r, c[1] + r, c[2] + r)))
    }
}

fn crossings(aabb: AABB, ray: Ray) -> Slabs {
    let o = arr_p(ray.origin);
    let d = arr_v(ray.direction);
    let lo = arr_v(aabb.min);
    let hi = arr_v(aabb.max);
    let slab = |k: usize| {
        let inv_d = 1.0 / d[k];
        Slab { t0: s((lo[k] - o[k]) * inv_d), t1: s((hi[k] - o[k]) * inv_d), inv_d: s(inv_d) }
    };
    Slabs { x: slab(0), y: slab(1), z: slab(2) }
}

struct Lcg(u64);

impl Lcg {
    fn next(&mut self) -> f32 {
        self.0 = self.0.wrapping_mul(6364136223846793005).wrapping_add(1442695040888963407);
        ((self.0 >> 40) as f32) / ((1u64 << 24) as f32)
    }
}

#[test]
fn scalar_order_is_the_order_of_the_numbers() {
    let values = [
        f32::NEG_INFINITY,
        -3.5,
        -1.0e-30,
        -0.0,
        0.0,
        1.0e-40,
        0.001,
        1.0,
        2.5,
        f32::MAX,
        f32::INFINITY,
        f32::NAN,
    ];
    for &a in values.iter() {
        for &b in values.iter() {
            assert_eq!(s(a).lt(s(b)), a < b, "{} < {}", a, b);
            assert_eq!(s(a).le(s(b)), a <= b, "{} <= {}", a, b);
            assert_eq!(s(a).gt(s(b)), a > b, "{} > {}", a, b);
            assert_eq!(s(a).ge(s(b)), a >= b, "{} >= {}", a, b);
            assert_eq!(s(a).equals(s(b)), a == b, "{} == {}", a, b);
        }
        assert_eq!(s(a).nan(), a.is_nan());
    }
    assert_eq!(Scalar::zero().to_bits(), 0.0f32.to_bits());
    assert_eq!(s(-2.0).place(), -(2.0f32.to_bits() as i64));
}

#[test]
fn fast_min_and_max_pick_as_the_comparison_says() {
    let values = [-1.0f32, 0.0, 3.0, f32::INFINITY, f32::NAN];
    for &a in values.iter() {
        for &b in values.iter() {
            let min = if a < b { a } else { b };
            let max = if a > b { a } else { b };
            assert_eq!(fast_min(s(a), s(b)).to_bits(), min.to_bits());
            assert_eq!(fast_max(s(a), s(b)).to_bits(), max.to_bits());
        }
    }
}

#[test]
fn fast_cmp_orders_numbers() {
    assert_eq!(fast_cmp(&s(1.0), &s(1.0)), Ordering::Equal);
    assert_eq!(fast_cmp(&s(-0.0), &s(0.0)), Ordering::Equal);
    assert_eq!(fast_cmp(&s(1.0), &s(2.0)), Ordering::Less);
    assert_eq!(fast_cmp(&s(2.0), &s(1.0)), Ordering::Greater);
    assert_eq!(fast_cmp(&s(f32::NAN), &s(1.0)), Ordering::Greater);
    assert_eq!(fast_cmp(&s(1.0), &s(f32::NAN)), Ordering::Greater);
    let a = AABB::new(v(0.0, 5.0, -1.0), v(1.0, 6.0, 0.0));
    let b = AABB::new(v(2.0, 5.0, -3.0), v(3.0, 6.0, 0.0));
    assert_eq!(box_compare(&a, &b, 0), Ordering::Less);
    assert_eq!(box_compare(&a, &b, 1), Ordering::Equal);
    assert_eq!(box_compare(&a, &b, 2), Ordering::Greater);
    assert!(comes_after(&Some(a), &Some(b), 2));
    assert!(!comes_after(&Some(a), &Some(b), 0));
    assert!(!comes_after(&None, &Some(b), 0));
}

#[test]
fn surrounding_is_the_tight_union() {
    let a = AABB::new(v(0.0, -1.0, 2.0), v(1.0, 1.0, 3.0));
    let b = AABB::new(v(-2.0, 0.0, 2.5), v(0.5, 4.0, 2.75));
    let u = AABB::surrounding(a, b);
    assert_eq!(arr_v(u.min), [-2.0, -1.0, 2.0]);
    assert_eq!(arr_v(u.max), [1.0, 4.0, 3.0]);
    assert!(AABB::surrounding_opt(Some(a), None).is_none());
    assert!(AABB::surrounding_opt(None, Some(b)).is_none());
    let both = AABB::surrounding_opt(Some(a), Some(b)).unwrap();
    assert_eq!(arr_v(both.min), [-2.0, -1.0, 2.0]);
}

#[test]
fn slab_test_on_a_unit_box() {
    let unit = AABB::new(v(-1.0, -1.0, -1.0), v(1.0, 1.0, 1.0));
    let through = ray([0.0, 0.0, 5.0], [0.0, 0.0, -1.0]);
    assert!(unit.hit(through, s(0.001), s(f32::MAX), &crossings));
    assert!(slabs_hit(crossings(unit, through), s(0.001), s(f32::MAX)));
    // The window ends before the box.
    assert!(!unit.hit(through, s(0.001), s(3.9), &crossings));
    // The window starts behind the box.
    assert!(!unit.hit(through, s(6.1), s(f32::MAX), &crossings));
    let beside = ray([3.0, 0.0, 5.0], [0.0, 0.0, -1.0]);
    assert!(!unit.hit(beside, s(0.001), s(f32::MAX), &crossings));
    let away = ray([0.0, 0.0, 5.0], [0.0, 0.0, 1.0]);
    assert!(!unit.hit(away, s(0.001), s(f32::MAX), &crossings));
    let slanted = ray([-5.0, -5.0, -5.0], [1.0, 1.0, 1.0]);
    assert!(unit.hit(slanted, s(0.0), s(100.0), &crossings));
}

#[test]
fn min_max_keeps_hits_in_the_window_only() {
    let at = |t: f32| HitInfos::min_max(s(t), s(1.0), s(2.0), p(0.0, 0.0, 0.0), v(0.0, 1.0, 0.0), 7u8);
    assert!(at(0.5).is_none());
    assert!(at(2.5).is_none());
    assert!(at(f32::NAN).is_none());
    for t in [1.0f32, 1.5, 2.0] {
        let h = at(t).unwrap();
        assert_eq!(f(h.t), t);
        assert_eq!(h.material, 7);
        assert_eq!(arr_v(h.normal), [0.0, 1.0, 0.0]);
    }
}

#[test]
fn nearer_prefers_the_smaller_parameter() {
    let at = |t: f32, tag: u8| {
        HitInfos::min_max(s(t), s(0.0), s(10.0), p(0.0, 0.0, 0.0), v(0.0, 1.0, 0.0), tag)
    };
    assert_eq!(nearer(at(1.0, 1), at(2.0, 2)).unwrap().material, 1);
    assert_eq!(nearer(at(3.0, 1), at(2.0, 2)).unwrap().material, 2);
    assert_eq!(nearer(at(2.0, 1), at(2.0, 2)).unwrap().material, 1);
    assert_eq!(nearer(at(20.0, 1), at(2.0, 2)).unwrap().material, 2);
    assert_eq!(nearer(at(1.0, 1), at(20.0, 2)).unwrap().material, 1);
    assert!(nearer(at(20.0, 1), at(30.0, 2)).is_none());
}

#[test]
fn sphere_is_missed_by_rays_that_point_away() {
    let ball = Ball { center: [0.0, 0.0, -1.0], radius: 0.5, tag: 0 };
    let mut rng = Lcg(11);
    for _ in 0..200 {
        let o = [rng.next() * 8.0 - 4.0, rng.next() * 8.0 - 4.0, rng.next() * 8.0 - 4.0];
        let oc = [o[0] - ball.center[0], o[1] - ball.center[1], o[2] - ball.center[2]];
        if dot(oc, oc) <= 0.3 {
            continue;
        }
        // Any direction in the half-space that faces away from the centre.
        let mut d = [rng.next() - 0.5, rng.next() - 0.5, rng.next() - 0.5];
        if dot(d, oc) < 0.0 {
            d = [-d[0], -d[1], -d[2]];
        }
        if dot(d, oc) <= 1.0e-3 {
            continue;
        }
        assert!(ball.hit(ray(o, d), s(0.001), s(f32::MAX)).is_none());
    }
}

#[test]
fn ray_at_the_centre_hits_at_distance_less_radius() {
    let ball = Ball { center: [1.0, 2.0, -5.0], radius: 1.5, tag: 3 };
    let o = [0.0f32, 0.0, 0.0];
    let dist = (1.0f32 + 4.0 + 25.0).sqrt();
    let d = [1.0 / dist, 2.0 / dist, -5.0 / dist];
    let h = ball.hit(ray(o, d), s(0.001), s(f32::MAX)).unwrap();
    assert!((f(h.t) - (dist - 1.5)).abs() < 1.0e-4);
    let n = arr_v(h.normal);
    // The normal is parallel to the direction: their cross product vanishes.
    let cross = [n[1] * d[2] - n[2] * d[1], n[2] * d[0] - n[0] * d[2], n[0] * d[1] - n[1] * d[0]];
    assert!(dot(cross, cross).sqrt() < 1.0e-4);
    assert!((dot(n, n).sqrt() - 1.0).abs() < 1.0e-4);
    assert_eq!(h.material, 3);
}

fn random_balls(rng: &mut Lcg, count: usize) -> Vec<Ball> {
    (0..count)
        .map(|tag| Ball {
            center: [rng.next() * 20.0 - 10.0, rng.next() * 20.0 - 10.0, rng.next() * 20.0 - 10.0],
            radius: 0.25 + rng.next() * 2.0,
            tag,
        })
        .collect()
}

#[test]
fn hierarchy_agrees_with_the_scan_of_the_list() {
    let mut rng = Lcg(2024);
    for count in [0usize, 1, 2, 3, 4, 5, 8, 17, 40] {
        let mut seed = Lcg(count as u64 + 5);
        let list = random_balls(&mut seed, count);
        let mut seed = Lcg(count as u64 + 5);
        let bvh = BVH::new(random_balls(&mut seed, count), crossings);
        let mut hits = 0;
        for _ in 0..300 {
            let o = [rng.next() * 40.0 - 20.0, rng.next() * 40.0 - 20.0, rng.next() * 40.0 - 20.0];
            let d = [rng.next() - 0.5, rng.next() - 0.5, rng.next() - 0.5];
            let r = ray(o, d);
            let tmax = if rng.next() < 0.5 { f32::MAX } else { rng.next() * 30.0 };
            let a = list.hit(r, s(0.001), s(tmax));
            let b = bvh.hit(r, s(0.001), s(tmax));
            match (a, b) {
                (Some(a), Some(b)) => {
                    assert_eq!(f(a.t), f(b.t));
                    hits += 1;
                },
                (None, None) => {},
                (a, b) => panic!("scan {:?}, hierarchy {:?}", a.map(|h| f(h.t)), b.map(|h| f(h.t))),
            }
        }
        if count >= 17 {
            assert!(hits > 0);
        }
    }
}

#[test]
fn hierarchy_over_nothing_hits_nothing_and_has_no_box() {
    let bvh = BVH::new(Vec::<Ball>::new(), crossings);
    assert!(bvh.bounding_box().is_none());
    let mut rng = Lcg(3);
    for _ in 0..50 {
        let o = [rng.next(), rng.next(), rng.next()];
        let d = [rng.next() - 0.5, rng.next() - 0.5, rng.next() - 0.5];
        assert!(bvh.hit(ray(o, d), s(0.001), s(f32::MAX)).is_none());
    }
}

#[test]
fn hierarchy_box_is_the_union_of_the_boxes() {
    let balls = vec![
        Ball { center: [0.0, 0.0, 0.0], radius: 1.0, tag: 0 },
        Ball { center: [5.0, 1.0, -2.0], radius: 2.0, tag: 1 },
        Ball { center: [-3.0, 4.0, 0.0], radius: 0.5, tag: 2 },
    ];
    let bvh = BVH::new(balls, crossings);
    let b = bvh.bounding_box().unwrap();
    assert_eq!(arr_v(b.min), [-3.5, -1.0, -4.0]);
    assert_eq!(arr_v(b.max), [7.0, 4.5, 1.0]);
    let one = BVH::new(vec![Ball { center: [1.0, 1.0, 1.0], radius: 1.0, tag: 0 }], crossings);
    let b = one.bounding_box().unwrap();
    assert_eq!(arr_v(b.min), [0.0, 0.0, 0.0]);
    assert_eq!(arr_v(b.max), [2.0, 2.0, 2.0]);
}

#[test]
fn list_box_is_the_union_of_the_boxes() {
    let balls = vec![
        Ball { center: [0.0, 0.0, 0.0], radius: 1.0, tag: 0 },
        Ball { center: [5.0, 1.0, -2.0], radius: 2.0, tag: 1 },
    ];
    let b = balls.bounding_box().unwrap();
    assert_eq!(arr_v(b.min), [-1.0, -1.0, -4.0]);
    assert_eq!(arr_v(b.max), [7.0, 3.0, 1.0]);
    assert!(Vec::<Ball>::new().bounding_box().is_none());
}

#[test]
fn scan_returns_the_closest_of_several() {
    let balls = vec![
        Ball { center: [0.0, 0.0, -10.0], radius: 1.0, tag: 0 },
        Ball { center: [0.0, 0.0, -4.0], radius: 1.0, tag: 1 },
        Ball { center: [0.0, 0.0, -7.0], radius: 1.0, tag: 2 },
    ];
    let r = ray([0.0, 0.0, 0.0], [0.0, 0.0, -1.0]);
    let h = balls.hit(r, s(0.001), s(f32::MAX)).unwrap();
    assert_eq!(h.material, 1);
    assert_eq!(f(h.t), 3.0);
    // A window that starts behind the first ball finds the next one.
    let h = balls.hit(r, s(5.5), s(f32::MAX)).unwrap();
    assert_eq!(h.material, 2);
    assert_eq!(f(h.t), 6.0);
    assert!(balls.hit(r, s(0.001), s(2.5)).is_none());
}

#[test]
fn sort_orders_by_the_lower_corner_and_keeps_ties_in_place() {
    let keys = [3.0f32, 1.0, 2.0, 1.0, 0.5, 3.0, 2.0];
    for axis in 0..3u32 {
        let entries: Vec<Entry<usize>> = keys
            .iter()
            .enumerate()
            .map(|(i, &k)| {
                let mut lo = [9.0f32, 9.0, 9.0];
                lo[axis as usize] = k;
                Entry {
                    shape: i,
                    aabb: Some(AABB::new(v(lo[0], lo[1], lo[2]), v(10.0, 10.0, 10.0))),
                }
            })
            .collect();
        let entries = sort_on_axis(entries, axis);
        let order: Vec<usize> = entries.iter().map(|e| e.shape).collect();
        assert_eq!(order, vec![4, 1, 3, 2, 6, 0, 5]);
    }
}

fn keyed_entries(keys: &[(f32, usize)]) -> Vec<Entry<usize>> {
    keys.iter()
        .map(|&(k, tag)| Entry {
            shape: tag,
            aabb: Some(AABB::new(v(k, 0.0, 0.0), v(k + 1.0, 1.0, 1.0))),
        })
        .collect()
}

#[test]
fn sort_agrees_with_the_stable_sort_of_the_standard_library() {
    let mut rng = Lcg(77);
    for count in [0usize, 1, 2, 3, 5, 16, 33, 100] {
        let keys: Vec<(f32, usize)> =
            (0..count).map(|tag| ((rng.next() * 8.0).floor(), tag)).collect();
        let mut expected = keys.clone();
        expected.sort_by(|a, b| a.0.partial_cmp(&b.0).unwrap());
        let sorted = sort_on_axis(keyed_entries(&keys), 0);
        let order: Vec<usize> = sorted.iter().map(|e| e.shape).collect();
        assert_eq!(order, expected.iter().map(|k| k.1).collect::<Vec<_>>());
    }
}

#[test]
fn merge_takes_the_left_entry_of_a_tie_first() {
    let left = keyed_entries(&[(1.0, 0), (2.0, 1), (2.0, 2), (5.0, 3)]);
    let right = keyed_entries(&[(0.0, 10), (2.0, 11), (3.0, 12), (5.0, 13), (6.0, 14)]);
    let order: Vec<usize> = merge(left, right, 0).iter().map(|e| e.shape).collect();
    assert_eq!(order, vec![10, 0, 1, 2, 11, 12, 3, 13, 14]);
    assert_eq!(reversed(vec![1, 2, 3]), vec![3, 2, 1]);
    assert_eq!(reversed(Vec::<u8>::new()), Vec::<u8>::new());
}

#[test]
fn sort_leaves_entries_without_a_box_among_the_others() {
    let mut entries = keyed_entries(&[(3.0, 0), (1.0, 1), (2.0, 2)]);
    entries.insert(1, Entry { shape: 9, aabb: None });
    let sorted = sort_on_axis(entries, 0);
    let mut tags: Vec<usize> = sorted.iter().map(|e| e.shape).collect();
    tags.sort();
    assert_eq!(tags, vec![0, 1, 2, 9]);
}

/// A ball that gives no box.
struct Boxless(Ball);

impl Hitable for Boxless {
    type Material = usize;

    fn hit(&self, ray: Ray, tmin: Scalar, tmax: Scalar) -> Option<HitInfos<usize>> {
        self.0.hit(ray, tmin, tmax)
    }

    fn bounding_box(&self) -> Option<AABB> {
        if self.0.tag % 3 == 0 {
            None
        } else {
            self.0.bounding_box()
        }
    }
}

#[test]
fn shapes_without_a_box_are_searched_all_the_same() {
    let mut rng = Lcg(91);
    for count in [1usize, 2, 3, 7, 20] {
        let mut seed = Lcg(count as u64);
        let list: Vec<Boxless> = random_balls(&mut seed, count).into_iter().map(Boxless).collect();
        let mut seed = Lcg(count as u64);
        let bvh = BVH::new(
            random_balls(&mut seed, count).into_iter().map(Boxless).collect::<Vec<_>>(),
            crossings,
        );
        assert!(bvh.bounding_box().is_none());
        assert!(list.bounding_box().is_none());
        for _ in 0..200 {
            let o = [rng.next() * 40.0 - 20.0, rng.next() * 40.0 - 20.0, rng.next() * 40.0 - 20.0];
            let d = [rng.next() - 0.5, rng.next() - 0.5, rng.next() - 0.5];
            let a = list.hit(ray(o, d), s(0.001), s(f32::MAX)).map(|h| f(h.t));
            let b = bvh.hit(ray(o, d), s(0.001), s(f32::MAX)).map(|h| f(h.t));
            assert_eq!(a, b);
        }
    }
}

#[test]
fn hierarchies_nest() {
    let mut seed = Lcg(5);
    let near = BVH::new(random_balls(&mut seed, 9), crossings);
    let far = BVH::new(random_balls(&mut seed, 6), crossings);
    let mut seed = Lcg(5);
    let list = random_balls(&mut seed, 15);
    let both = BVH::new(vec![near, far], crossings);
    let whole = both.bounding_box().unwrap();
    let expected = list.bounding_box().unwrap();
    assert_eq!(arr_v(whole.min), arr_v(expected.min));
    assert_eq!(arr_v(whole.max), arr_v(expected.max));
    let mut rng = Lcg(6);
    let mut hits = 0;
    for _ in 0..400 {
        let o = [rng.next() * 40.0 - 20.0, rng.next() * 40.0 - 20.0, rng.next() * 40.0 - 20.0];
        let d = [rng.next() - 0.5, rng.next() - 0.5, rng.next() - 0.5];
        let a = list.hit(ray(o, d), s(0.001), s(f32::MAX)).map(|h| f(h.t));
        let b = both.hit(ray(o, d), s(0.001), s(f32::MAX)).map(|h| f(h.t));
        assert_eq!(a, b);
        if a.is_some() {
            hits += 1;
        }
    }
    assert!(hits > 0);
}

#[test]
fn prelude_names_the_kernel_types() {
    let r = raytracer::prelude::Ray::new(
        raytracer::prelude::Point::origin(),
        raytracer::prelude::Vector::zero(),
    );
    assert_eq!(r.origin.x.to_bits(), raytracer::prelude::Scalar::zero().to_bits());
    assert_eq!(raytracer::prelude::Color::new(1, 2, 3).blue, 3);
}
