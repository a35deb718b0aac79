//! What a ray can hit: the record of a hit, the interface of a shape, and
//! the scan of a list of shapes.

use vstd::prelude::*;
use crate::math::{Point, Scalar, Vector};
use crate::ray::Ray;
use crate::hitable::aabb::AABB;

pub mod aabb;
pub mod bvh;
pub mod closest;
pub mod sort;
pub mod sphere;
pub mod triangle;

verus! {

/// Where a ray met a surface: the ray parameter, the point, the surface
/// normal there and the material of the surface.
#[derive(Debug)]
pub struct HitInfos<M> {
    pub t: Scalar,
    pub point: Point,
    pub normal: Vector,
    pub material: M,
}

impl<M> HitInfos<M> {
    /// The hit lies in the window from `tmin` to `tmax`, ends included.
    pub open spec fn within(self, tmin: Scalar, tmax: Scalar) -> bool {
        tmin.le_spec(self.t) && self.t.le_spec(tmax)
    }

    /// The record of a hit at `t`, if `t` lies in the window from `tmin` to
    /// `tmax`, ends included.
    pub fn min_max(
        t: Scalar,
        tmin: Scalar,
        tmax: Scalar,
        point: Point,
        normal: Vector,
        material: M,
    ) -> (infos: Option<Self>)
        ensures
            infos == if tmin.le_spec(t) && t.le_spec(tmax) {
                Some(HitInfos { t, point, normal, material })
            } else {
                None
            },
    {
        if tmin.le(t) && t.le(tmax) {
            Some(HitInfos { t, point, normal, material })
        } else {
            None
        }
    }
}

/// The parameter of a hit, if there is one.
pub open spec fn time_of<M>(infos: Option<HitInfos<M>>) -> Option<Scalar> {
    match infos {
        Some(h) => Some(h.t),
        None => None,
    }
}

/// Two outcomes agree on whether there is a hit, and on its parameter as a
/// number.
pub open spec fn same_time(a: Option<Scalar>, b: Option<Scalar>) -> bool {
    match (a, b) {
        (Some(a), Some(b)) => a.eq_spec(b),
        (None, None) => true,
        _ => false,
    }
}

/// Of two outcomes the hit with the smaller parameter, the left one where
/// they are equal; the right one where the two are unordered; the one hit
/// where there is only one.
pub open spec fn nearer_of<M>(left: Option<HitInfos<M>>, right: Option<HitInfos<M>>) -> Option<
    HitInfos<M>,
> {
    match (left, right) {
        (Some(l), Some(r)) => if l.t.le_spec(r.t) {
            Some(l)
        } else {
            Some(r)
        },
        (_, Some(r)) => Some(r),
        (Some(l), _) => Some(l),
        (None, None) => None,
    }
}

/// Of two outcomes the hit with the smaller parameter.
pub fn nearer<M>(left: Option<HitInfos<M>>, right: Option<HitInfos<M>>) -> (infos: Option<
    HitInfos<M>,
>)
    ensures
        infos == nearer_of(left, right),
{
    match (left, right) {
        (Some(l), Some(r)) => if l.t.le(r.t) {
            Some(l)
        } else {
            Some(r)
        },
        (_, Some(r)) => Some(r),
        (Some(l), _) => Some(l),
        (None, None) => None,
    }
}

/// A shape that a ray can hit.
///
/// `hit` reports the closest point at which the ray meets the shape with a
/// parameter in the window from `tmin` to `tmax`, if there is one.
/// `bounding_box` gives a box around the shape, if it has one.
pub trait Hitable {
    /// The material of the shape's surface.
    type Material;

    fn hit(&self, ray: Ray, tmin: Scalar, tmax: Scalar) -> Option<HitInfos<Self::Material>>;

    fn bounding_box(&self) -> Option<AABB>;
}

/// `infos` is an answer of the shape to the ray and the window.
pub open spec fn answers<H: Hitable>(
    shape: H,
    ray: Ray,
    tmin: Scalar,
    tmax: Scalar,
    infos: Option<HitInfos<H::Material>>,
) -> bool {
    call_ensures(H::hit, (&shape, ray, tmin, tmax), infos)
}

/// `aabb` is a box that the shape gives.
pub open spec fn gives_box<H: Hitable>(shape: H, aabb: Option<AABB>) -> bool {
    call_ensures(H::bounding_box, (&shape,), aabb)
}

/// Where the window ends once `before` was found: at the hit, if there is
/// one.
pub open spec fn end_after<M>(before: Option<HitInfos<M>>, tmax: Scalar) -> Scalar {
    match before {
        Some(h) => h.t,
        None => tmax,
    }
}

/// One step of a scan: the shape is asked for a hit in the window that ends
/// at what was found before, and what it answers takes the place of what was
/// found before, if it is a hit.
pub open spec fn scan_step<H: Hitable>(
    shape: H,
    ray: Ray,
    tmin: Scalar,
    tmax: Scalar,
    before: Option<HitInfos<H::Material>>,
    infos: Option<HitInfos<H::Material>>,
) -> bool {
    exists|found: Option<HitInfos<H::Material>>| #[trigger]
        answers(shape, ray, tmin, end_after(before, tmax), found) && infos == match found {
            Some(h) => Some(h),
            None => before,
        }
}

/// `infos` is an outcome of the scan of a list of shapes: each shape in
/// turn is asked for a hit in the window that ends at the hit found so far,
/// and the last hit found is the outcome.
pub open spec fn scanned<H: Hitable>(
    shapes: Seq<H>,
    ray: Ray,
    tmin: Scalar,
    tmax: Scalar,
    infos: Option<HitInfos<H::Material>>,
) -> bool
    decreases shapes.len(),
{
    if shapes.len() == 0 {
        infos.is_none()
    } else {
        exists|before: Option<HitInfos<H::Material>>|
            scanned(shapes.drop_last(), ray, tmin, tmax, before) && #[trigger] scan_step(
                shapes.last(),
                ray,
                tmin,
                tmax,
                before,
                infos,
            )
    }
}

/// One step of the union of the boxes of a list: the box that the shape
/// gives is joined to the union so far. There is none where either is
/// missing.
pub open spec fn box_step<H: Hitable>(shape: H, so_far: Option<AABB>, aabb: Option<AABB>) -> bool {
    exists|next: Option<AABB>| #[trigger]
        gives_box(shape, next) && aabb == AABB::union_opt(next, so_far)
}

/// `aabb` is an outcome of the box around a list of shapes: the union of
/// the boxes that they give, taken from the first shape on. There is none
/// where the list is empty or a shape has none.
pub open spec fn boxed<H: Hitable>(shapes: Seq<H>, aabb: Option<AABB>) -> bool
    decreases shapes.len(),
{
    if shapes.len() == 0 {
        aabb.is_none()
    } else if shapes.len() == 1 {
        gives_box(shapes[0], aabb)
    } else {
        exists|so_far: Option<AABB>|
            boxed(shapes.drop_last(), so_far) && #[trigger] box_step(shapes.last(), so_far, aabb)
    }
}

impl<H: Hitable> Hitable for Vec<H> {
    type Material = H::Material;

    /// The scan of the list.
    fn hit(&self, ray: Ray, tmin: Scalar, tmax: Scalar) -> (infos: Option<HitInfos<H::Material>>)
        ensures
            scanned(self@, ray, tmin, tmax, infos),
    {
        let mut infos: Option<HitInfos<H::Material>> = None;
        let mut end = tmax;
        let mut i: usize = 0;
        assert(self@.take(0) =~= Seq::empty());
        while i < self.len()
            invariant
                i <= self.len(),
                scanned(self@.take(i as int), ray, tmin, tmax, infos),
                end == end_after(infos, tmax),
            decreases self.len() - i,
        {
            let ghost before = infos;
            let found = self[i].hit(ray, tmin, end);
            if let Some(new_infos) = found {
                end = new_infos.t;
                infos = Some(new_infos);
            }
            proof {
                let next = self@.take(i + 1);
                assert(next.drop_last() =~= self@.take(i as int));
                assert(next.last() == self@[i as int]);
                assert(answers(next.last(), ray, tmin, end_after(before, tmax), found));
                assert(scan_step(next.last(), ray, tmin, tmax, before, infos));
            }
            i += 1;
        }
        assert(self@.take(i as int) =~= self@);
        infos
    }

    /// The box around the list. The shapes are asked for their boxes in
    /// turn, up to the first that has none.
    fn bounding_box(&self) -> (aabb: Option<AABB>)
        ensures
            aabb.is_some() ==> boxed(self@, aabb),
            self@.len() == 0 ==> aabb.is_none(),
            aabb.is_none() && self@.len() > 0 ==> exists|i: int|
                0 <= i < self@.len() && #[trigger] gives_box(self@[i], None),
    {
        if self.len() == 0 {
            return None;
        }
        let first = self[0].bounding_box();
        let mut so_far = match first {
            Some(b) => b,
            None => {
                assert(gives_box(self@[0], None));
                return None;
            },
        };
        assert(self@.take(1) =~= seq![self@[0]]);
        let mut i: usize = 1;
        while i < self.len()
            invariant
                1 <= i <= self.len(),
                boxed(self@.take(i as int), Some(so_far)),
            decreases self.len() - i,
        {
            let ghost before = Some(so_far);
            let next = self[i].bounding_box();
            match next {
                Some(b) => {
                    so_far = AABB::surrounding(b, so_far);
                },
                None => {
                    assert(gives_box(self@[i as int], None));
                    return None;
                },
            }
            proof {
                let seen = self@.take(i + 1);
                assert(seen.drop_last() =~= self@.take(i as int));
                assert(seen.last() == self@[i as int]);
                assert(gives_box(seen.last(), next));
                assert(box_step(seen.last(), before, Some(so_far)));
            }
            i += 1;
        }
        assert(self@.take(i as int) =~= self@);
        Some(so_far)
    }
}

} // verus!
