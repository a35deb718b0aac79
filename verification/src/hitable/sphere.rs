//! The choice among the points at which a ray meets a sphere.

use vstd::prelude::*;
use crate::hitable::HitInfos;
use crate::math::{Point, Scalar, Vector};

verus! {

/// A point at which a ray meets a surface: the ray parameter, the point and
/// the surface normal there.
#[derive(Debug, Clone, Copy)]
pub struct Crossing {
    pub t: Scalar,
    pub point: Point,
    pub normal: Vector,
}

/// The points at which a ray meets a sphere: none where the discriminant is
/// below zero, one where it is zero, else two.
#[derive(Debug, Clone, Copy)]
pub enum Roots {
    Zero,
    One(Crossing),
    Two(Crossing, Crossing),
}

impl Crossing {
    /// The crossing lies in the window from `tmin` to `tmax`, ends included.
    pub open spec fn within(self, tmin: Scalar, tmax: Scalar) -> bool {
        tmin.le_spec(self.t) && self.t.le_spec(tmax)
    }

    /// Whether the crossing lies in the window from `tmin` to `tmax`.
    pub fn in_window(&self, tmin: Scalar, tmax: Scalar) -> (r: bool)
        ensures
            r == self.within(tmin, tmax),
    {
        tmin.le(self.t) && self.t.le(tmax)
    }
}

impl Roots {
    /// Crossing `c` is one of the roots.
    pub open spec fn has(self, c: Crossing) -> bool {
        match self {
            Roots::Zero => false,
            Roots::One(a) => c == a,
            Roots::Two(a, b) => c == a || c == b,
        }
    }

    /// The crossing that counts as the hit: of the roots in the window the
    /// one with the smaller parameter, the first where they are equal.
    pub open spec fn chosen(self, tmin: Scalar, tmax: Scalar) -> Option<Crossing> {
        match self {
            Roots::Zero => None,
            Roots::One(a) => if a.within(tmin, tmax) {
                Some(a)
            } else {
                None
            },
            Roots::Two(a, b) => if a.within(tmin, tmax) && b.within(tmin, tmax) {
                if a.t.le_spec(b.t) {
                    Some(a)
                } else {
                    Some(b)
                }
            } else if a.within(tmin, tmax) {
                Some(a)
            } else if b.within(tmin, tmax) {
                Some(b)
            } else {
                None
            },
        }
    }

    /// The crossing that counts as the hit in the window from `tmin` to
    /// `tmax`, if there is one. It is the closest root in the window: a root
    /// in the window that no root in the window comes before; and there is
    /// none only where no root lies in the window.
    pub fn pick(self, tmin: Scalar, tmax: Scalar) -> (crossing: Option<Crossing>)
        ensures
            crossing == self.chosen(tmin, tmax),
            match crossing {
                Some(c) => {
                    &&& self.has(c)
                    &&& c.within(tmin, tmax)
                    &&& forall|other: Crossing|
                        self.has(other) && other.within(tmin, tmax) ==> c.t.le_spec(other.t)
                },
                None => forall|other: Crossing| self.has(other) ==> !other.within(tmin, tmax),
            },
    {
        match self {
            Roots::Zero => None,
            Roots::One(a) => if a.in_window(tmin, tmax) {
                Some(a)
            } else {
                None
            },
            Roots::Two(a, b) => {
                let first = a.in_window(tmin, tmax);
                let second = b.in_window(tmin, tmax);
                if first && second {
                    if a.t.le(b.t) {
                        Some(a)
                    } else {
                        Some(b)
                    }
                } else if first {
                    Some(a)
                } else if second {
                    Some(b)
                } else {
                    None
                }
            },
        }
    }

    /// The record of the hit of a sphere with the given roots in the window
    /// from `tmin` to `tmax`, if a root lies there.
    pub fn hit<M>(self, tmin: Scalar, tmax: Scalar, material: M) -> (infos: Option<HitInfos<M>>)
        ensures
            infos == match self.chosen(tmin, tmax) {
                Some(c) => Some(HitInfos { t: c.t, point: c.point, normal: c.normal, material }),
                None => None,
            },
    {
        match self.pick(tmin, tmax) {
            Some(c) => Some(HitInfos { t: c.t, point: c.point, normal: c.normal, material }),
            None => None,
        }
    }
}

/// No root below the start of the window is ever chosen: a sphere that
/// lies behind the ray is not hit.
pub proof fn lemma_roots_behind(roots: Roots, tmin: Scalar, tmax: Scalar)
    requires
        forall|c: Crossing| roots.has(c) ==> c.t.lt_spec(tmin),
    ensures
        roots.chosen(tmin, tmax).is_none(),
{
    match roots {
        Roots::Zero => {},
        Roots::One(a) => {
            assert(roots.has(a));
        },
        Roots::Two(a, b) => {
            assert(roots.has(a));
            assert(roots.has(b));
        },
    }
}

} // verus!
