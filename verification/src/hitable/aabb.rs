//! Axis-aligned bounding boxes: their union, and the interval logic of the
//! slab test.

use vstd::prelude::*;
use crate::math::{Scalar, Vector};
use crate::ray::Ray;

verus! {

/// The smaller of two numbers; `b` where they are equal or unordered.
pub open spec fn min_of(a: Scalar, b: Scalar) -> Scalar {
    if a.lt_spec(b) {
        a
    } else {
        b
    }
}

/// The larger of two numbers; `b` where they are equal or unordered.
pub open spec fn max_of(a: Scalar, b: Scalar) -> Scalar {
    if b.lt_spec(a) {
        a
    } else {
        b
    }
}

/// The smaller of two numbers; `b` where they are equal or unordered.
pub fn fast_min(a: Scalar, b: Scalar) -> (r: Scalar)
    ensures
        r == min_of(a, b),
{
    if a.lt(b) {
        a
    } else {
        b
    }
}

/// The larger of two numbers; `b` where they are equal or unordered.
pub fn fast_max(a: Scalar, b: Scalar) -> (r: Scalar)
    ensures
        r == max_of(a, b),
{
    if a.gt(b) {
        a
    } else {
        b
    }
}

/// A box with its faces along the axes, given by two opposite corners.
#[derive(Debug, Clone, Copy)]
pub struct AABB {
    pub min: Vector,
    pub max: Vector,
}

/// Where a ray crosses the two planes of a box on one axis: the parameter at
/// the lower plane, the parameter at the upper plane, and the reciprocal of
/// the ray's direction on that axis.
#[derive(Debug, Clone, Copy)]
pub struct Slab {
    pub t0: Scalar,
    pub t1: Scalar,
    pub inv_d: Scalar,
}

/// The crossings of a ray with a box on the three axes.
#[derive(Debug, Clone, Copy)]
pub struct Slabs {
    pub x: Slab,
    pub y: Slab,
    pub z: Slab,
}

/// A range of ray parameters, from `tmin` to `tmax`.
#[derive(Debug, Clone, Copy)]
pub struct Window {
    pub tmin: Scalar,
    pub tmax: Scalar,
}

impl Slab {
    /// Whether the ray runs down the axis.
    pub open spec fn reversed(self) -> bool {
        self.inv_d.lt_spec(Scalar { bits: 0 })
    }

    /// The parameter at which the ray enters the slab.
    pub open spec fn entry(self) -> Scalar {
        if self.reversed() {
            self.t1
        } else {
            self.t0
        }
    }

    /// The parameter at which the ray leaves the slab.
    pub open spec fn exit(self) -> Scalar {
        if self.reversed() {
            self.t0
        } else {
            self.t1
        }
    }
}

impl Window {
    /// The window cut down to the part inside a slab.
    pub open spec fn narrowed(self, slab: Slab) -> Window {
        Window { tmin: max_of(slab.entry(), self.tmin), tmax: min_of(slab.exit(), self.tmax) }
    }

    /// The window holds more than one parameter: its end lies beyond its
    /// start.
    pub open spec fn open(self) -> bool {
        self.tmin.lt_spec(self.tmax)
    }

    /// The window is shut: its end is at or before its start. With an
    /// unordered bound a window is neither open nor shut.
    pub open spec fn shut(self) -> bool {
        self.tmax.le_spec(self.tmin)
    }

    /// The window cut down to the part inside a slab, and whether that part
    /// is shut.
    pub fn narrow(self, slab: Slab) -> (r: (Window, bool))
        ensures
            r.0 == self.narrowed(slab),
            r.1 == self.narrowed(slab).shut(),
    {
        let mut t0 = slab.t0;
        let mut t1 = slab.t1;
        if slab.inv_d.lt(Scalar::zero()) {
            t0 = slab.t1;
            t1 = slab.t0;
        }
        let tmin = fast_max(t0, self.tmin);
        let tmax = fast_min(t1, self.tmax);
        (Window { tmin, tmax }, tmax.le(tmin))
    }
}

/// The slab test: the window is cut down axis by axis, and the test fails
/// as soon as what is left is shut.
pub open spec fn slabs_overlap(slabs: Slabs, window: Window) -> bool {
    let after_x = window.narrowed(slabs.x);
    let after_y = after_x.narrowed(slabs.y);
    let after_z = after_y.narrowed(slabs.z);
    !after_x.shut() && !after_y.shut() && !after_z.shut()
}

/// Every crossing parameter is a number.
pub open spec fn all_numbers(slabs: Slabs) -> bool {
    &&& !slabs.x.t0.is_nan() && !slabs.x.t1.is_nan()
    &&& !slabs.y.t0.is_nan() && !slabs.y.t1.is_nan()
    &&& !slabs.z.t0.is_nan() && !slabs.z.t1.is_nan()
}

/// The slab test on crossings that were computed for a box and a ray.
/// Where the bounds of the window and the crossing parameters are numbers,
/// it passes exactly when the window, cut down to the part inside the three
/// slabs, is open.
pub fn slabs_hit(slabs: Slabs, tmin: Scalar, tmax: Scalar) -> (r: bool)
    ensures
        r == slabs_overlap(slabs, Window { tmin, tmax }),
        !tmin.is_nan() && !tmax.is_nan() && all_numbers(slabs) ==> r == (Window {
            tmin,
            tmax,
        }).narrowed(slabs.x).narrowed(slabs.y).narrowed(slabs.z).open(),
{
    let window = Window { tmin, tmax };
    let (window, shut) = window.narrow(slabs.x);
    if shut {
        return false;
    }
    let (window, shut) = window.narrow(slabs.y);
    if shut {
        return false;
    }
    let (_, shut) = window.narrow(slabs.z);
    !shut
}

/// `passed` is an outcome of the slab test of the box for the ray and the
/// window, with the crossings that the crossings function gave.
pub open spec fn box_tested<F: Fn(AABB, Ray) -> Slabs>(
    crossings: &F,
    aabb: AABB,
    ray: Ray,
    tmin: Scalar,
    tmax: Scalar,
    passed: bool,
) -> bool {
    exists|slabs: Slabs| #[trigger]
        crossings.ensures((aabb, ray), slabs) && passed == slabs_overlap(
            slabs,
            Window { tmin, tmax },
        )
}

impl AABB {
    pub fn new(min: Vector, max: Vector) -> (aabb: AABB)
        ensures
            aabb == (AABB { min, max }),
    {
        AABB { min, max }
    }

    /// The lower corner is at or below the upper corner on every axis. No
    /// coordinate of such a box is unordered.
    pub open spec fn wf(self) -> bool {
        self.min.le_each(self.max)
    }

    /// `other` lies inside this box.
    pub open spec fn encloses(self, other: AABB) -> bool {
        self.min.le_each(other.min) && other.max.le_each(self.max)
    }

    /// The smallest box around two boxes.
    pub open spec fn union(a: AABB, b: AABB) -> AABB {
        AABB {
            min: Vector {
                x: min_of(a.min.x, b.min.x),
                y: min_of(a.min.y, b.min.y),
                z: min_of(a.min.z, b.min.z),
            },
            max: Vector {
                x: max_of(a.max.x, b.max.x),
                y: max_of(a.max.y, b.max.y),
                z: max_of(a.max.z, b.max.z),
            },
        }
    }

    /// The smallest box around two boxes, where both are there.
    pub open spec fn union_opt(a: Option<AABB>, b: Option<AABB>) -> Option<AABB> {
        match (a, b) {
            (Some(a), Some(b)) => Some(AABB::union(a, b)),
            _ => None,
        }
    }

    /// Whether a ray crosses the box within the window, by the slab test.
    /// The crossings of the ray with the planes of the box come from
    /// `crossings`.
    pub fn hit<F: Fn(AABB, Ray) -> Slabs>(self, ray: Ray, tmin: Scalar, tmax: Scalar, crossings: &F) -> (r:
        bool)
        requires
            crossings.requires((self, ray)),
        ensures
            box_tested(crossings, self, ray, tmin, tmax, r),
    {
        let slabs = crossings(self, ray);
        slabs_hit(slabs, tmin, tmax)
    }

    /// The smallest box around two boxes.
    pub fn surrounding(a: AABB, b: AABB) -> (aabb: AABB)
        ensures
            aabb == AABB::union(a, b),
    {
        let small = Vector::new(
            fast_min(a.min.x, b.min.x),
            fast_min(a.min.y, b.min.y),
            fast_min(a.min.z, b.min.z),
        );
        let big = Vector::new(
            fast_max(a.max.x, b.max.x),
            fast_max(a.max.y, b.max.y),
            fast_max(a.max.z, b.max.z),
        );
        AABB::new(small, big)
    }

    /// The smallest box around two boxes, where both are there.
    pub fn surrounding_opt(a: Option<AABB>, b: Option<AABB>) -> (aabb: Option<AABB>)
        ensures
            aabb == AABB::union_opt(a, b),
    {
        match (a, b) {
            (Some(aa), Some(bb)) => Some(AABB::surrounding(aa, bb)),
            _ => None,
        }
    }
}

/// The union of two boxes is a box, encloses both, and lies inside every box
/// that encloses both: it is tight.
pub proof fn lemma_union_tight(a: AABB, b: AABB, c: AABB)
    requires
        a.wf(),
        b.wf(),
    ensures
        AABB::union(a, b).wf(),
        AABB::union(a, b).encloses(a),
        AABB::union(a, b).encloses(b),
        c.encloses(a) && c.encloses(b) ==> c.encloses(AABB::union(a, b)),
{
}

/// Enclosure is transitive, and every box encloses itself.
pub proof fn lemma_encloses_transitive(a: AABB, b: AABB, c: AABB)
    ensures
        a.encloses(b) && b.encloses(c) ==> a.encloses(c),
        a.wf() ==> a.encloses(a),
{
}

} // verus!
