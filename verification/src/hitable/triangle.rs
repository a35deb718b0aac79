//! The bounding box of a triangle.

use vstd::prelude::*;
use crate::hitable::aabb::AABB;
use crate::math::{Point, Scalar, Vector};

verus! {

/// The least of three numbers, the first of the least where several are
/// equal.
pub open spec fn least_of(a: Scalar, b: Scalar, c: Scalar) -> Scalar {
    let first = if b.lt_spec(a) {
        b
    } else {
        a
    };
    if c.lt_spec(first) {
        c
    } else {
        first
    }
}

/// The greatest of three numbers, the last of the greatest where several
/// are equal.
pub open spec fn greatest_of(a: Scalar, b: Scalar, c: Scalar) -> Scalar {
    let first = if b.lt_spec(a) {
        a
    } else {
        b
    };
    if c.lt_spec(first) {
        first
    } else {
        c
    }
}

/// The least of three numbers.
pub fn least(a: Scalar, b: Scalar, c: Scalar) -> (r: Scalar)
    ensures
        r == least_of(a, b, c),
{
    let first = if b.lt(a) {
        b
    } else {
        a
    };
    if c.lt(first) {
        c
    } else {
        first
    }
}

/// The greatest of three numbers.
pub fn greatest(a: Scalar, b: Scalar, c: Scalar) -> (r: Scalar)
    ensures
        r == greatest_of(a, b, c),
{
    let first = if b.lt(a) {
        a
    } else {
        b
    };
    if c.lt(first) {
        first
    } else {
        c
    }
}

/// The extent of a triangle on one axis: from the least to the greatest of
/// its three coordinates, or, where the two are equal, what the padding
/// makes of them.
pub open spec fn extent_of<F: Fn(Scalar) -> (Scalar, Scalar)>(
    a: Scalar,
    b: Scalar,
    c: Scalar,
    pad: &F,
    extent: (Scalar, Scalar),
) -> bool {
    let low = least_of(a, b, c);
    let high = greatest_of(a, b, c);
    if low.eq_spec(high) {
        pad.ensures((low,), extent)
    } else {
        extent == (low, high)
    }
}

/// The padding widens: for a number it gives a bound below it and a bound
/// above it.
pub open spec fn widens<F: Fn(Scalar) -> (Scalar, Scalar)>(pad: &F) -> bool {
    forall|x: Scalar, r: (Scalar, Scalar)|
        !x.is_nan() && #[trigger] pad.ensures((x,), r) ==> r.0.lt_spec(x) && x.lt_spec(r.1)
}

/// The extent of a triangle on one axis. `pad` gives, for a coordinate, the
/// two bounds to use where the triangle is flat on the axis. With numbers
/// for coordinates and a padding that widens, the extent has a width and
/// holds the three coordinates.
pub fn extent<F: Fn(Scalar) -> (Scalar, Scalar)>(a: Scalar, b: Scalar, c: Scalar, pad: &F) -> (r: (
    Scalar,
    Scalar,
))
    requires
        forall|x: Scalar| #[trigger] pad.requires((x,)),
    ensures
        extent_of(a, b, c, pad, r),
        !a.is_nan() && !b.is_nan() && !c.is_nan() && widens(pad) ==> {
            &&& r.0.lt_spec(r.1)
            &&& r.0.le_spec(a) && a.le_spec(r.1)
            &&& r.0.le_spec(b) && b.le_spec(r.1)
            &&& r.0.le_spec(c) && c.le_spec(r.1)
        },
{
    proof {
        if !a.is_nan() && !b.is_nan() && !c.is_nan() {
            lemma_least_greatest(a, b, c);
        }
    }
    let low = least(a, b, c);
    let high = greatest(a, b, c);
    if low.equals(high) {
        pad(low)
    } else {
        (low, high)
    }
}

/// The bounding box of the triangle with the given corners: tight on every
/// axis on which the triangle has an extent, and padded on the others, so
/// that the box has a volume.
pub fn triangle_box<F: Fn(Scalar) -> (Scalar, Scalar)>(a: Point, b: Point, c: Point, pad: &F) -> (aabb:
    AABB)
    requires
        forall|x: Scalar| #[trigger] pad.requires((x,)),
    ensures
        extent_of(a.x, b.x, c.x, pad, (aabb.min.x, aabb.max.x)),
        extent_of(a.y, b.y, c.y, pad, (aabb.min.y, aabb.max.y)),
        extent_of(a.z, b.z, c.z, pad, (aabb.min.z, aabb.max.z)),
        a.as_vector_spec().is_numeric() && b.as_vector_spec().is_numeric()
            && c.as_vector_spec().is_numeric() && widens(pad) ==> {
            &&& aabb.wf()
            &&& aabb.min.x.lt_spec(aabb.max.x)
            &&& aabb.min.y.lt_spec(aabb.max.y)
            &&& aabb.min.z.lt_spec(aabb.max.z)
            &&& aabb.min.le_each(a.as_vector_spec()) && a.as_vector_spec().le_each(aabb.max)
            &&& aabb.min.le_each(b.as_vector_spec()) && b.as_vector_spec().le_each(aabb.max)
            &&& aabb.min.le_each(c.as_vector_spec()) && c.as_vector_spec().le_each(aabb.max)
        },
{
    let (min_x, max_x) = extent(a.x, b.x, c.x, pad);
    let (min_y, max_y) = extent(a.y, b.y, c.y, pad);
    let (min_z, max_z) = extent(a.z, b.z, c.z, pad);
    AABB { min: Vector::new(min_x, min_y, min_z), max: Vector::new(max_x, max_y, max_z) }
}

/// Among three numbers the least is at or below each, the greatest at or
/// above each, and both are among the three.
pub proof fn lemma_least_greatest(a: Scalar, b: Scalar, c: Scalar)
    requires
        !a.is_nan(),
        !b.is_nan(),
        !c.is_nan(),
    ensures
        least_of(a, b, c).le_spec(a),
        least_of(a, b, c).le_spec(b),
        least_of(a, b, c).le_spec(c),
        a.le_spec(greatest_of(a, b, c)),
        b.le_spec(greatest_of(a, b, c)),
        c.le_spec(greatest_of(a, b, c)),
        least_of(a, b, c) == a || least_of(a, b, c) == b || least_of(a, b, c) == c,
        greatest_of(a, b, c) == a || greatest_of(a, b, c) == b || greatest_of(a, b, c) == c,
{
}

} // verus!
