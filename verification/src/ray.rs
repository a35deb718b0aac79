//! Rays: a point of departure and a direction.

use vstd::prelude::*;
use crate::math::{Point, Vector};

verus! {

/// A half-line from `origin` along `direction`.
#[derive(Debug, Clone, Copy)]
pub struct Ray {
    pub origin: Point,
    pub direction: Vector,
}

impl Ray {
    pub fn new(origin: Point, direction: Vector) -> (ray: Ray)
        ensures
            ray == (Ray { origin, direction }),
    {
        Ray { origin, direction }
    }
}

} // verus!
