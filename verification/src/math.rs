//! Single-precision numbers as the library knows them, and points and
//! vectors of three of them.
//!
//! The library never computes with these numbers: it orders them. A number
//! is held by its IEEE 754 bit pattern, from which its place in the order of
//! the real line follows by integer arithmetic alone.

use vstd::prelude::*;

verus! {

/// The bit that holds the sign.
pub const SIGN_BIT: u32 = 0x8000_0000;

/// The bit pattern of positive infinity: the largest magnitude that is a
/// number.
pub const INFINITY_BITS: u32 = 0x7f80_0000;

/// A single-precision number, held by its IEEE 754 bit pattern.
#[derive(Debug, Clone, Copy)]
pub struct Scalar {
    pub bits: u32,
}

impl Scalar {
    /// The bit pattern without its sign.
    pub open spec fn magnitude(self) -> int {
        if self.bits >= SIGN_BIT {
            self.bits - SIGN_BIT
        } else {
            self.bits as int
        }
    }

    /// Whether the sign bit is set.
    pub open spec fn negative(self) -> bool {
        self.bits >= SIGN_BIT
    }

    /// Whether the pattern is not a number.
    pub open spec fn is_nan(self) -> bool {
        self.magnitude() > INFINITY_BITS
    }

    /// The place of the number on the real line: patterns that are numbers
    /// compare as their ranks do, and both zeros have rank zero.
    pub open spec fn rank(self) -> int {
        if self.negative() {
            -self.magnitude()
        } else {
            self.magnitude()
        }
    }

    /// `self < other` as numbers. False when either is not a number.
    pub open spec fn lt_spec(self, other: Scalar) -> bool {
        !self.is_nan() && !other.is_nan() && self.rank() < other.rank()
    }

    /// `self <= other` as numbers. False when either is not a number.
    pub open spec fn le_spec(self, other: Scalar) -> bool {
        !self.is_nan() && !other.is_nan() && self.rank() <= other.rank()
    }

    /// `self == other` as numbers. False when either is not a number.
    pub open spec fn eq_spec(self, other: Scalar) -> bool {
        !self.is_nan() && !other.is_nan() && self.rank() == other.rank()
    }

    /// The number of the given bit pattern.
    pub fn from_bits(bits: u32) -> (scalar: Scalar)
        ensures
            scalar.bits == bits,
    {
        Scalar { bits }
    }

    /// The bit pattern of the number.
    pub fn to_bits(self) -> (bits: u32)
        ensures
            bits == self.bits,
    {
        self.bits
    }

    /// Positive zero.
    pub fn zero() -> (scalar: Scalar)
        ensures
            scalar.bits == 0,
            !scalar.is_nan(),
            scalar.rank() == 0,
    {
        Scalar { bits: 0 }
    }

    /// Whether the pattern is not a number.
    pub fn nan(self) -> (r: bool)
        ensures
            r == self.is_nan(),
    {
        let magnitude: u32 = if self.bits >= SIGN_BIT {
            self.bits - SIGN_BIT
        } else {
            self.bits
        };
        magnitude > INFINITY_BITS
    }

    /// The place of the number on the real line.
    pub fn place(self) -> (r: i64)
        ensures
            r == self.rank(),
    {
        if self.bits >= SIGN_BIT {
            -((self.bits - SIGN_BIT) as i64)
        } else {
            self.bits as i64
        }
    }

    /// `self < other` as numbers.
    pub fn lt(self, other: Scalar) -> (r: bool)
        ensures
            r == self.lt_spec(other),
    {
        !self.nan() && !other.nan() && self.place() < other.place()
    }

    /// `self <= other` as numbers.
    pub fn le(self, other: Scalar) -> (r: bool)
        ensures
            r == self.le_spec(other),
    {
        !self.nan() && !other.nan() && self.place() <= other.place()
    }

    /// `self > other` as numbers.
    pub fn gt(self, other: Scalar) -> (r: bool)
        ensures
            r == other.lt_spec(self),
    {
        other.lt(self)
    }

    /// `self >= other` as numbers.
    pub fn ge(self, other: Scalar) -> (r: bool)
        ensures
            r == other.le_spec(self),
    {
        other.le(self)
    }

    /// `self == other` as numbers: the two zeros are equal, and what is not
    /// a number equals nothing.
    pub fn equals(self, other: Scalar) -> (r: bool)
        ensures
            r == self.eq_spec(other),
    {
        !self.nan() && !other.nan() && self.place() == other.place()
    }
}

/// A position in space.
#[derive(Debug, Clone, Copy)]
pub struct Point {
    pub x: Scalar,
    pub y: Scalar,
    pub z: Scalar,
}

impl Point {
    pub fn new(x: Scalar, y: Scalar, z: Scalar) -> (point: Point)
        ensures
            point == (Point { x, y, z }),
    {
        Point { x, y, z }
    }

    /// The point whose three coordinates are zero.
    pub fn origin() -> (point: Point)
        ensures
            point.x.bits == 0,
            point.y.bits == 0,
            point.z.bits == 0,
    {
        Point::new(Scalar::zero(), Scalar::zero(), Scalar::zero())
    }

    /// The displacement from the origin to this point.
    pub open spec fn as_vector_spec(self) -> Vector {
        Vector { x: self.x, y: self.y, z: self.z }
    }

    /// The displacement from the origin to this point.
    #[verifier::when_used_as_spec(as_vector_spec)]
    pub fn as_vector(self) -> (vector: Vector)
        ensures
            vector == self.as_vector_spec(),
    {
        Vector { x: self.x, y: self.y, z: self.z }
    }
}

/// A displacement in space.
#[derive(Debug, Clone, Copy)]
pub struct Vector {
    pub x: Scalar,
    pub y: Scalar,
    pub z: Scalar,
}

impl Vector {
    pub fn new(x: Scalar, y: Scalar, z: Scalar) -> (vector: Vector)
        ensures
            vector == (Vector { x, y, z }),
    {
        Vector { x, y, z }
    }

    /// The vector whose three components are zero.
    pub fn zero() -> (vector: Vector)
        ensures
            vector.x.bits == 0,
            vector.y.bits == 0,
            vector.z.bits == 0,
    {
        Vector::new(Scalar::zero(), Scalar::zero(), Scalar::zero())
    }

    /// No component is not a number.
    pub open spec fn is_numeric(self) -> bool {
        !self.x.is_nan() && !self.y.is_nan() && !self.z.is_nan()
    }

    /// Every component is at most the same component of `other`.
    pub open spec fn le_each(self, other: Vector) -> bool {
        self.x.le_spec(other.x) && self.y.le_spec(other.y) && self.z.le_spec(other.z)
    }

    /// The component on an axis: 0 for x, 1 for y, anything else for z.
    pub open spec fn on_axis(self, axis: u32) -> Scalar {
        if axis == 0 {
            self.x
        } else if axis == 1 {
            self.y
        } else {
            self.z
        }
    }

    /// The component on an axis: 0 for x, 1 for y, anything else for z.
    pub fn component(self, axis: u32) -> (scalar: Scalar)
        ensures
            scalar == self.on_axis(axis),
    {
        if axis == 0 {
            self.x
        } else if axis == 1 {
            self.y
        } else {
            self.z
        }
    }
}

} // verus!
