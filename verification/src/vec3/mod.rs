//! Points and directions in space: three numbers, compared and selected
//! component by component.

pub mod color;

use crate::scalar::Scalar;
use vstd::prelude::*;

verus! {

/// The pattern of `1e-8`, below which a component counts as zero.
pub const EPSILON_BITS: u64 = 0x3E45_798E_E230_8C3A;

/// A vector of three numbers.
#[derive(Clone, Copy, Debug)]
pub struct Vec3 {
    pub x: Scalar,
    pub y: Scalar,
    pub z: Scalar,
}

pub type Point3 = Vec3;

impl Vec3 {
    /// Whether no component is a NaN.
    pub open spec fn is_number(self) -> bool {
        !self.x.nan() && !self.y.nan() && !self.z.nan()
    }

    /// Whether a component is smaller in size than `1e-8`.
    pub open spec fn tiny(s: Scalar) -> bool {
        !s.nan() && s.magnitude() < EPSILON_BITS
    }

    pub open spec fn spec_min(self, rhs: Vec3) -> Vec3 {
        Vec3 { x: self.x.spec_min(rhs.x), y: self.y.spec_min(rhs.y), z: self.z.spec_min(rhs.z) }
    }

    pub open spec fn spec_max(self, rhs: Vec3) -> Vec3 {
        Vec3 { x: self.x.spec_max(rhs.x), y: self.y.spec_max(rhs.y), z: self.z.spec_max(rhs.z) }
    }

    pub open spec fn spec_neg(self) -> Vec3 {
        Vec3 { x: self.x.spec_neg(), y: self.y.spec_neg(), z: self.z.spec_neg() }
    }

    pub fn new(x: Scalar, y: Scalar, z: Scalar) -> (r: Vec3)
        ensures
            r == (Vec3 { x, y, z }),
    {
        Vec3 { x, y, z }
    }

    /// The vector whose three components are `s`.
    pub fn splat(s: Scalar) -> (r: Vec3)
        ensures
            r == (Vec3 { x: s, y: s, z: s }),
    {
        Vec3 { x: s, y: s, z: s }
    }

    pub fn components(self) -> (r: (Scalar, Scalar, Scalar))
        ensures
            r == (self.x, self.y, self.z),
    {
        (self.x, self.y, self.z)
    }

    /// The component of an axis: 0 for x, 1 for y, 2 for z.
    pub fn component(&self, index: usize) -> (r: Scalar)
        requires
            index < 3,
        ensures
            r == if index == 0 {
                self.x
            } else if index == 1 {
                self.y
            } else {
                self.z
            },
    {
        if index == 0 {
            self.x
        } else if index == 1 {
            self.y
        } else {
            self.z
        }
    }

    /// Whether every component is smaller in size than `1e-8`.
    pub fn near_zero(self) -> (r: bool)
        ensures
            r == (Vec3::tiny(self.x) && Vec3::tiny(self.y) && Vec3::tiny(self.z)),
    {
        let epsilon = Scalar { bits: EPSILON_BITS };
        self.x.abs().lt(epsilon) && self.y.abs().lt(epsilon) && self.z.abs().lt(epsilon)
    }

    /// The vector with the sign of each component flipped.
    pub fn neg(self) -> (r: Vec3)
        ensures
            r == self.spec_neg(),
    {
        Vec3 { x: self.x.neg(), y: self.y.neg(), z: self.z.neg() }
    }

    /// The smaller component on each axis.
    pub fn min(self, rhs: Vec3) -> (r: Vec3)
        ensures
            r == self.spec_min(rhs),
    {
        Vec3 { x: self.x.min(rhs.x), y: self.y.min(rhs.y), z: self.z.min(rhs.z) }
    }

    /// The larger component on each axis.
    pub fn max(self, rhs: Vec3) -> (r: Vec3)
        ensures
            r == self.spec_max(rhs),
    {
        Vec3 { x: self.x.max(rhs.x), y: self.y.max(rhs.y), z: self.z.max(rhs.z) }
    }

    /// The smallest and the largest of the three components.
    pub fn min_max_coords(self) -> (r: (Scalar, Scalar))
        ensures
            r.0 == self.x.spec_min(self.y).spec_min(self.z),
            r.1 == self.x.spec_max(self.y).spec_max(self.z),
    {
        (self.x.min(self.y).min(self.z), self.x.max(self.y).max(self.z))
    }
}

} // verus!
