//! Colours: three channels, and their cast to bytes.

use crate::scalar::Scalar;
use vstd::prelude::*;

verus! {

/// The pattern of the number by which a channel between 0 and 1 is scaled
/// before it is cast to a byte: 256, the nearest number to a hair under 256.
pub const MAX_PIXEL: u64 = 0x4070_0000_0000_0000;

/// The pattern of `1e-8`, below which a channel counts as zero.
pub const EPSILON_BITS: u64 = 0x3E45_798E_E230_8C3A;

/// A colour by its red, green and blue channels.
#[derive(Clone, Copy, Debug)]
pub struct Color {
    pub r: Scalar,
    pub g: Scalar,
    pub b: Scalar,
}

pub type Colour = Color;

impl Color {
    /// Whether a channel is smaller in size than `1e-8`.
    pub open spec fn tiny(s: Scalar) -> bool {
        !s.nan() && s.magnitude() < EPSILON_BITS
    }

    pub fn new(r: Scalar, g: Scalar, b: Scalar) -> (c: Color)
        ensures
            c == (Color { r, g, b }),
    {
        Color { r, g, b }
    }

    /// White: one in every channel.
    pub fn white() -> (c: Color)
        ensures
            c.r.bits == crate::scalar::ONE_BITS,
            c.g.bits == crate::scalar::ONE_BITS,
            c.b.bits == crate::scalar::ONE_BITS,
    {
        Color { r: Scalar::one(), g: Scalar::one(), b: Scalar::one() }
    }

    /// Black: zero in every channel.
    pub fn black() -> (c: Color)
        ensures
            c.r.bits == 0,
            c.g.bits == 0,
            c.b.bits == 0,
    {
        Color { r: Scalar::zero(), g: Scalar::zero(), b: Scalar::zero() }
    }

    pub fn red(self) -> (r: Scalar)
        ensures
            r == self.r,
    {
        self.r
    }

    pub fn green(self) -> (r: Scalar)
        ensures
            r == self.g,
    {
        self.g
    }

    pub fn blue(self) -> (r: Scalar)
        ensures
            r == self.b,
    {
        self.b
    }

    pub fn components(self) -> (r: (Scalar, Scalar, Scalar))
        ensures
            r == (self.r, self.g, self.b),
    {
        (self.r, self.g, self.b)
    }

    /// The three channels as bytes: each cut down to a whole number between 0
    /// and 255. The caller has scaled the channels to that range.
    pub fn as_bytes(&self) -> (r: [u8; 3])
        ensures
            r@.len() == 3,
            r@[0] == self.r.spec_truncate(0, 255),
            r@[1] == self.g.spec_truncate(0, 255),
            r@[2] == self.b.spec_truncate(0, 255),
    {
        let r: u64 = self.r.truncate(0, 255);
        let g: u64 = self.g.truncate(0, 255);
        let b: u64 = self.b.truncate(0, 255);
        [r as u8, g as u8, b as u8]
    }

    /// Whether every channel is smaller in size than `1e-8`.
    pub fn near_zero(self) -> (r: bool)
        ensures
            r == (Color::tiny(self.r) && Color::tiny(self.g) && Color::tiny(self.b)),
    {
        let epsilon = Scalar { bits: EPSILON_BITS };
        self.r.abs().lt(epsilon) && self.g.abs().lt(epsilon) && self.b.abs().lt(epsilon)
    }

    /// The smaller value in each channel.
    pub fn min(self, rhs: Color) -> (c: Color)
        ensures
            c.r == self.r.spec_min(rhs.r),
            c.g == self.g.spec_min(rhs.g),
            c.b == self.b.spec_min(rhs.b),
    {
        Color { r: self.r.min(rhs.r), g: self.g.min(rhs.g), b: self.b.min(rhs.b) }
    }

    /// The larger value in each channel.
    pub fn max(self, rhs: Color) -> (c: Color)
        ensures
            c.r == self.r.spec_max(rhs.r),
            c.g == self.g.spec_max(rhs.g),
            c.b == self.b.spec_max(rhs.b),
    {
        Color { r: self.r.max(rhs.r), g: self.g.max(rhs.g), b: self.b.max(rhs.b) }
    }
}

} // verus!
