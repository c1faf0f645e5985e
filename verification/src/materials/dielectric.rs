//! The decisions between reflection and refraction in glass.

use crate::scalar::Scalar;
use vstd::prelude::*;

verus! {

/// Whether the ray cannot be refracted and must be reflected: the refraction
/// ratio times the sine of the angle of incidence, `ratio_sine`, is above one,
/// so that Snell's law has no solution.
pub fn cannot_refract(ratio_sine: Scalar) -> (r: bool)
    ensures
        r == (Scalar { bits: crate::scalar::ONE_BITS }).spec_lt(ratio_sine),
{
    ratio_sine.gt(Scalar::one())
}

/// Whether a ray that could be refracted is reflected all the same: the
/// reflectance of the surface is above the draw.
pub fn reflects(reflectance: Scalar, draw: Scalar) -> (r: bool)
    ensures
        r == draw.spec_lt(reflectance),
{
    reflectance.gt(draw)
}

} // verus!
