//! The decision between the glossy and the diffuse bounce off plastic.

use crate::scalar::Scalar;
use vstd::prelude::*;

verus! {

/// Whether the bounce is the glossy one: the reflectance of the surface is
/// above the draw.
pub fn glossy(reflectance: Scalar, draw: Scalar) -> (r: bool)
    ensures
        r == draw.spec_lt(reflectance),
{
    reflectance.gt(draw)
}

} // verus!
