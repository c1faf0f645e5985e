//! The decisions of the ray/triangle intersection.

use crate::hittable::sphere::in_range;
use crate::scalar::Scalar;
use vstd::prelude::*;

verus! {

/// The pattern of `1e-8`: a determinant smaller in size counts as zero.
pub const PARALLEL_BITS: u64 = 0x3E45_798E_E230_8C3A;

/// Whether the ray runs so nearly along the plane of the surface that no hit
/// is looked for: the determinant is smaller in size than `1e-8`.
pub fn nearly_parallel(determinant: Scalar) -> (r: bool)
    ensures
        r == (!determinant.nan() && determinant.magnitude() < PARALLEL_BITS),
{
    determinant.abs().lt(Scalar { bits: PARALLEL_BITS })
}

/// Whether the plane coordinates `lambda` and `mu`, whose sum is `sum`, lie
/// inside the triangle, its edges left out.
pub open spec fn inside(lambda: Scalar, mu: Scalar, sum: Scalar) -> bool {
    &&& Scalar { bits: 0 }.spec_lt(lambda)
    &&& Scalar { bits: 0 }.spec_lt(mu)
    &&& sum.spec_lt(Scalar { bits: crate::scalar::ONE_BITS })
}

/// Whether the ray hits the triangle: the time lies within the bounds, and the
/// plane coordinates of the point, `lambda` and `mu` with the sum `sum`, lie
/// strictly inside the triangle.
pub fn accepts(
    time: Scalar,
    lambda: Scalar,
    mu: Scalar,
    sum: Scalar,
    t_min: Scalar,
    t_max: Scalar,
) -> (r: bool)
    ensures
        r == (in_range(time, t_min, t_max) && inside(lambda, mu, sum)),
{
    let zero = Scalar::zero();
    t_min.le(time) && time.le(t_max) && lambda.gt(zero) && mu.gt(zero) && sum.lt(Scalar::one())
}

} // verus!
