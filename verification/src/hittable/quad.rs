//! The decisions of the ray/parallelogram intersection.

use crate::hittable::sphere::in_range;
use crate::scalar::Scalar;
use vstd::prelude::*;

verus! {

/// Whether the plane coordinates `lambda` and `mu` lie inside the unit square,
/// its edges left out.
pub open spec fn inside(lambda: Scalar, mu: Scalar) -> bool {
    &&& Scalar { bits: 0 }.spec_lt(lambda)
    &&& lambda.spec_lt(Scalar { bits: crate::scalar::ONE_BITS })
    &&& Scalar { bits: 0 }.spec_lt(mu)
    &&& mu.spec_lt(Scalar { bits: crate::scalar::ONE_BITS })
}

/// Whether the ray hits the parallelogram: the time lies within the bounds,
/// and each of the plane coordinates of the point lies strictly between 0 and
/// 1, whatever the other is.
pub fn accepts(time: Scalar, lambda: Scalar, mu: Scalar, t_min: Scalar, t_max: Scalar) -> (r: bool)
    ensures
        r == (in_range(time, t_min, t_max) && inside(lambda, mu)),
{
    let zero = Scalar::zero();
    let one = Scalar::one();
    t_min.le(time) && time.le(t_max) && lambda.gt(zero) && lambda.lt(one) && mu.gt(zero) && mu.lt(
        one,
    )
}

} // verus!
