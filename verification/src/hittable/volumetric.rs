//! The decisions of the passage of a ray through a ball of fog.

use crate::scalar::Scalar;
use vstd::prelude::*;

verus! {

/// The pattern of `1e-8`: a discriminant below it is a ray that only grazes
/// the ball.
pub const GRAZING_BITS: u64 = 0x3E45_798E_E230_8C3A;

/// Whether the ray passes the ball by or only grazes it: the discriminant of
/// the quadratic is below `1e-8`.
pub fn grazes(discriminant: Scalar) -> (r: bool)
    ensures
        r == discriminant.spec_lt(Scalar { bits: GRAZING_BITS }),
{
    discriminant.lt(Scalar { bits: GRAZING_BITS })
}

/// The part of the chord that lies within the bounds.
///
/// `near` and `far` are the times at which the ray enters and leaves the ball.
/// There is no such part where the ray enters after `t_max` or leaves before
/// `t_min`; else the part starts at the entry, or at `t_min` where the ray
/// entered before, and ends where the ray leaves.
pub fn clip_chord(near: Scalar, far: Scalar, t_min: Scalar, t_max: Scalar) -> (chord: Option<
    (Scalar, Scalar),
>)
    ensures
        chord == if t_max.spec_lt(near) || far.spec_lt(t_min) {
            None::<(Scalar, Scalar)>
        } else if near.spec_lt(t_min) {
            Some((t_min, far))
        } else {
            Some((near, far))
        },
{
    if near.gt(t_max) {
        None
    } else if far.lt(t_min) {
        None
    } else if near.lt(t_min) {
        Some((t_min, far))
    } else {
        Some((near, far))
    }
}

/// Whether the fog scatters the ray: the draw, scaled by the square of the
/// radius, is not above the chance of a hit, scaled by the square of the
/// density.
pub fn scatters(scaled_draw: Scalar, scaled_chance: Scalar) -> (r: bool)
    ensures
        r == scaled_draw.spec_le(scaled_chance),
{
    scaled_draw.le(scaled_chance)
}

} // verus!
