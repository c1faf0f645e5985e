//! The bookkeeping of a render: which pixel a task works on, and the hash that
//! jitters its samples.

use vstd::prelude::*;

verus! {

pub const M1: u32 = 1597334677;

pub const M2: u32 = 3812015801;

pub const M3: u32 = 2741598923;

/// The hash of three numbers: each multiplied by a constant of its own, the
/// three products combined by exclusive or, and the result multiplied by the
/// first constant; every product keeps its low 32 bits.
pub open spec fn hashed(x: u32, y: u32, z: u32) -> u32 {
    u32::wrapping_mul(
        u32::wrapping_mul(x, M1) ^ u32::wrapping_mul(y, M2) ^ u32::wrapping_mul(z, M3),
        M1,
    )
}

/// A quick hash of a pixel and a sample number, in place of a draw from the
/// generator. Divided by `u32::MAX` it is a number from 0 to 1.
pub fn hash_fast(x: u32, y: u32, z: u32) -> (n: u32)
    ensures
        n == hashed(x, y, z),
{
    let a: u32 = x.wrapping_mul(M1);
    let b: u32 = y.wrapping_mul(M2);
    let c: u32 = z.wrapping_mul(M3);
    (a ^ b ^ c).wrapping_mul(M1)
}

/// The column and the row of the pixel that comes at place `index` when the
/// picture is written row by row from the top. Rows are counted from the
/// bottom, so the first pixels are those of row `image_height - 1`. There is
/// no such pixel at or after place `image_width * image_height`.
pub fn pixel_of(index: u32, image_width: u32, image_height: u32) -> (pixel: Option<(u32, u32)>)
    ensures
        pixel is Some <==> index < image_width * image_height,
        pixel is Some ==> {
            let (i, j) = pixel->0;
            &&& i < image_width
            &&& j < image_height
            &&& i == index % image_width
            &&& j == image_height - 1 - index / image_width
            &&& index == (image_height - 1 - j) * image_width + i
        },
{
    if image_width == 0 {
        assert(image_width * image_height == 0);
        return None;
    }
    let row_from_top: u32 = index / image_width;
    proof {
        vstd::arithmetic::div_mod::lemma_fundamental_div_mod(index as int, image_width as int);
        if row_from_top < image_height {
            assert(image_width * (row_from_top + 1) <= image_width * image_height)
                by (nonlinear_arith)
                requires
                    row_from_top + 1 <= image_height,
                    image_width >= 0,
            ;
        } else {
            assert(image_width * row_from_top >= image_width * image_height) by (nonlinear_arith)
                requires
                    row_from_top >= image_height,
                    image_width >= 0,
            ;
        }
        assert(image_width * (row_from_top + 1) == image_width * row_from_top + image_width)
            by (nonlinear_arith);
        assert(row_from_top * image_width == image_width * row_from_top) by (nonlinear_arith);
    }
    if row_from_top >= image_height {
        return None;
    }
    Some((index % image_width, image_height - 1 - row_from_top))
}

} // verus!
