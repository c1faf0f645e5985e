//! Morton (Z-order) keys: three grid coordinates of 42 bits each, interleaved
//! bit by bit into one key of 126 bits, and the search for the place where a
//! sorted run of keys first changes its leading bit.

use crate::scalar::Scalar;
use crate::vec3::Vec3;
use vstd::arithmetic::div_mod::lemma_div_denominator;
use vstd::arithmetic::power2::{lemma_pow2_pos, lemma_pow2_unfold, pow2};
use vstd::bits::lemma_u128_shr_is_div;
use vstd::prelude::*;

verus! {

/// The number of cells along each axis of the grid: 2^42.
pub const GRID_SIZE: u64 = 0x400_0000_0000;

/// `x` with two zero bits put in after each of its bits: bit `i` of `x` is bit
/// `3 i` of the result.
pub open spec fn spread(x: nat) -> nat
    decreases x,
{
    if x == 0 {
        0
    } else {
        x % 2 + 8 * spread(x / 2)
    }
}

/// The key of the grid cell `(x, y, z)`: from the top, one bit of `x`, one of
/// `y`, one of `z`, and so on down.
pub open spec fn interleaved(x: nat, y: nat, z: nat) -> nat {
    4 * spread(x) + 2 * spread(y) + spread(z)
}

/// The shift-and-mask cascade that spreads the low 42 bits of `x`.
pub open spec fn spread_cascade(x: u128) -> u128 {
    let a = x & 0x3ffffffffff;
    let b = (a | a << 64) & 0x3ff0000000000000000ffffffff;
    let c = (b | b << 32) & 0x3ff00000000ffff00000000ffff;
    let d = (c | c << 16) & 0x30000ff0000ff0000ff0000ff0000ff;
    let e = (d | d << 8) & 0x300f00f00f00f00f00f00f00f00f00f;
    let f = (e | e << 4) & 0x30c30c30c30c30c30c30c30c30c30c3;
    (f | f << 2) & 0x9249249249249249249249249249249
}

proof fn lemma_cascade_step(m: u128)
    by (bit_vector)
    requires
        m < 0x400_0000_0000,
    ensures
        spread_cascade(m) == (m & 1) | (spread_cascade(m >> 1) << 3),
        (m & 1) == m % 2,
        (m >> 1) == m / 2,
        spread_cascade(m >> 1) < 0x2000_0000_0000_0000_0000_0000_0000_0000,
        (m & 1) | (spread_cascade(m >> 1) << 3) == (m & 1) + 8 * spread_cascade(m >> 1),
{
}

proof fn lemma_cascade_mask(x: u128)
    by (bit_vector)
    ensures
        spread_cascade(x) == spread_cascade(x & 0x3ffffffffff),
        (x & 0x3ffffffffff) == x % 0x400_0000_0000,
        spread_cascade(0) == 0,
        spread_cascade(x) < 0x4000_0000_0000_0000_0000_0000_0000_0000,
{
}

proof fn lemma_cascade_spreads(m: u128)
    requires
        m < 0x400_0000_0000,
    ensures
        spread_cascade(m) == spread(m as nat),
    decreases m,
{
    if m == 0 {
        lemma_cascade_mask(0);
    } else {
        lemma_cascade_step(m);
        lemma_cascade_spreads(m / 2);
    }
}

/// Spreads the low 42 bits of `x` over 126 bits, two zero bits after each; the
/// bits of `x` above them are dropped.
pub fn expand_to_126_bits(x: u128) -> (r: u128)
    ensures
        r == spread((x % 0x400_0000_0000) as nat),
        r < 0x4000_0000_0000_0000_0000_0000_0000_0000,
{
    let a: u128 = x & 0x3ffffffffff;
    let b: u128 = (a | a << 64) & 0x3ff0000000000000000ffffffff;
    let c: u128 = (b | b << 32) & 0x3ff00000000ffff00000000ffff;
    let d: u128 = (c | c << 16) & 0x30000ff0000ff0000ff0000ff0000ff;
    let e: u128 = (d | d << 8) & 0x300f00f00f00f00f00f00f00f00f00f;
    let f: u128 = (e | e << 4) & 0x30c30c30c30c30c30c30c30c30c30c3;
    let r: u128 = (f | f << 2) & 0x9249249249249249249249249249249;
    proof {
        assert(r == spread_cascade(x));
        lemma_cascade_mask(x);
        lemma_cascade_spreads(x % 0x400_0000_0000);
    }
    r
}

proof fn lemma_join_axes(xx: u128, yy: u128, zz: u128)
    by (bit_vector)
    requires
        xx & 0x9249249249249249249249249249249 == xx,
        yy & 0x9249249249249249249249249249249 == yy,
        zz & 0x9249249249249249249249249249249 == zz,
    ensures
        (xx << 2) | (yy << 1) | zz == 4 * xx + 2 * yy + zz,
        4 * xx + 2 * yy + zz < 0x4000_0000_0000_0000_0000_0000_0000_0000,
{
}

proof fn lemma_cascade_sparse(x: u128)
    by (bit_vector)
    ensures
        spread_cascade(x) & 0x9249249249249249249249249249249 == spread_cascade(x),
{
}

/// The Morton key of the grid cell `(x, y, z)`; of each coordinate the low 42
/// bits count.
pub fn interleave(x: u64, y: u64, z: u64) -> (code: u128)
    ensures
        code == interleaved((x % GRID_SIZE) as nat, (y % GRID_SIZE) as nat, (z % GRID_SIZE) as nat),
        code < 0x4000_0000_0000_0000_0000_0000_0000_0000,
{
    let xx: u128 = expand_to_126_bits(x as u128);
    let yy: u128 = expand_to_126_bits(y as u128);
    let zz: u128 = expand_to_126_bits(z as u128);
    proof {
        lemma_cascade_mask(x as u128);
        lemma_cascade_mask(y as u128);
        lemma_cascade_mask(z as u128);
        lemma_cascade_spreads((x as u128) % 0x400_0000_0000);
        lemma_cascade_spreads((y as u128) % 0x400_0000_0000);
        lemma_cascade_spreads((z as u128) % 0x400_0000_0000);
        lemma_cascade_sparse(x as u128);
        lemma_cascade_sparse(y as u128);
        lemma_cascade_sparse(z as u128);
        lemma_join_axes(xx, yy, zz);
    }
    (xx << 2) | (yy << 1) | zz
}

/// The grid cell of a coordinate: the whole part of the coordinate times 2^42,
/// kept between 0 and 2^42 - 1. A NaN lies in cell 0.
pub open spec fn cell(coordinate: Scalar) -> nat {
    coordinate.spec_truncate(42, (GRID_SIZE - 1) as u64) as nat
}

/// The Morton key of a point of the unit cube: the key of its grid cell. A
/// point outside the cube has the key of the nearest cell of the grid.
pub fn morton_code(point: Vec3) -> (code: u128)
    ensures
        code == interleaved(cell(point.x), cell(point.y), cell(point.z)),
        code < 0x4000_0000_0000_0000_0000_0000_0000_0000,
{
    let x: u64 = point.x.truncate(42, GRID_SIZE - 1);
    let y: u64 = point.y.truncate(42, GRID_SIZE - 1);
    let z: u64 = point.z.truncate(42, GRID_SIZE - 1);
    interleave(x, y, z)
}

/// The number of zero bits above the highest set bit of `x`; 128 for zero.
pub open spec fn leading_zeros(x: u128) -> nat
    decreases x,
{
    if x == 0 {
        128
    } else {
        (leading_zeros(x / 2) - 1) as nat
    }
}

/// `u128::leading_zeros` of std: the count of zero bits in front of the
/// highest set bit of the 128-bit pattern, which is 128 for zero.
pub assume_specification[ u128::leading_zeros ](x: u128) -> (r: u32)
    ensures
        r == leading_zeros(x),
;

/// The number of leading bits in which two keys agree.
pub open spec fn common_prefix(a: u128, b: u128) -> nat {
    leading_zeros(a ^ b)
}

/// The keys of a list of keyed items, in the order of the list.
pub open spec fn codes<A, B>(list: Seq<(A, B, u128)>) -> Seq<u128> {
    Seq::new(list.len(), |i: int| list[i].2)
}

/// Whether the keys ascend.
pub open spec fn ascending(keys: Seq<u128>) -> bool {
    forall|i: int, j: int| 0 <= i <= j < keys.len() ==> keys[i] <= keys[j]
}

/// Whether `split` parts `keys` where their leading bits first change: the
/// keys before it agree with the first key in more leading bits than the
/// first and the last key do, and the keys from it on do not.
pub open spec fn is_boundary(keys: Seq<u128>, split: int) -> bool {
    &&& 0 < split < keys.len()
    &&& forall|i: int|
        0 <= i < split ==> common_prefix(keys[0], #[trigger] keys[i]) > common_prefix(
            keys[0],
            keys[keys.len() - 1],
        )
    &&& forall|i: int|
        split <= i < keys.len() ==> common_prefix(keys[0], #[trigger] keys[i]) <= common_prefix(
            keys[0],
            keys[keys.len() - 1],
        )
}

proof fn lemma_shift_facts(x: u128, s: u128)
    by (bit_vector)
    requires
        1 <= s < 128,
    ensures
        x >> s == (x / 2) >> ((s - 1) as u128),
        (x / 2) >> 127u128 == 0,
        x >> 0u128 == x,
{
}

proof fn lemma_leading_zeros_bound(x: u128)
    ensures
        leading_zeros(x) <= 128,
        x != 0 ==> leading_zeros(x) < 128,
    decreases x,
{
    if x != 0 {
        lemma_leading_zeros_bound(x / 2);
        lemma_leading_zeros_shift(x / 2, 127);
        lemma_shift_facts(x, 1);
    }
}

/// `x` has at least `128 - s` leading zeros exactly when nothing of it is left
/// after a shift by `s`.
proof fn lemma_leading_zeros_shift(x: u128, s: u128)
    requires
        s < 128,
    ensures
        (x >> s == 0) <==> leading_zeros(x) >= 128 - s,
    decreases x,
{
    if x == 0 {
        assert(0u128 >> s == 0) by (bit_vector);
    } else {
        lemma_leading_zeros_shift(x / 2, 127);
        if s == 0 {
            lemma_shift_facts(x, 1);
            lemma_leading_zeros_bound(x / 2);
        } else {
            lemma_shift_facts(x, s);
            lemma_leading_zeros_shift(x / 2, (s - 1) as u128);
        }
    }
}

proof fn lemma_between(a: u128, b: u128, c: u128, s: u128)
    by (bit_vector)
    requires
        a <= b <= c,
        s < 128,
    ensures
        ((a ^ c) >> s == 0) ==> ((a ^ b) >> s == 0),
{
}

proof fn lemma_xor_tells_apart(a: u128, c: u128)
    by (bit_vector)
    ensures
        (a ^ a) == 0,
        (a != c) ==> (a ^ c) != 0,
{
}

/// Among ascending keys, a key between two others shares with the lower one
/// at least the leading bits that the two share.
proof fn lemma_prefix_of_between(a: u128, b: u128, c: u128)
    requires
        a <= b <= c,
    ensures
        common_prefix(a, b) >= common_prefix(a, c),
{
    let k = common_prefix(a, c);
    lemma_leading_zeros_bound(a ^ c);
    if k > 0 {
        let s = (128 - k) as u128;
        lemma_leading_zeros_shift(a ^ c, s);
        lemma_between(a, b, c, s);
        lemma_leading_zeros_shift(a ^ b, s);
    }
}

/// The index at which a run of keyed items is parted in two.
///
/// Where the first and the last key are equal, the midpoint. Otherwise, for
/// ascending keys, the boundary of the highest bit in which the first and the
/// last key differ: see [`is_boundary`]. The result never lies outside the
/// list, and for two items or more it leaves an item on each side.
pub fn find_split<A, B>(list: &[(A, B, u128)]) -> (split: usize)
    requires
        list@.len() > 0,
    ensures
        list@.len() >= 2 ==> 0 < split < list@.len(),
        list@.len() == 1 ==> split == 0,
        list@[0].2 == list@[list@.len() - 1].2 ==> split == list@.len() / 2,
        list@[0].2 != list@[list@.len() - 1].2 && ascending(codes(list@)) ==> is_boundary(
            codes(list@),
            split as int,
        ),
{
    let n: usize = list.len();
    let first_code: u128 = list[0].2;
    let last_code: u128 = list[n - 1].2;

    if first_code == last_code {
        return n / 2;
    }
    let common: u32 = (first_code ^ last_code).leading_zeros();
    let ghost keys = codes(list@);
    let ghost sorted = ascending(keys);
    proof {
        lemma_xor_tells_apart(first_code, last_code);
        lemma_leading_zeros_bound(first_code ^ last_code);
        assert(keys[0] == first_code);
        assert(keys[n - 1] == last_code);
    }

    let mut split: usize = 0;
    let mut step: usize = n - 1;
    loop
        invariant
            n == list@.len(),
            n >= 2,
            keys == codes(list@),
            sorted == ascending(keys),
            first_code == list@[0].2,
            last_code == list@[n - 1].2,
            common == common_prefix(first_code, last_code),
            common < 128,
            1 <= step <= n - 1,
            split + 1 < n,
            common_prefix(first_code, keys[split as int]) > common,
            sorted ==> forall|i: int|
                split + step <= i < n ==> common_prefix(first_code, #[trigger] keys[i]) <= common,
        ensures
            step == 1,
        decreases step,
    {
        step = (step + 1) / 2;
        if step < n - split {
            let new_split: usize = split + step;
            let split_code: u128 = list[new_split].2;
            let prefix: u32 = (first_code ^ split_code).leading_zeros();
            assert(keys[new_split as int] == split_code);
            if prefix > common {
                split = new_split;
            } else {
                proof {
                    if sorted {
                        assert forall|i: int| new_split <= i < n implies common_prefix(
                            first_code,
                            #[trigger] keys[i],
                        ) <= common by {
                            assert(keys[0] <= keys[new_split as int] <= keys[i]);
                            lemma_prefix_of_between(first_code, split_code, keys[i]);
                        }
                    }
                }
            }
        }
        if step <= 1 {
            break ;
        }
    }
    proof {
        if sorted {
            assert forall|i: int| 0 <= i < split + 1 implies common_prefix(
                keys[0],
                #[trigger] keys[i],
            ) > common by {
                assert(keys[0] <= keys[i] <= keys[split as int]);
                lemma_prefix_of_between(first_code, keys[i], keys[split as int]);
            }
        }
    }
    split + 1
}

/// The grid cell that a key names: the bits of the key dealt out in turn to
/// z, y and x, from the lowest bit up.
pub open spec fn cell_of(code: nat) -> (nat, nat, nat)
    decreases code,
{
    if code == 0 {
        (0, 0, 0)
    } else {
        let (x, y, z) = cell_of(code / 8);
        let digit = code % 8;
        (2 * x + digit / 4, 2 * y + (digit / 2) % 2, 2 * z + digit % 2)
    }
}

/// The lowest three bits of a key are the lowest bits of the coordinates, and
/// the rest of the key is the key of the halved coordinates.
proof fn lemma_interleaved_unfolds(x: nat, y: nat, z: nat)
    ensures
        interleaved(x, y, z) % 8 == 4 * (x % 2) + 2 * (y % 2) + z % 2,
        interleaved(x, y, z) / 8 == interleaved(x / 2, y / 2, z / 2),
{
    assert(spread(x) == x % 2 + 8 * spread(x / 2));
    assert(spread(y) == y % 2 + 8 * spread(y / 2));
    assert(spread(z) == z % 2 + 8 * spread(z / 2));
}

/// A key names the cell that it was made of: no two cells of the grid share a
/// key.
pub proof fn law_key_names_its_cell(x: nat, y: nat, z: nat)
    ensures
        cell_of(interleaved(x, y, z)) == (x, y, z),
    decreases x + y + z,
{
    lemma_interleaved_unfolds(x, y, z);
    if x + y + z > 0 {
        law_key_names_its_cell(x / 2, y / 2, z / 2);
        if interleaved(x, y, z) == 0 {
            assert(interleaved(x / 2, y / 2, z / 2) == 0);
            assert(cell_of(0) == (0nat, 0nat, 0nat));
        }
    }
}

/// Two cells that lie in one block of `2^level` cells a side have keys that
/// agree in all but their lowest `3 * level` bits.
pub proof fn law_block_mates_share_a_prefix(a: (nat, nat, nat), b: (nat, nat, nat), level: nat)
    requires
        a.0 / pow2(level) == b.0 / pow2(level),
        a.1 / pow2(level) == b.1 / pow2(level),
        a.2 / pow2(level) == b.2 / pow2(level),
    ensures
        interleaved(a.0, a.1, a.2) / pow2(3 * level) == interleaved(b.0, b.1, b.2) / pow2(
            3 * level,
        ),
    decreases level,
{
    vstd::arithmetic::power2::lemma2_to64();
    let key_a = interleaved(a.0, a.1, a.2);
    let key_b = interleaved(b.0, b.1, b.2);
    if level == 0 {
        let one = pow2(0);
        assert(one == 1);
        assert(a.0 / one == a.0 && b.0 / one == b.0);
        assert(a.1 / one == a.1 && b.1 / one == b.1);
        assert(a.2 / one == a.2 && b.2 / one == b.2);
        assert(key_a / pow2(0) == key_a && key_b / pow2(0) == key_b);
    } else {
        let down = (level - 1) as nat;
        lemma_pow2_unfold(level);
        lemma_pow2_pos(down);
        lemma_div_denominator(a.0 as int, 2, pow2(down) as int);
        lemma_div_denominator(a.1 as int, 2, pow2(down) as int);
        lemma_div_denominator(a.2 as int, 2, pow2(down) as int);
        lemma_div_denominator(b.0 as int, 2, pow2(down) as int);
        lemma_div_denominator(b.1 as int, 2, pow2(down) as int);
        lemma_div_denominator(b.2 as int, 2, pow2(down) as int);
        law_block_mates_share_a_prefix((a.0 / 2, a.1 / 2, a.2 / 2), (b.0 / 2, b.1 / 2, b.2 / 2), down);
        lemma_interleaved_unfolds(a.0, a.1, a.2);
        lemma_interleaved_unfolds(b.0, b.1, b.2);
        lemma_pow2_pos(3 * down);
        vstd::arithmetic::power2::lemma_pow2_adds(3, 3 * down);
        assert(pow2(3 * level) == 8 * pow2(3 * down));
        lemma_div_denominator(key_a as int, 8, pow2(3 * down) as int);
        lemma_div_denominator(key_b as int, 8, pow2(3 * down) as int);
        assert(key_a / pow2(3 * level) == (key_a / 8) / pow2(3 * down));
        assert(key_b / pow2(3 * level) == (key_b / 8) / pow2(3 * down));
    }
}

proof fn lemma_halves_of_xor(a: u128, b: u128)
    by (bit_vector)
    ensures
        (a ^ b) / 2 == (a / 2) ^ (b / 2),
{
}

/// Two keys that are equal above their lowest `s` bits differ in these bits
/// only.
proof fn lemma_same_above(a: u128, b: u128, s: u128)
    requires
        s < 128,
        a >> s == b >> s,
    ensures
        (a ^ b) >> s == 0,
    decreases s,
{
    if s == 0 {
        lemma_shift_facts(a, 1);
        lemma_shift_facts(b, 1);
        lemma_shift_facts(a ^ b, 1);
        lemma_xor_tells_apart(a, b);
    } else {
        lemma_shift_facts(a, s);
        lemma_shift_facts(b, s);
        lemma_shift_facts(a ^ b, s);
        lemma_halves_of_xor(a, b);
        lemma_same_above(a / 2, b / 2, (s - 1) as u128);
    }
}

/// Two keys that agree in all but their lowest `low` bits have a common prefix
/// of at least `128 - low` bits.
proof fn lemma_agreement_is_a_common_prefix(a: u128, b: u128, low: nat)
    requires
        low < 128,
        a as nat / pow2(low) == b as nat / pow2(low),
    ensures
        common_prefix(a, b) >= 128 - low,
{
    lemma_u128_shr_is_div(a, low as u128);
    lemma_u128_shr_is_div(b, low as u128);
    lemma_same_above(a, b, low as u128);
    lemma_leading_zeros_shift(a ^ b, low as u128);
}

/// Keys keep near cells together: two cells of the grid that lie in one block
/// of `2^level` cells a side have keys with a common prefix of at least
/// `128 - 3 * level` bits, which is all of the key but its lowest `3 * level`
/// bits.
pub proof fn law_near_cells_share_a_prefix(a: (u64, u64, u64), b: (u64, u64, u64), level: nat)
    requires
        level <= 42,
        a.0 < GRID_SIZE && a.1 < GRID_SIZE && a.2 < GRID_SIZE,
        b.0 < GRID_SIZE && b.1 < GRID_SIZE && b.2 < GRID_SIZE,
        a.0 as nat / pow2(level) == b.0 as nat / pow2(level),
        a.1 as nat / pow2(level) == b.1 as nat / pow2(level),
        a.2 as nat / pow2(level) == b.2 as nat / pow2(level),
    ensures
        interleaved(a.0 as nat, a.1 as nat, a.2 as nat) < 0x4000_0000_0000_0000_0000_0000_0000_0000,
        interleaved(b.0 as nat, b.1 as nat, b.2 as nat) < 0x4000_0000_0000_0000_0000_0000_0000_0000,
        common_prefix(
            interleaved(a.0 as nat, a.1 as nat, a.2 as nat) as u128,
            interleaved(b.0 as nat, b.1 as nat, b.2 as nat) as u128,
        ) >= 128 - 3 * level,
{
    lemma_interleaved_fits(a.0, a.1, a.2);
    lemma_interleaved_fits(b.0, b.1, b.2);
    law_block_mates_share_a_prefix(
        (a.0 as nat, a.1 as nat, a.2 as nat),
        (b.0 as nat, b.1 as nat, b.2 as nat),
        level,
    );
    lemma_agreement_is_a_common_prefix(
        interleaved(a.0 as nat, a.1 as nat, a.2 as nat) as u128,
        interleaved(b.0 as nat, b.1 as nat, b.2 as nat) as u128,
        3 * level,
    );
}

/// The key of a cell of the grid has 126 bits.
proof fn lemma_interleaved_fits(x: u64, y: u64, z: u64)
    requires
        x < GRID_SIZE,
        y < GRID_SIZE,
        z < GRID_SIZE,
    ensures
        interleaved(x as nat, y as nat, z as nat) < 0x4000_0000_0000_0000_0000_0000_0000_0000,
{
    lemma_cascade_spreads(x as u128);
    lemma_cascade_spreads(y as u128);
    lemma_cascade_spreads(z as u128);
    lemma_cascade_sparse(x as u128);
    lemma_cascade_sparse(y as u128);
    lemma_cascade_sparse(z as u128);
    lemma_join_axes(spread_cascade(x as u128), spread_cascade(y as u128), spread_cascade(z as u128));
}

} // verus!
