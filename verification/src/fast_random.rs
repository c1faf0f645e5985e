//! SplitMix64: a generator with one word of state, advanced by a constant and
//! mixed by two multiplications.

use rand_core::{Error, RngCore};
use vstd::arithmetic::power2::pow2;
use vstd::prelude::*;

verus! {

/// The increment of the state, 2^64 divided by the golden ratio.
pub const GAMMA: u64 = 0x9E3779B97F4A7C15;

/// The state that [`SplitMix64::new_unseeded`] starts from.
pub const UNSEEDED: u64 = 0x193a6754;

/// The state that follows `state`.
pub open spec fn advance(state: u64) -> u64 {
    u64::wrapping_add(state, GAMMA)
}

/// The word that a state gives out.
pub open spec fn mix(state: u64) -> u64 {
    let a = u64::wrapping_mul(state ^ (state >> 30), 0xBF58476D1CE4E5B9);
    let b = u64::wrapping_mul(a ^ (a >> 27), 0x94D049BB133111EB);
    b ^ (b >> 31)
}

/// The state after `n` draws from `state`.
pub open spec fn advance_by(state: u64, n: nat) -> u64
    decreases n,
{
    if n == 0 {
        state
    } else {
        advance_by(advance(state), (n - 1) as nat)
    }
}

/// The word that draw number `n` from `state` gives out, counting from 0.
pub open spec fn word(state: u64, n: nat) -> u64 {
    mix(advance_by(state, n + 1))
}

/// The byte at place `place` of the stream of bytes drawn from `state`: the
/// words of the generator one after another, each with its lowest byte first.
pub open spec fn stream_byte(state: u64, place: nat) -> u8 {
    ((word(state, place / 8) as nat / pow2(8 * (place % 8))) % 256) as u8
}

/// The state from which the generator of task `task` of a run seeded with
/// `seed` starts: the word that the generator seeded with `seed` gives out
/// after `task` others.
pub open spec fn task_state(seed: u64, task: u64) -> u64 {
    mix(u64::wrapping_add(seed, u64::wrapping_mul(u64::wrapping_add(task, 1), GAMMA)))
}

/// The bytes of a seed read with the lowest byte first.
pub open spec fn little_endian(seed: Seq<u8>) -> int
    decreases seed.len(),
{
    if seed.len() == 0 {
        0
    } else {
        seed[0] + 256 * little_endian(seed.drop_first())
    }
}

/// The bytes of a seed read with the highest byte first.
pub open spec fn big_endian(seed: Seq<u8>) -> int
    decreases seed.len(),
{
    if seed.len() == 0 {
        0
    } else {
        seed.last() + 256 * big_endian(seed.drop_last())
    }
}

/// `u64::from_ne_bytes` of std: the word whose bytes in memory are `seed`,
/// which is its reading with the lowest byte first or with the highest byte
/// first, as the machine has it.
#[verifier::external_body]
fn word_from_native_bytes(seed: [u8; 8]) -> (r: u64)
    ensures
        r == little_endian(seed@) || r == big_endian(seed@),
{
    u64::from_ne_bytes(seed)
}

/// The error of `rand_core`. No method of this generator returns one.
#[verifier::external_type_specification]
#[verifier::external_body]
pub struct ExError(rand_core::Error);

/// A SplitMix64 generator. Its view is its state.
#[derive(Clone)]
pub struct SplitMix64 {
    state: u64,
}

impl View for SplitMix64 {
    type V = u64;

    closed spec fn view(&self) -> u64 {
        self.state
    }
}

impl SplitMix64 {
    /// The generator whose state is `seed`.
    pub fn new(seed: u64) -> (r: Self)
        ensures
            r@ == seed,
    {
        SplitMix64 { state: seed }
    }

    /// The generator with the fixed state [`UNSEEDED`]: every generator made
    /// here gives the same words.
    pub fn new_unseeded() -> (r: Self)
        ensures
            r@ == UNSEEDED,
    {
        SplitMix64 { state: UNSEEDED }
    }

    /// The generator of one task of a run: its state depends on the seed of
    /// the run and the number of the task, and on nothing else, so that no two
    /// tasks share a generator and each task draws the same words whenever and
    /// wherever it runs.
    pub fn for_task(seed: u64, task: u64) -> (r: Self)
        ensures
            r@ == task_state(seed, task),
    {
        let mut run = SplitMix64 {
            state: seed.wrapping_add(task.wrapping_mul(GAMMA)),
        };
        let state: u64 = run.next_u64();
        proof {
            assert(u64::wrapping_add(
                u64::wrapping_add(seed, u64::wrapping_mul(task, GAMMA)),
                GAMMA,
            ) == u64::wrapping_add(seed, u64::wrapping_mul(u64::wrapping_add(task, 1), GAMMA)))
                by (bit_vector);
        }
        SplitMix64 { state }
    }

    /// Steps the state and gives out its word.
    pub fn next_u64(&mut self) -> (r: u64)
        ensures
            final(self)@ == advance(old(self)@),
            r == mix(advance(old(self)@)),
    {
        let z: u64 = self.state.wrapping_add(GAMMA);
        self.state = z;
        let a: u64 = (z ^ (z >> 30)).wrapping_mul(0xBF58476D1CE4E5B9);
        let b: u64 = (a ^ (a >> 27)).wrapping_mul(0x94D049BB133111EB);
        b ^ (b >> 31)
    }

    /// The low half of the next word.
    pub fn next_u32(&mut self) -> (r: u32)
        ensures
            final(self)@ == advance(old(self)@),
            r == mix(advance(old(self)@)) % 0x1_0000_0000,
    {
        let w: u64 = self.next_u64();
        (w % 0x1_0000_0000) as u32
    }

    /// The generator whose state has the bytes of `seed` in memory.
    pub fn from_seed(seed: [u8; 8]) -> (r: Self)
        ensures
            r@ == little_endian(seed@) || r@ == big_endian(seed@),
    {
        SplitMix64 { state: word_from_native_bytes(seed) }
    }

    /// The generator of [`SplitMix64::from_seed`], unless every byte of the
    /// seed is zero: such a seed is refused, and the caller draws another.
    pub fn from_drawn_seed(seed: [u8; 8]) -> (r: Option<Self>)
        ensures
            r is None <==> forall|i: int| 0 <= i < 8 ==> seed@[i] == 0,
            r is Some ==> r->0@ == little_endian(seed@) || r->0@ == big_endian(seed@),
    {
        let mut i: usize = 0;
        while i < 8
            invariant
                0 <= i <= 8,
                forall|j: int| 0 <= j < i ==> seed@[j] == 0,
            decreases 8 - i,
        {
            if seed[i] != 0 {
                return Some(SplitMix64::from_seed(seed));
            }
            i += 1;
        }
        None
    }
}

impl SplitMix64 {
    /// `rand_core::impls::fill_bytes_via_next`: fills `dest` from the words of
    /// the generator, eight bytes of each with the lowest byte first. For a
    /// rest of one to four bytes it draws half a word, which is the low half
    /// of the next word and so gives the same bytes. The generator is as many
    /// draws on as words were begun.
    #[verifier::external_body]
    fn fill_via_next(&mut self, dest: &mut [u8])
        ensures
            final(dest)@.len() == old(dest)@.len(),
            forall|place: int|
                0 <= place < old(dest)@.len() ==> #[trigger] final(dest)@[place] == stream_byte(
                    old(self)@,
                    place as nat,
                ),
            final(self)@ == advance_by(old(self)@, ((old(dest)@.len() + 7) / 8) as nat),
    {
        rand_core::impls::fill_bytes_via_next(self, dest)
    }
}

impl Default for SplitMix64 {
    /// The generator of [`SplitMix64::new_unseeded`].
    fn default() -> (r: Self)
        ensures
            r@ == UNSEEDED,
    {
        SplitMix64::new_unseeded()
    }
}

impl RngCore for SplitMix64 {
    /// The low half of the next word.
    fn next_u32(&mut self) -> (r: u32)
        ensures
            final(self)@ == advance(old(self)@),
            r == mix(advance(old(self)@)) % 0x1_0000_0000,
    {
        SplitMix64::next_u32(self)
    }

    /// The next word.
    fn next_u64(&mut self) -> (r: u64)
        ensures
            final(self)@ == advance(old(self)@),
            r == mix(advance(old(self)@)),
    {
        SplitMix64::next_u64(self)
    }

    /// Fills `dest` with the next bytes of the stream: see [`stream_byte`].
    fn fill_bytes(&mut self, dest: &mut [u8])
        ensures
            final(dest)@.len() == old(dest)@.len(),
            forall|place: int|
                0 <= place < old(dest)@.len() ==> #[trigger] final(dest)@[place] == stream_byte(
                    old(self)@,
                    place as nat,
                ),
            final(self)@ == advance_by(old(self)@, ((old(dest)@.len() + 7) / 8) as nat),
    {
        self.fill_via_next(dest)
    }

    /// Fills `dest` as [`RngCore::fill_bytes`] does, and never fails.
    fn try_fill_bytes(&mut self, dest: &mut [u8]) -> (r: Result<(), Error>)
        ensures
            r is Ok,
            final(dest)@.len() == old(dest)@.len(),
            forall|place: int|
                0 <= place < old(dest)@.len() ==> #[trigger] final(dest)@[place] == stream_byte(
                    old(self)@,
                    place as nat,
                ),
            final(self)@ == advance_by(old(self)@, ((old(dest)@.len() + 7) / 8) as nat),
    {
        self.fill_via_next(dest);
        Ok(())
    }
}

} // verus!
