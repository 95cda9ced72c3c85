//! The xorshift generator that drives pseudo-random input injection.
use vstd::prelude::*;

verus! {

/// One xorshift64 step with the shift triple (13, 7, 17); shifts drop the
/// bits that leave the word.
pub open spec fn xorshift(seed: u64) -> u64 {
    let a = seed ^ (seed << 13u64);
    let b = a ^ (a >> 7u64);
    b ^ (b << 17u64)
}

/// Advances the generator by one step.
pub fn next_seed(seed: u64) -> (next: u64)
    ensures
        next == xorshift(seed),
        ({
            let a = seed ^ ((seed as int * 8192) % 0x1_0000_0000_0000_0000) as u64;
            let b = a ^ (a / 128);
            next == b ^ ((b as int * 131072) % 0x1_0000_0000_0000_0000) as u64
        }),
{
    proof {
        lemma_xorshift_arithmetic(seed);
    }
    let a = seed ^ (seed << 13u64);
    let b = a ^ (a >> 7u64);
    b ^ (b << 17u64)
}

/// A nonzero seed never steps to zero, so the generator cannot get stuck:
/// each of the three xor-shift stages maps a nonzero word to a nonzero word.
pub proof fn lemma_xorshift_nonzero(seed: u64)
    requires
        seed != 0,
    ensures
        xorshift(seed) != 0,
{
    let a = seed ^ (seed << 13u64);
    let b = a ^ (a >> 7u64);
    assert(seed != 0 ==> seed ^ (seed << 13u64) != 0) by (bit_vector);
    assert(a != 0 ==> a ^ (a >> 7u64) != 0) by (bit_vector);
    assert(b != 0 ==> b ^ (b << 17u64) != 0) by (bit_vector);
}

/// The step written with arithmetic in place of shifts: a left shift by `k`
/// multiplies by `2^k` and keeps the low 64 bits, a right shift by 7 divides
/// by 128. With `a = seed ^ (seed * 2^13 mod 2^64)` and `b = a ^ (a / 2^7)`,
/// the next seed is `b ^ (b * 2^17 mod 2^64)`, for every seed.
pub proof fn lemma_xorshift_arithmetic(seed: u64)
    ensures
        ({
            let a = seed ^ ((seed as int * 8192) % 0x1_0000_0000_0000_0000) as u64;
            let b = a ^ (a / 128);
            xorshift(seed) == b ^ ((b as int * 131072) % 0x1_0000_0000_0000_0000) as u64
        }),
{
    let a = seed ^ (seed << 13u64);
    let b = a ^ (a >> 7u64);
    assert(seed << 13u64 == ((seed as int * 8192) % 0x1_0000_0000_0000_0000) as u64) by (bit_vector);
    assert(a >> 7u64 == a / 128) by (bit_vector);
    assert(b << 17u64 == ((b as int * 131072) % 0x1_0000_0000_0000_0000) as u64) by (bit_vector);
}

/// Draws one pseudo-random input: the seed advances twice; the room index is
/// the first new seed modulo `rooms`, and the value numerator is the second
/// new seed modulo `resolution`. Returns the new seed, the room and the numerator.
pub fn draw_input(seed: u64, rooms: usize, resolution: u64) -> (drawn: (u64, usize, u64))
    requires
        rooms > 0,
        resolution > 0,
    ensures
        drawn.0 == xorshift(xorshift(seed)),
        drawn.1 as int == xorshift(seed) as int % rooms as int,
        drawn.2 as int == xorshift(xorshift(seed)) as int % resolution as int,
{
    let first = next_seed(seed);
    let room = (first % (rooms as u64)) as usize;
    let second = next_seed(first);
    (second, room, second % resolution)
}

} // verus!
