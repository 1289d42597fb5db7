//! Cheap pseudo-random numbers: a deterministic hash of the arguments,
//! and the output function of the SplitMix64 generator.
use vstd::prelude::*;

verus! {

/// The number that `rand64(cap, bits)` gives: each argument multiplied by
/// a large prime, wrapping, and the two products xored.
pub open spec fn spec_rand64(cap: usize, bits: u64) -> u64 {
    (cap as u64).wrapping_mul(9838956529666160483u64) ^ bits.wrapping_mul(17253312864001072049u64)
}

/// A crude hash of `cap` and `bits`, as a `u64`.
pub fn rand64(cap: usize, bits: u64) -> (r: u64)
    ensures
        r == spec_rand64(cap, bits),
{
    let x = (cap as u64).wrapping_mul(9838956529666160483);
    let y = bits.wrapping_mul(17253312864001072049);
    x ^ y
}

/// A crude hash of `cap` and `bits`, as a `u32`.
pub fn rand32(cap: u32, bits: u32) -> (r: u32)
    ensures
        r == spec_rand64(cap as usize, bits as u64) as u32,
{
    rand64(cap as usize, bits as u64) as u32
}

/// A crude hash of `cap` and `bits`, as a `usize`.
pub fn rand_usize(cap: usize, bits: u64) -> (r: usize)
    ensures
        r == spec_rand64(cap, bits) as usize,
{
    rand64(cap, bits) as usize
}

/// The SplitMix64 output function.
pub open spec fn spec_mix64(z: u64) -> u64 {
    let z1 = (z ^ (z >> 30u64)).wrapping_mul(0xbf58476d1ce4e5b9u64);
    let z2 = (z1 ^ (z1 >> 27u64)).wrapping_mul(0x94d049bb133111ebu64);
    z2 ^ (z2 >> 31u64)
}

/// The SplitMix64 output function: scrambles the generator's state `z`
/// into the next number.
pub fn mix64(z: u64) -> (r: u64)
    ensures
        r == spec_mix64(z),
{
    let z1 = (z ^ (z >> 30u64)).wrapping_mul(0xbf58476d1ce4e5b9);
    let z2 = (z1 ^ (z1 >> 27u64)).wrapping_mul(0x94d049bb133111eb);
    z2 ^ (z2 >> 31u64)
}

} // verus!
