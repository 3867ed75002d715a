//! The 64-bit bit mixer that produces the payload stored at each index.

use vstd::prelude::*;

verus! {

/// The golden-ratio increment that the seeded form of the mixer adds first.
pub const GOLDEN_GAMMA: u64 = 0x9e3779b97f4a7c15;

/// First multiplier of the mixer.
pub const MIX_MUL_1: u64 = 0xbf58476d1ce4e5b9;

/// Second multiplier of the mixer.
pub const MIX_MUL_2: u64 = 0x94d049bb133111eb;

/// Product of two 64-bit words, reduced modulo 2^64.
pub open spec fn mul_mod64(x: u64, y: u64) -> u64 {
    ((x as nat * y as nat) % 0x1_0000_0000_0000_0000nat) as u64
}

/// The mixer as a mathematical function: xor-shift by 30, multiply,
/// xor-shift by 27, multiply, xor-shift by 31.
pub open spec fn spec_splitmix64(x: u64) -> u64 {
    let a = mul_mod64(x ^ (x >> 30), MIX_MUL_1);
    let b = mul_mod64(a ^ (a >> 27), MIX_MUL_2);
    b ^ (b >> 31)
}

/// The eight little-endian bytes of the mixed value of `value + GOLDEN_GAMMA`.
pub open spec fn spec_rand_bytes(value: u64) -> Seq<u8>
    recommends
        value + GOLDEN_GAMMA <= u64::MAX,
{
    vstd::bytes::spec_u64_to_le_bytes_open(spec_splitmix64((value + GOLDEN_GAMMA) as u64))
}

/// The payload stored at index `i`: the eight little-endian bytes of the
/// mixed index.
pub open spec fn spec_payload(i: u64) -> Seq<u8> {
    vstd::bytes::spec_u64_to_le_bytes(spec_splitmix64(i))
}

/// The payload stored at index `i`.
pub fn payload(i: u64) -> (bytes: Vec<u8>)
    ensures
        bytes@ == spec_payload(i),
{
    let mut bytes: Vec<u8> = Vec::new();
    crate::codec::put_u64(&mut bytes, splitmix64(i));
    bytes
}

/// Mixes `x` into a pseudo-random 64-bit word.
pub fn splitmix64(x: u64) -> (z: u64)
    ensures
        z == spec_splitmix64(x),
{
    let a: u64 = (x ^ (x >> 30)).wrapping_mul(MIX_MUL_1);
    let b: u64 = (a ^ (a >> 27)).wrapping_mul(MIX_MUL_2);
    b ^ (b >> 31)
}

/// Fills `buffer` with the little-endian bytes of the mixed value of
/// `value` advanced by the golden-ratio increment.
pub fn u64_to_rand_bytes(value: u64, buffer: &mut [u8; 8])
    requires
        value + GOLDEN_GAMMA <= u64::MAX,
    ensures
        final(buffer)@ == spec_rand_bytes(value),
{
    let z = splitmix64(value + GOLDEN_GAMMA);
    let mut bytes: Vec<u8> = Vec::new();
    crate::codec::put_u64(&mut bytes, z);
    proof {
        vstd::bytes::spec_u64_to_le_bytes_to_open(z);
    }
    let mut k: usize = 0;
    while k < 8
        invariant
            k <= 8,
            bytes@.len() == 8,
            buffer@.len() == 8,
            forall|i: int| 0 <= i < k ==> buffer@[i] == bytes@[i],
        decreases 8 - k,
    {
        buffer[k] = bytes[k];
        k += 1;
    }
    assert(buffer@ == bytes@);
}

} // verus!
