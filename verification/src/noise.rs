//! Integer hashing used for deterministic per-position randomness.
use vstd::prelude::*;

verus! {

/// The integer mixing function (xor-shift / multiply rounds).
pub open spec fn spec_hash_u32(h: u32) -> u32 {
    let h1 = h ^ (h >> 16u32);
    let h2 = h1.wrapping_mul(0x7feb_352d);
    let h3 = h2 ^ (h2 >> 15u32);
    let h4 = h3.wrapping_mul(0x846c_a68b);
    h4 ^ (h4 >> 16u32)
}

/// The inverse of [`spec_hash_u32`]: its rounds undone in reverse order.
pub open spec fn spec_unhash_u32(r: u32) -> u32 {
    let a = r ^ (r >> 16u32);
    let b = a.wrapping_mul(0x4302_1123);
    let c = b ^ (b >> 15u32) ^ (b >> 30u32);
    let d = c.wrapping_mul(0x1d69_e2a5);
    d ^ (d >> 16u32)
}

proof fn lemma_xorshift16_undo(h: u32)
    ensures
        (h ^ (h >> 16u32)) ^ ((h ^ (h >> 16u32)) >> 16u32) == h,
{
    assert((h ^ (h >> 16u32)) ^ ((h ^ (h >> 16u32)) >> 16u32) == h) by (bit_vector);
}

proof fn lemma_xorshift15_undo(h: u32)
    ensures
        (h ^ (h >> 15u32)) ^ ((h ^ (h >> 15u32)) >> 15u32) ^ ((h ^ (h >> 15u32)) >> 30u32) == h,
{
    assert((h ^ (h >> 15u32)) ^ ((h ^ (h >> 15u32)) >> 15u32) ^ ((h ^ (h >> 15u32)) >> 30u32) == h) by (bit_vector);
}

proof fn lemma_mul_undo(h: u32)
    ensures
        h.wrapping_mul(0x7feb_352d).wrapping_mul(0x1d69_e2a5) == h,
        h.wrapping_mul(0x846c_a68b).wrapping_mul(0x4302_1123) == h,
{
    assert(h.wrapping_mul(0x7feb_352d).wrapping_mul(0x1d69_e2a5) == h) by (bit_vector);
    assert(h.wrapping_mul(0x846c_a68b).wrapping_mul(0x4302_1123) == h) by (bit_vector);
}

/// The integer mixing function is one-to-one on `u32` (so, on a finite set,
/// a bijection): undoing its rounds gives the input back, so different
/// inputs never share a hash.
pub proof fn lemma_hash_u32_bijective(a: u32, b: u32)
    ensures
        spec_unhash_u32(spec_hash_u32(a)) == a,
        spec_hash_u32(a) == spec_hash_u32(b) ==> a == b,
{
    lemma_unhash_hash(a);
    lemma_unhash_hash(b);
}

proof fn lemma_unhash_hash(h: u32)
    ensures
        spec_unhash_u32(spec_hash_u32(h)) == h,
{
    let h1 = h ^ (h >> 16u32);
    let h2 = h1.wrapping_mul(0x7feb_352d);
    let h3 = h2 ^ (h2 >> 15u32);
    let h4 = h3.wrapping_mul(0x846c_a68b);
    let r = h4 ^ (h4 >> 16u32);
    lemma_xorshift16_undo(h4);
    lemma_mul_undo(h3);
    lemma_xorshift15_undo(h2);
    lemma_mul_undo(h1);
    lemma_xorshift16_undo(h);
}

/// The 24 high bits of the hash of a 2D position under a seed.
pub open spec fn spec_hash24(x: i32, z: i32, seed: u32) -> u32 {
    spec_hash_u32(
        seed ^ (x as u32).wrapping_mul(0x9e37_79b1) ^ (z as u32).wrapping_mul(0x85eb_ca77),
    ) >> 8u32
}

/// The 24 high bits of the hash of a 3D position under a seed.
pub open spec fn spec_hash24_3d(x: i32, y: i32, z: i32, seed: u32) -> u32 {
    spec_hash_u32(
        seed ^ (x as u32).wrapping_mul(0x9e37_79b1) ^ (y as u32).wrapping_mul(0xc2b2_ae35) ^ (
        z as u32).wrapping_mul(0x85eb_ca77),
    ) >> 8u32
}

/// Integer hash (avalanche mixer).
pub fn hash_u32(h: u32) -> (r: u32)
    ensures
        r == spec_hash_u32(h),
{
    let mut h = h;
    h ^= h >> 16;
    h = h.wrapping_mul(0x7feb_352d);
    h ^= h >> 15;
    h = h.wrapping_mul(0x846c_a68b);
    h ^= h >> 16;
    h
}

/// Deterministic 24-bit value for a column position and seed; dividing it by
/// 2^24 gives the uniform value in [0, 1) used by terrain and textures.
pub fn hash24(x: i32, z: i32, seed: u32) -> (r: u32)
    ensures
        r == spec_hash24(x, z, seed),
        r < 0x100_0000,
{
    let hh = hash_u32(seed ^ (x as u32).wrapping_mul(0x9e37_79b1) ^ (z as u32).wrapping_mul(0x85eb_ca77));
    assert(hh >> 8u32 < 0x100_0000u32) by (bit_vector);
    hh >> 8
}

/// Deterministic 24-bit value for a 3D position and seed.
pub fn hash24_3d(x: i32, y: i32, z: i32, seed: u32) -> (r: u32)
    ensures
        r == spec_hash24_3d(x, y, z, seed),
        r < 0x100_0000,
{
    let hh = hash_u32(
        seed ^ (x as u32).wrapping_mul(0x9e37_79b1) ^ (y as u32).wrapping_mul(0xc2b2_ae35) ^ (z as u32).wrapping_mul(0x85eb_ca77),
    );
    assert(hh >> 8u32 < 0x100_0000u32) by (bit_vector);
    hh >> 8
}

} // verus!
