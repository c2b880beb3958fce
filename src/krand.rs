//! A fixed integer mixing function and the uniform draw built on it.

use vstd::prelude::*;

verus! {

/// First multiplier of the mixing function.
pub const HASH_MUL_A: u32 = 0xB5297A4D;

/// Additive constant of the mixing function.
pub const HASH_ADD: u32 = 0x68E31DA4;

/// Second multiplier of the mixing function.
pub const HASH_MUL_B: u32 = 0x1B56C4E9;

/// Multiplication modulo 2^32.
pub open spec fn mul32(x: u32, y: u32) -> u32 {
    ((x as int * y as int) % 0x1_0000_0000) as u32
}

/// Addition modulo 2^32.
pub open spec fn add32(x: u32, y: u32) -> u32 {
    ((x as int + y as int) % 0x1_0000_0000) as u32
}

/// `x` rotated right by `n` bits, for `0 < n < 32`.
pub open spec fn rotr32(x: u32, n: u32) -> u32 {
    (x >> n) | (x << (32 - n) as u32)
}

/// `x` rotated left by `n` bits, for `0 < n < 32`.
pub open spec fn rotl32(x: u32, n: u32) -> u32 {
    (x << n) | (x >> (32 - n) as u32)
}

/// The mixing function: multiply, rotate-xor, add, rotate-xor, multiply, rotate-xor.
pub open spec fn khash_spec(seed: u32) -> u32 {
    let m1 = mul32(seed, HASH_MUL_A);
    let m2 = m1 ^ rotr32(m1, 13);
    let m3 = add32(m2, HASH_ADD);
    let m4 = m3 ^ rotl32(m3, 7);
    let m5 = mul32(m4, HASH_MUL_B);
    m5 ^ rotr32(m5, 9)
}

/// Maps a seed to a pseudo-random 32-bit value; the same seed always gives the same value.
pub fn khash(seed: u32) -> (r: u32)
    ensures
        r == khash_spec(seed),
{
    let mut mangled: u32 = seed;
    mangled = mangled.wrapping_mul(HASH_MUL_A);
    mangled = mangled ^ ((mangled >> 13u32) | (mangled << 19u32));
    mangled = mangled.wrapping_add(HASH_ADD);
    mangled = mangled ^ ((mangled << 7u32) | (mangled >> 25u32));
    mangled = mangled.wrapping_mul(HASH_MUL_B);
    mangled = mangled ^ ((mangled >> 9u32) | (mangled << 23u32));
    mangled
}

/// The point in `[0, total]` that the uniform draw for `seed` picks: `total`
/// scaled by `khash(seed) / u32::MAX`, rounded down.
pub open spec fn draw_point(seed: u32, total: int) -> int {
    (khash_spec(seed) as int * total) / (u32::MAX as int)
}

/// The draw never exceeds the total it scales.
pub proof fn lemma_draw_point_bound(seed: u32, total: int)
    requires
        total >= 0,
    ensures
        0 <= draw_point(seed, total) <= total,
{
    let h = khash_spec(seed);
    assert(h as int * total <= u32::MAX as int * total) by (nonlinear_arith)
        requires h <= u32::MAX, total >= 0;
    assert(0 <= (h as int * total) / (u32::MAX as int) <= total) by (nonlinear_arith)
        requires h as int * total <= u32::MAX as int * total, h >= 0, total >= 0;
}

/// Scales `total` by the uniform draw for `seed`.
pub fn uniform_scaled(seed: u32, total: u64) -> (r: u64)
    ensures
        r as int == draw_point(seed, total as int),
        r <= total,
{
    let h: u32 = khash(seed);
    assert(h as int * total as int <= u32::MAX as int * u64::MAX as int) by (nonlinear_arith)
        requires h <= u32::MAX, total <= u64::MAX;
    let prod: u128 = (h as u128) * (total as u128);
    let q: u128 = prod / (u32::MAX as u128);
    proof {
        assert(h as int * total as int <= u32::MAX as int * total as int) by (nonlinear_arith)
            requires h <= u32::MAX;
        assert((h as int * total as int) / (u32::MAX as int) <= total as int) by (nonlinear_arith)
            requires h as int * total as int <= u32::MAX as int * total as int;
    }
    q as u64
}

} // verus!
