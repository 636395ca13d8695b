//! Two's-complement wrap-around and the rounding rules of the network layers,
//! stated over mathematical integers.

use vstd::prelude::*;

verus! {

/// The 16-bit two's-complement value congruent to `x`.
pub open spec fn wrap16(x: int) -> i16 {
    ((x + 0x8000) % 0x1_0000 - 0x8000) as i16
}

/// The 32-bit two's-complement value congruent to `x`.
pub open spec fn wrap32(x: int) -> i32 {
    ((x + 0x8000_0000) % 0x1_0000_0000 - 0x8000_0000) as i32
}

/// The 8-bit two's-complement value congruent to `x`.
pub open spec fn wrap8(x: int) -> i8 {
    ((x + 0x80) % 0x100 - 0x80) as i8
}

/// Division that rounds toward zero, for a positive divisor.
pub open spec fn div_toward_zero(x: int, d: int) -> int {
    if x >= 0 {
        x / d
    } else {
        -((-x) / d)
    }
}

/// `x` limited to `lo..=hi`.
pub open spec fn clamp_int(x: int, lo: int, hi: int) -> int {
    if x < lo {
        lo
    } else if x > hi {
        hi
    } else {
        x
    }
}

/// Wrapping an intermediate 16-bit sum does not change the final one.
pub proof fn lemma_wrap16_step(x: int, y: int)
    ensures
        wrap16(wrap16(x) + y) == wrap16(x + y),
{
}

/// A value that fits in 32 bits is its own wrap-around.
pub proof fn lemma_wrap32_in_range(x: int)
    requires
        -0x8000_0000 <= x < 0x8000_0000,
    ensures
        wrap32(x) == x,
{
}

/// Wrapping an intermediate 32-bit sum does not change the final one.
pub proof fn lemma_wrap32_step(x: int, y: int)
    ensures
        wrap32(wrap32(x) + y) == wrap32(x + y),
{
}

/// `a + b` in 32-bit arithmetic.
pub fn add32(a: i32, b: i32) -> (r: i32)
    ensures
        r == wrap32(a + b),
{
    a.wrapping_add(b)
}

/// `a - b` in 32-bit arithmetic.
pub fn sub32(a: i32, b: i32) -> (r: i32)
    ensures
        r == wrap32(a - b),
{
    a.wrapping_sub(b)
}

/// `a * b` in 32-bit arithmetic.
pub fn mul32(a: i32, b: i32) -> (r: i32)
    ensures
        r == wrap32(a * b),
{
    a.wrapping_mul(b)
}

/// `a / d`, rounded toward zero.
pub fn div32(a: i32, d: i32) -> (r: i32)
    requires
        d > 0,
    ensures
        r == div_toward_zero(a as int, d as int),
{
    a / d
}

/// `x` limited to `lo..=hi`.
pub fn clamp_i32(x: i32, lo: i32, hi: i32) -> (r: i32)
    requires
        lo <= hi,
    ensures
        r == clamp_int(x as int, lo as int, hi as int),
{
    if x < lo {
        lo
    } else if x > hi {
        hi
    } else {
        x
    }
}

/// The low 16 bits of `v` as a signed number.
pub fn low16(v: i64) -> (r: i16)
    requires
        -0x100_0000_0000 <= v < 0x100_0000_0000,
    ensures
        r == wrap16(v as int),
{
    let low: u16 = ((v + 0x100_0000_0000) as u64 % 0x1_0000) as u16;
    assert(low as i16 == if low < 0x8000 {
        low as int
    } else {
        low - 0x1_0000
    }) by (bit_vector);
    low as i16
}

/// The low 32 bits of `v` as a signed number.
pub fn low32(v: i64) -> (r: i32)
    requires
        -0x100_0000_0000 <= v < 0x100_0000_0000,
    ensures
        r == wrap32(v as int),
{
    let low: u32 = ((v + 0x100_0000_0000) as u64 % 0x1_0000_0000) as u32;
    assert(low as i32 == if low < 0x8000_0000 {
        low as int
    } else {
        low - 0x1_0000_0000
    }) by (bit_vector);
    low as i32
}

} // verus!
