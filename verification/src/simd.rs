//! The inner loops of inference: dot products, activations, and the row
//! updates of the feature-transformer accumulators.

use crate::arith::{clamp_i32, clamp_int, lemma_wrap32_in_range, lemma_wrap32_step, wrap16, wrap32};
use vstd::arithmetic::power2::pow2;
use vstd::prelude::*;

verus! {

/// The smaller of two lengths: how far a pair of slices overlaps.
pub open spec fn overlap(m: nat, n: nat) -> nat {
    if m <= n {
        m
    } else {
        n
    }
}

/// The sum of `a[i] * w[i]` over the first `n` places.
pub open spec fn dot_prefix(a: Seq<u8>, w: Seq<i8>, n: nat) -> int
    decreases n,
{
    if n == 0 {
        0
    } else {
        dot_prefix(a, w, (n - 1) as nat) + a[n - 1] * w[n - 1]
    }
}

/// The dot product of two vectors, cut to the shorter one.
pub open spec fn dot(a: Seq<u8>, w: Seq<i8>) -> int {
    dot_prefix(a, w, overlap(a.len(), w.len()))
}

/// The number of leading places of both slices.
fn overlap_len(m: usize, n: usize) -> (r: usize)
    ensures
        r == overlap(m as nat, n as nat),
{
    if m <= n {
        m
    } else {
        n
    }
}

/// The dot product of `input` and `weights` in 32-bit arithmetic.
pub fn dot_u8_i8(input: &[u8], weights: &[i8]) -> (r: i32)
    ensures
        r == wrap32(dot(input@, weights@)),
{
    dot_u8_i8_scalar(input, weights)
}

/// The dot product of `input` and `weights`, one product at a time.
pub fn dot_u8_i8_scalar(input: &[u8], weights: &[i8]) -> (r: i32)
    ensures
        r == wrap32(dot(input@, weights@)),
{
    let n: usize = overlap_len(input.len(), weights.len());
    let mut sum: i32 = 0;
    let mut i: usize = 0;
    while i < n
        invariant
            i <= n,
            n == overlap(input@.len(), weights@.len()),
            sum == wrap32(dot_prefix(input@, weights@, i as nat)),
        decreases n - i,
    {
        assert(-0x8000 <= input@[i as int] * weights@[i as int] < 0x8000) by (nonlinear_arith)
            requires
                0 <= input@[i as int] <= 255,
                -128 <= weights@[i as int] <= 127,
        ;
        let product: i32 = input[i] as i32 * weights[i] as i32;
        proof {
            lemma_wrap32_step(dot_prefix(input@, weights@, i as nat), product as int);
        }
        sum = sum.wrapping_add(product);
        i = i + 1;
    }
    sum
}

/// A dot product over `n` places lies within `32640 * n` of zero.
proof fn lemma_dot_bound(a: Seq<u8>, w: Seq<i8>, n: nat)
    requires
        n <= a.len(),
        n <= w.len(),
    ensures
        -32640 * n <= dot_prefix(a, w, n) <= 32640 * n,
    decreases n,
{
    if n > 0 {
        lemma_dot_bound(a, w, (n - 1) as nat);
        assert(-32640 <= a[n - 1] * w[n - 1] <= 32640) by (nonlinear_arith)
            requires
                0 <= a[n - 1] <= 255,
                -128 <= w[n - 1] <= 127,
        ;
    }
}

/// A dot product over at most 65793 places never overflows 32 bits, so the
/// value computed in 32-bit arithmetic is the mathematical one.
pub proof fn dot_is_exact(a: Seq<u8>, w: Seq<i8>)
    requires
        overlap(a.len(), w.len()) <= 65793,
    ensures
        wrap32(dot(a, w)) == dot(a, w),
{
    lemma_dot_bound(a, w, overlap(a.len(), w.len()));
    lemma_wrap32_in_range(dot(a, w));
}

/// One output of the pairwise activation: both inputs limited to `0..=hi`,
/// multiplied, divided by `2^shift`, and cut to eight bits.
pub open spec fn clip_mul(a: i16, b: i16, hi: i16, shift: i32) -> u8 {
    ((clamp_int(a as int, 0, hi as int) * clamp_int(b as int, 0, hi as int)) / (pow2(
        shift as nat,
    ) as int) % 256) as u8
}

/// Computes `out[j] = (clamp(a[j], 0, hi) * clamp(b[j], 0, hi)) >> shift` as
/// `u8`, the pairwise feature-transformer activation.
pub fn pairwise_clip_mul(a: &[i16], b: &[i16], out: &mut [u8], hi: i16, shift: i32)
    requires
        old(out)@.len() <= a@.len(),
        old(out)@.len() <= b@.len(),
        0 <= hi,
        0 <= shift < 32,
    ensures
        final(out)@ == Seq::new(old(out)@.len(), |j: int| clip_mul(a@[j], b@[j], hi, shift)),
{
    pairwise_clip_mul_scalar(a, b, out, hi, shift)
}

/// [`pairwise_clip_mul`], one output at a time.
pub fn pairwise_clip_mul_scalar(a: &[i16], b: &[i16], out: &mut [u8], hi: i16, shift: i32)
    requires
        old(out)@.len() <= a@.len(),
        old(out)@.len() <= b@.len(),
        0 <= hi,
        0 <= shift < 32,
    ensures
        final(out)@ == Seq::new(old(out)@.len(), |j: int| clip_mul(a@[j], b@[j], hi, shift)),
{
    let n: usize = out.len();
    let mut j: usize = 0;
    while j < n
        invariant
            j <= n,
            n == old(out)@.len(),
            out@.len() == n,
            n <= a@.len(),
            n <= b@.len(),
            0 <= hi,
            0 <= shift < 32,
            forall|k: int| 0 <= k < j ==> out@[k] == clip_mul(a@[k], b@[k], hi, shift),
        decreases n - j,
    {
        let s0: i32 = clamp_i32(a[j] as i32, 0, hi as i32);
        let s1: i32 = clamp_i32(b[j] as i32, 0, hi as i32);
        assert(0 <= s0 * s1 <= 32767 * 32767) by (nonlinear_arith)
            requires
                0 <= s0 <= 32767,
                0 <= s1 <= 32767,
        ;
        let product: u32 = (s0 * s1) as u32;
        let shifted: u32 = product >> (shift as u32);
        let low: u8 = (shifted % 256) as u8;
        proof {
            vstd::bits::lemma_u32_shr_is_div(product, shift as u32);
        }
        out[j] = low;
        j = j + 1;
    }
}

/// One output of the clipped-ReLU activation.
pub open spec fn clipped(x: i16) -> u8 {
    clamp_int(x as int, 0, 127) as u8
}

/// Computes `out[j] = clamp(a[j], 0, 127)` as `u8`, the clipped-ReLU
/// feature-transformer activation. Outputs past the end of `a` keep their value.
pub fn clip_u8(a: &[i16], out: &mut [u8])
    ensures
        final(out)@ == Seq::new(
            old(out)@.len(),
            |j: int|
                if j < a@.len() {
                    clipped(a@[j])
                } else {
                    old(out)@[j]
                },
        ),
{
    let n: usize = overlap_len(a.len(), out.len());
    let mut j: usize = 0;
    while j < n
        invariant
            j <= n,
            n == overlap(a@.len(), old(out)@.len()),
            out@.len() == old(out)@.len(),
            forall|k: int| 0 <= k < j ==> out@[k] == clipped(a@[k]),
            forall|k: int| j <= k < out@.len() ==> out@[k] == old(out)@[k],
        decreases n - j,
    {
        let c: i32 = clamp_i32(a[j] as i32, 0, 127);
        out[j] = c as u8;
        j = j + 1;
    }
}

/// `acc` with `w` added place by place in 16-bit arithmetic. Places past the
/// end of `w` keep their value.
pub open spec fn added16(acc: Seq<i16>, w: Seq<i16>) -> Seq<i16> {
    Seq::new(
        acc.len(),
        |j: int|
            if j < w.len() {
                wrap16(acc[j] + w[j])
            } else {
                acc[j]
            },
    )
}

/// `acc` with `w` subtracted place by place in 16-bit arithmetic. Places past
/// the end of `w` keep their value.
pub open spec fn subtracted16(acc: Seq<i16>, w: Seq<i16>) -> Seq<i16> {
    Seq::new(
        acc.len(),
        |j: int|
            if j < w.len() {
                wrap16(acc[j] - w[j])
            } else {
                acc[j]
            },
    )
}

/// A row of 8-bit weights, each taken as a 16-bit value.
pub open spec fn widened(w: Seq<i8>) -> Seq<i16> {
    w.map_values(|x: i8| x as i16)
}

/// Adds a row of 8-bit weights to an accumulator.
pub fn add_i8_i16(acc: &mut [i16], w: &[i8])
    ensures
        final(acc)@ == added16(old(acc)@, widened(w@)),
{
    let n: usize = overlap_len(acc.len(), w.len());
    let mut i: usize = 0;
    while i < n
        invariant
            i <= n,
            n == overlap(old(acc)@.len(), w@.len()),
            acc@.len() == old(acc)@.len(),
            forall|k: int| 0 <= k < i ==> acc@[k] == wrap16(old(acc)@[k] + w@[k]),
            forall|k: int| i <= k < acc@.len() ==> acc@[k] == old(acc)@[k],
        decreases n - i,
    {
        let v: i16 = acc[i].wrapping_add(w[i] as i16);
        acc[i] = v;
        i = i + 1;
    }
}

/// Subtracts a row of 8-bit weights from an accumulator.
pub fn sub_i8_i16(acc: &mut [i16], w: &[i8])
    ensures
        final(acc)@ == subtracted16(old(acc)@, widened(w@)),
{
    let n: usize = overlap_len(acc.len(), w.len());
    let mut i: usize = 0;
    while i < n
        invariant
            i <= n,
            n == overlap(old(acc)@.len(), w@.len()),
            acc@.len() == old(acc)@.len(),
            forall|k: int| 0 <= k < i ==> acc@[k] == wrap16(old(acc)@[k] - w@[k]),
            forall|k: int| i <= k < acc@.len() ==> acc@[k] == old(acc)@[k],
        decreases n - i,
    {
        let v: i16 = acc[i].wrapping_sub(w[i] as i16);
        acc[i] = v;
        i = i + 1;
    }
}

/// Adds a row of 16-bit weights to an accumulator.
pub fn add_i16(acc: &mut [i16], w: &[i16])
    ensures
        final(acc)@ == added16(old(acc)@, w@),
{
    let n: usize = overlap_len(acc.len(), w.len());
    let mut i: usize = 0;
    while i < n
        invariant
            i <= n,
            n == overlap(old(acc)@.len(), w@.len()),
            acc@.len() == old(acc)@.len(),
            forall|k: int| 0 <= k < i ==> acc@[k] == wrap16(old(acc)@[k] + w@[k]),
            forall|k: int| i <= k < acc@.len() ==> acc@[k] == old(acc)@[k],
        decreases n - i,
    {
        let v: i16 = acc[i].wrapping_add(w[i]);
        acc[i] = v;
        i = i + 1;
    }
}

/// Subtracts a row of 16-bit weights from an accumulator.
pub fn sub_i16(acc: &mut [i16], w: &[i16])
    ensures
        final(acc)@ == subtracted16(old(acc)@, w@),
{
    let n: usize = overlap_len(acc.len(), w.len());
    let mut i: usize = 0;
    while i < n
        invariant
            i <= n,
            n == overlap(old(acc)@.len(), w@.len()),
            acc@.len() == old(acc)@.len(),
            forall|k: int| 0 <= k < i ==> acc@[k] == wrap16(old(acc)@[k] - w@[k]),
            forall|k: int| i <= k < acc@.len() ==> acc@[k] == old(acc)@[k],
        decreases n - i,
    {
        let v: i16 = acc[i].wrapping_sub(w[i]);
        acc[i] = v;
        i = i + 1;
    }
}

/// Subtracting a row undoes adding it, and the other way round, even where the
/// sums wrap around.
pub proof fn row_updates_cancel(acc: Seq<i16>, w: Seq<i16>)
    ensures
        subtracted16(added16(acc, w), w) == acc,
        added16(subtracted16(acc, w), w) == acc,
{
    assert(subtracted16(added16(acc, w), w) =~= acc);
    assert(added16(subtracted16(acc, w), w) =~= acc);
}

} // verus!
