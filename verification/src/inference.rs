//! What the layers of a network compute, whatever their widths and weights.

use crate::arith::{div_toward_zero, wrap16, wrap32, wrap8};
use crate::model::{clipped_input, pairwise_input, relu, squared_relu};
use crate::simd::{clip_mul, clipped, dot, dot_prefix, overlap};
use vstd::arithmetic::power2::{lemma_pow2_pos, pow2};
use vstd::prelude::*;

verus! {

/// `x`, or the end of `0..=hi` that it is nearest to.
pub open spec fn limited(x: int, hi: int) -> int {
    if x <= 0 {
        0
    } else if x <= hi {
        x
    } else {
        hi
    }
}

/// Whether `q` is `x` divided by `d` and rounded towards zero: of the same sign,
/// and no more than a remainder short.
pub open spec fn is_quotient(x: int, d: int, q: int) -> bool {
    if x >= 0 {
        d * q <= x < d * q + d
    } else {
        d * q - d < x <= d * q
    }
}

/// Cut numbers are the only ones of their size that differ from the uncut ones
/// by a multiple of the range.
pub proof fn cut_numbers(x: int)
    ensures
        (x - wrap8(x)) % 0x100 == 0,
        (x - wrap16(x)) % 0x1_0000 == 0,
        (x - wrap32(x)) % 0x1_0000_0000 == 0,
        -0x80 <= x < 0x80 ==> wrap8(x) == x,
        -0x8000 <= x < 0x8000 ==> wrap16(x) == x,
        -0x8000_0000 <= x < 0x8000_0000 ==> wrap32(x) == x,
{
}

/// Quotients are rounded towards zero.
pub proof fn quotients_round_to_zero(x: int, d: int)
    requires
        d > 0,
    ensures
        is_quotient(x, d, div_toward_zero(x, d)),
        div_toward_zero(-x, d) == -div_toward_zero(x, d),
{
    let y = if x >= 0 {
        x
    } else {
        -x
    };
    vstd::arithmetic::div_mod::lemma_fundamental_div_mod(y, d);
    vstd::arithmetic::div_mod::lemma_mod_bound(y, d);
    assert(d * (-(y / d)) == -(d * (y / d))) by (nonlinear_arith);
}

/// The pairwise activation multiplies what both inputs amount to within
/// `0..=hi`, drops `shift` binary places, and keeps the low eight bits. Which
/// input comes first makes no difference.
pub proof fn pairwise_product(a: i16, b: i16, hi: i16, shift: i32)
    requires
        0 <= hi,
        0 <= shift < 32,
    ensures
        ({
            let product = limited(a as int, hi as int) * limited(b as int, hi as int);
            let r = clip_mul(a, b, hi, shift) as int;
            let unit = pow2(shift as nat) as int;
            &&& product < 256 * unit ==> unit * r <= product < unit * r + unit
            &&& (product / unit - r) % 256 == 0
        }),
        clip_mul(a, b, hi, shift) == clip_mul(b, a, hi, shift),
        a <= 0 ==> clip_mul(a, b, hi, shift) == 0,
{
    let x = limited(a as int, hi as int);
    let y = limited(b as int, hi as int);
    let unit = pow2(shift as nat) as int;
    lemma_pow2_pos(shift as nat);
    assert(x * y == y * x && 0 <= x * y) by (nonlinear_arith)
        requires
            0 <= x,
            0 <= y,
    ;
    let q = (x * y) / unit;
    vstd::arithmetic::div_mod::lemma_fundamental_div_mod(x * y, unit);
    vstd::arithmetic::div_mod::lemma_mod_bound(x * y, unit);
    assert(0 <= q && (x * y < 256 * unit ==> q < 256)) by (nonlinear_arith)
        requires
            0 <= x * y,
            unit > 0,
            unit * q <= x * y < unit * q + unit,
    ;
    if a <= 0 {
        assert(x * y == 0) by (nonlinear_arith)
            requires
                x == 0,
        ;
        assert(q == 0) by (nonlinear_arith)
            requires
                unit > 0,
                unit * q <= 0 < unit * q + unit,
        ;
    }
}

/// With nine places dropped and a limit of at most 255 nothing is cut off.
proof fn lemma_pairwise_nine(a: i16, b: i16, hi: i16)
    requires
        0 <= hi <= 255,
    ensures
        ({
            let product = limited(a as int, hi as int) * limited(b as int, hi as int);
            let r = clip_mul(a, b, hi, 9) as int;
            0 <= product && 512 * r <= product < 512 * r + 512 && r <= 127
        }),
{
    let x = limited(a as int, hi as int);
    let y = limited(b as int, hi as int);
    assert(0 <= x * y <= 255 * 255) by (nonlinear_arith)
        requires
            0 <= x <= 255,
            0 <= y <= 255,
    ;
    vstd::arithmetic::power2::lemma2_to64();
    pairwise_product(a, b, hi, 9);
}

/// The clipped activation keeps what lies within `0..=127`.
pub proof fn clipped_keeps_small_values(x: i16)
    ensures
        clipped(x) == limited(x as int, 127),
{
}

/// An activation after a layer is a 64th of the sum, rounded down, within
/// `0..=127`; the squared one is a part in `2^19` of the square, up to 127, and
/// does not see the sign.
pub proof fn layer_activations(x: i32)
    ensures
        x < 0 ==> relu(x) == 0,
        0 <= x < 8192 ==> 64 * relu(x) <= x < 64 * relu(x) + 64,
        x >= 8192 ==> relu(x) == 127,
        x * x < 128 * 524288 ==> 524288 * squared_relu(x) <= x * x < 524288 * squared_relu(x)
            + 524288,
        x * x >= 128 * 524288 ==> squared_relu(x) == 127,
        x != i32::MIN ==> squared_relu((-x) as i32) == squared_relu(x),
{
    assert(0 <= x * x) by (nonlinear_arith);
    assert((-x) * (-x) == x * x) by (nonlinear_arith);
}

/// The accumulator with its two halves exchanged.
pub open spec fn halves_exchanged(acc: Seq<i16>, l1: nat) -> Seq<i16> {
    acc.subrange(l1 as int / 2, l1 as int) + acc.subrange(0, l1 as int / 2)
}

/// The pairwise activation multiplies each channel of the lower half of an
/// accumulator with the one as far into the upper half: a 512th of the product
/// of what they amount to within `0..=hi`. The mover's products come first.
pub proof fn halves_are_multiplied(mover: Seq<i16>, other: Seq<i16>, l1: nat, hi: i16, j: int)
    requires
        l1 % 2 == 0,
        mover.len() >= l1,
        other.len() >= l1,
        0 <= hi <= 255,
        0 <= j < l1 / 2,
    ensures
        ({
            let half = l1 as int / 2;
            let input = pairwise_input(mover, other, l1, hi);
            let own = limited(mover[j] as int, hi as int) * limited(
                mover[half + j] as int,
                hi as int,
            );
            let foreign = limited(other[j] as int, hi as int) * limited(
                other[half + j] as int,
                hi as int,
            );
            &&& input.len() == l1
            &&& 512 * input[j] <= own < 512 * input[j] + 512
            &&& 512 * input[half + j] <= foreign < 512 * input[half + j] + 512
        }),
{
    let half = l1 as int / 2;
    lemma_pairwise_nine(mover[j], mover[half + j], hi);
    lemma_pairwise_nine(other[j], other[half + j], hi);
}

/// Exchanging the halves of an accumulator leaves the products as they are, an
/// empty half makes all of them zero, and exchanging the players exchanges the
/// halves of the inputs.
pub proof fn halves_can_be_exchanged(mover: Seq<i16>, other: Seq<i16>, l1: nat, hi: i16)
    requires
        l1 % 2 == 0,
        mover.len() >= l1,
        other.len() >= l1,
        0 <= hi <= 255,
    ensures
        pairwise_input(halves_exchanged(mover, l1), halves_exchanged(other, l1), l1, hi)
            == pairwise_input(mover, other, l1, hi),
        (forall|j: int| l1 / 2 <= j < l1 ==> #[trigger] mover[j] <= 0) ==> forall|j: int|
            0 <= j < l1 / 2 ==> pairwise_input(mover, other, l1, hi)[j] == 0,
        pairwise_input(other, mover, l1, hi) == pairwise_input(mover, other, l1, hi).skip(
            l1 as int / 2,
        ) + pairwise_input(mover, other, l1, hi).take(l1 as int / 2),
{
    let half = l1 as int / 2;
    let input = pairwise_input(mover, other, l1, hi);
    let m = halves_exchanged(mover, l1);
    let o = halves_exchanged(other, l1);
    assert forall|j: int| 0 <= j < l1 implies pairwise_input(m, o, l1, hi)[j] == input[j] by {
        if j < half {
            pairwise_product(mover[j], mover[half + j], hi, 9);
        } else {
            pairwise_product(other[j - half], other[j], hi, 9);
        }
    }
    assert(pairwise_input(m, o, l1, hi) =~= input);
    if forall|j: int| l1 / 2 <= j < l1 ==> #[trigger] mover[j] <= 0 {
        assert forall|j: int| 0 <= j < l1 / 2 implies input[j] == 0 by {
            assert(mover[half + j] <= 0);
            pairwise_product(mover[half + j], mover[j], hi, 9);
            pairwise_product(mover[j], mover[half + j], hi, 9);
        }
    }
    assert(pairwise_input(other, mover, l1, hi) =~= input.skip(half) + input.take(half));
}

/// The clipped activation keeps every channel of both accumulators within
/// `0..=127`, the mover's before the opponent's.
pub proof fn channels_are_clipped(mover: Seq<i16>, other: Seq<i16>, l1: nat, j: int)
    requires
        0 <= j < l1,
    ensures
        clipped_input(mover, other, l1).len() == 2 * l1,
        clipped_input(mover, other, l1)[j] == limited(mover[j] as int, 127),
        clipped_input(mover, other, l1)[l1 + j] == limited(other[j] as int, 127),
{
}

/// A dot product grows by the product of what is appended, and is cut to the
/// shorter vector.
pub proof fn dot_products_add_up(a: Seq<u8>, w: Seq<i8>, x: u8, y: i8)
    ensures
        dot(Seq::empty(), w) == 0,
        dot(a, Seq::empty()) == 0,
        a.len() == w.len() ==> dot(a.push(x), w.push(y)) == dot(a, w) + x * y,
        a.len() >= w.len() ==> dot(a.push(x), w) == dot(a, w),
        a.len() <= w.len() ==> dot(a, w.push(y)) == dot(a, w),
{
    let n = overlap(a.len(), w.len());
    lemma_prefix_same(a, a.push(x), w, w.push(y), n);
    lemma_prefix_same(a, a.push(x), w, w, n);
    lemma_prefix_same(a, a, w, w.push(y), n);
}

proof fn lemma_prefix_same(a: Seq<u8>, b: Seq<u8>, v: Seq<i8>, w: Seq<i8>, n: nat)
    requires
        forall|i: int| 0 <= i < n ==> #[trigger] a[i] == b[i],
        forall|i: int| 0 <= i < n ==> #[trigger] v[i] == w[i],
    ensures
        dot_prefix(a, v, n) == dot_prefix(b, w, n),
    decreases n,
{
    if n > 0 {
        lemma_prefix_same(a, b, v, w, (n - 1) as nat);
        assert(a[n - 1] == b[n - 1] && v[n - 1] == w[n - 1]);
    }
}

} // verus!
