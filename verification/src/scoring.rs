//! How the stacks of layers and the piece-square sums make a score.

use crate::arith::{div_toward_zero, wrap32};
use crate::feature::Arch;
use crate::inference::{
    channels_are_clipped, halves_are_multiplied, is_quotient, layer_activations, limited,
    quotients_round_to_zero,
};
use crate::model::{
    affine, clipped_input, pairwise_input, relu, row_of, squared_relu, AccumulatorModel,
    BucketModel, NetworkModel,
};
use crate::simd::{dot, dot_prefix};
use crate::types::Color;
use vstd::prelude::*;

verus! {

/// Whether two numbers are the same in 32 bits.
pub open spec fn same32(x: int, y: int) -> bool {
    (x - y) % 0x1_0000_0000 == 0
}

/// The first `n` inputs, each multiplied with a weight, the weights taken from
/// place `start` on.
pub open spec fn weighed(weights: Seq<i8>, start: int, input: Seq<u8>, n: nat) -> int
    decreases n,
{
    if n == 0 {
        0
    } else {
        weighed(weights, start, input, (n - 1) as nat) + weights[start + n - 1] * input[n - 1]
    }
}

/// Whether `out` is what a dense layer makes of the first `used` inputs, with
/// `stride` weights for each output.
pub open spec fn layer(
    bias: Seq<i32>,
    weights: Seq<i8>,
    stride: int,
    input: Seq<u8>,
    used: nat,
    out: Seq<i32>,
) -> bool {
    forall|o: int|
        0 <= o < out.len() ==> same32(
            #[trigger] out[o] as int,
            bias[o] + weighed(weights, o * stride, input, used),
        )
}

/// Whether `out` is `sums` scaled down by 64, within `0..=127`.
pub open spec fn scaled_down(sums: Seq<i32>, out: Seq<u8>) -> bool {
    &&& out.len() == sums.len()
    &&& forall|i: int|
        0 <= i < out.len() ==> #[trigger] out[i] == limited(sums[i] as int / 64, 127)
}

proof fn lemma_weighed(weights: Seq<i8>, start: int, stride: int, input: Seq<u8>, n: nat)
    requires
        0 <= start,
        0 <= n <= stride,
        start + stride <= weights.len(),
    ensures
        weighed(weights, start, input, n) == dot_prefix(
            input,
            weights.subrange(start, start + stride),
            n,
        ),
    decreases n,
{
    if n > 0 {
        lemma_weighed(weights, start, stride, input, (n - 1) as nat);
        assert(weights.subrange(start, start + stride)[n - 1] == weights[start + n - 1]);
        assert(weights[start + n - 1] * input[n - 1] == input[n - 1] * weights[start + n - 1])
            by (nonlinear_arith);
    }
}

proof fn lemma_layer(
    bias: Seq<i32>,
    weights: Seq<i8>,
    stride: int,
    input: Seq<u8>,
    out: Seq<i32>,
    o: int,
)
    requires
        0 <= o < out.len(),
        input.len() <= stride,
        out.len() * stride <= weights.len(),
        layer(bias, weights, stride, input, input.len(), out),
    ensures
        out[o] == affine(bias[o], row_of(weights, o, stride), input),
{
    let start = o * stride;
    assert(0 <= start && start + stride <= out.len() * stride) by (nonlinear_arith)
        requires
            start == o * stride,
            0 <= o < out.len(),
            0 <= stride,
    ;
    lemma_weighed(weights, start, stride, input, input.len());
    assert(same32(out[o] as int, bias[o] + weighed(weights, start, input, input.len())));
    assert(row_of(weights, o, stride).len() == stride);
}

proof fn lemma_tail(
    b: BucketModel,
    middle: Seq<u8>,
    second: Seq<i32>,
    last: Seq<u8>,
    extra: int,
    result: i32,
)
    requires
        b.fc1_weight.len() == 32 * 32,
        b.fc2_weight.len() == 32,
        middle.len() <= 32,
        second.len() == 32,
        layer(b.fc1_bias, b.fc1_weight, 32, middle, middle.len(), second),
        scaled_down(second, last),
        same32(result as int, b.fc2_bias + weighed(b.fc2_weight, 0, last, 32) + extra),
    ensures
        result == wrap32(b.tail(middle) + extra),
{
    assert forall|o: int| 0 <= o < 32 implies last[o] == b.fc1(middle)[o] by {
        lemma_layer(b.fc1_bias, b.fc1_weight, 32, middle, second, o);
        layer_activations(second[o]);
    }
    assert(last =~= b.fc1(middle));
    lemma_weighed(b.fc2_weight, 0, 32, last, 32);
    assert(b.fc2_weight.subrange(0, 32) =~= b.fc2_weight);
    assert(dot(last, b.fc2_weight) == dot_prefix(last, b.fc2_weight, 32));
}

/// A run through a stack with a skipping output. The first layer has sixteen
/// outputs. Fifteen of them go on twice: a `2^19`th of their squares, at most
/// 127, and then a 64th of them, within `0..=127`. The last one skips the other
/// layers: it is added to the result in the ratio of 9600 to 8128.
pub open spec fn skipping_run(
    b: BucketModel,
    input: Seq<u8>,
    first: Seq<i32>,
    middle: Seq<u8>,
    second: Seq<i32>,
    last: Seq<u8>,
    scaled: i32,
    skip: int,
    result: i32,
) -> bool {
    &&& first.len() == 16
    &&& layer(b.fc0_bias, b.fc0_weight, input.len() as int, input, input.len(), first)
    &&& middle.len() == 30
    &&& forall|i: int|
        0 <= i < 15 ==> {
            &&& #[trigger] middle[i] == limited(first[i] * first[i] / 0x8_0000, 127)
            &&& middle[15 + i] == limited(first[i] as int / 64, 127)
        }
    &&& second.len() == 32
    &&& layer(b.fc1_bias, b.fc1_weight, 32, middle, 30, second)
    &&& scaled_down(second, last)
    &&& same32(scaled as int, 9600 * first[15])
    &&& is_quotient(scaled as int, 8128, skip)
    &&& same32(result as int, b.fc2_bias + weighed(b.fc2_weight, 0, last, 32) + skip)
}

proof fn lemma_one_quotient(x: int, d: int, p: int, q: int)
    requires
        d > 0,
        is_quotient(x, d, p),
        is_quotient(x, d, q),
    ensures
        p == q,
{
    assert(p == q) by (nonlinear_arith)
        requires
            d > 0,
            d * p - d < x < d * p + d,
            d * q - d < x < d * q + d,
            x >= 0 ==> d * p <= x && d * q <= x,
            x < 0 ==> x <= d * p && x <= d * q,
    ;
}

/// A stack with a skipping output gives the result of every run through it,
/// whatever the width and the weights.
pub proof fn skipping_stack_runs(
    b: BucketModel,
    input: Seq<u8>,
    first: Seq<i32>,
    middle: Seq<u8>,
    second: Seq<i32>,
    last: Seq<u8>,
    scaled: i32,
    skip: int,
    result: i32,
)
    requires
        b.shaped(16, input.len() as int, 32),
        skipping_run(b, input, first, middle, second, last, scaled, skip, result),
    ensures
        b.hm_stack(input) == result,
{
    let n = input.len() as int;
    let fc0 = b.fc0(16, input);
    assert forall|o: int| 0 <= o < 16 implies first[o] == fc0[o] by {
        lemma_layer(b.fc0_bias, b.fc0_weight, n, input, first, o);
    }
    let expected = Seq::new(
        30,
        |i: int|
            if i < 15 {
                squared_relu(fc0[i])
            } else {
                relu(fc0[i - 15])
            },
    );
    assert forall|i: int| 0 <= i < 30 implies middle[i] == expected[i] by {
        if i < 15 {
            layer_activations(first[i]);
        } else {
            assert(middle[i - 15] == limited(first[i - 15] * first[i - 15] / 0x8_0000, 127));
            layer_activations(first[i - 15]);
        }
    }
    assert(middle =~= expected);
    lemma_tail(b, middle, second, last, skip, result);
    quotients_round_to_zero(scaled as int, 8128);
    lemma_one_quotient(scaled as int, 8128, skip, div_toward_zero(scaled as int, 8128));
    assert(scaled == wrap32(fc0[15] * 9600));
}

/// A run through a stack without a skipping output. The outputs of the first
/// layer go on scaled down by 64, within `0..=127`, and nothing else goes on.
pub open spec fn plain_run(
    b: BucketModel,
    input: Seq<u8>,
    first: Seq<i32>,
    middle: Seq<u8>,
    second: Seq<i32>,
    last: Seq<u8>,
    result: i32,
) -> bool {
    &&& layer(b.fc0_bias, b.fc0_weight, input.len() as int, input, input.len(), first)
    &&& scaled_down(first, middle)
    &&& second.len() == 32
    &&& layer(b.fc1_bias, b.fc1_weight, 32, middle, middle.len(), second)
    &&& scaled_down(second, last)
    &&& same32(result as int, b.fc2_bias + weighed(b.fc2_weight, 0, last, 32))
}

proof fn lemma_padded(weights: Seq<i8>, start: int, a: Seq<u8>, b: Seq<u8>, n: nat)
    requires
        n <= b.len(),
        a.len() <= b.len(),
        forall|i: int| 0 <= i < b.len() ==> #[trigger] b[i] == if i < a.len() {
            a[i]
        } else {
            0
        },
    ensures
        weighed(weights, start, b, n) == weighed(
            weights,
            start,
            a,
            if n <= a.len() {
                n
            } else {
                a.len()
            },
        ),
    decreases n,
{
    if n > 0 {
        lemma_padded(weights, start, a, b, (n - 1) as nat);
        assert(b[n - 1] == if n <= a.len() {
            a[n - 1]
        } else {
            0
        });
        assert(weights[start + n - 1] * 0 == 0);
    }
}

/// A stack without a skipping output gives the result of every run through it,
/// whatever the width, the number of outputs of the first layer and the weights.
pub proof fn plain_stack_runs(
    b: BucketModel,
    out: nat,
    input: Seq<u8>,
    first: Seq<i32>,
    middle: Seq<u8>,
    second: Seq<i32>,
    last: Seq<u8>,
    result: i32,
)
    requires
        out <= 32,
        first.len() == out,
        b.shaped(out as int, input.len() as int, 32),
        plain_run(b, input, first, middle, second, last, result),
    ensures
        b.plain_stack(out, input) == result,
{
    let n = input.len() as int;
    let fc0 = b.fc0(out, input);
    assert forall|o: int| 0 <= o < out implies first[o] == fc0[o] by {
        lemma_layer(b.fc0_bias, b.fc0_weight, n, input, first, o);
    }
    let padded = Seq::new(
        32,
        |i: int|
            if i < out {
                relu(fc0[i])
            } else {
                0u8
            },
    );
    assert forall|i: int| 0 <= i < 32 implies #[trigger] padded[i] == if i < middle.len() {
        middle[i]
    } else {
        0
    } by {
        if i < out {
            assert(middle[i] == limited(first[i] as int / 64, 127));
            layer_activations(first[i]);
        }
    }
    assert forall|o: int| 0 <= o < second.len() implies same32(
        #[trigger] second[o] as int,
        b.fc1_bias[o] + weighed(b.fc1_weight, o * 32, padded, 32),
    ) by {
        lemma_padded(b.fc1_weight, o * 32, middle, padded, 32);
    }
    lemma_tail(b, padded, second, last, 0, result);
}

/// The accumulator of the player to move, and then that of the opponent.
pub open spec fn mover_first(acc: AccumulatorModel, stm: Color) -> (Seq<i16>, Seq<i16>) {
    if stm == Color::White {
        (acc.white, acc.black)
    } else {
        (acc.black, acc.white)
    }
}

/// The piece-square sum of the player to move, less that of the opponent, for
/// bucket `b`.
pub open spec fn balance(acc: AccumulatorModel, stm: Color, b: int) -> int {
    if stm == Color::White {
        acc.psqt_white[b] - acc.psqt_black[b]
    } else {
        acc.psqt_black[b] - acc.psqt_white[b]
    }
}

/// Whether `input` holds 512ths of the products of the halves of each
/// accumulator, the channels taken within `0..=hi`.
pub open spec fn products(acc: AccumulatorModel, stm: Color, l1: nat, hi: int, input: Seq<u8>)
    -> bool {
    let (mover, other) = mover_first(acc, stm);
    let half = l1 as int / 2;
    &&& input.len() == l1
    &&& forall|j: int|
        0 <= j < half ==> {
            &&& #[trigger] input[j] == limited(mover[j] as int, hi) * limited(
                mover[half + j] as int,
                hi,
            ) / 512
            &&& input[half + j] == limited(other[j] as int, hi) * limited(
                other[half + j] as int,
                hi,
            ) / 512
        }
}

/// Whether `input` holds the channels of both accumulators, within `0..=127`.
pub open spec fn channels(acc: AccumulatorModel, stm: Color, l1: nat, input: Seq<u8>) -> bool {
    let (mover, other) = mover_first(acc, stm);
    &&& input.len() == 2 * l1
    &&& forall|j: int|
        0 <= j < l1 ==> {
            &&& #[trigger] input[j] == limited(mover[j] as int, 127)
            &&& input[l1 + j] == limited(other[j] as int, 127)
        }
}

proof fn lemma_products(acc: AccumulatorModel, stm: Color, l1: nat, hi: i16, input: Seq<u8>)
    requires
        l1 % 2 == 0,
        acc.white.len() >= l1,
        acc.black.len() >= l1,
        0 <= hi <= 255,
        products(acc, stm, l1, hi as int, input),
    ensures
        input == pairwise_input(acc.acc(stm), acc.acc(stm.flipped()), l1, hi),
{
    let (mover, other) = mover_first(acc, stm);
    let half = l1 as int / 2;
    let expected = pairwise_input(acc.acc(stm), acc.acc(stm.flipped()), l1, hi);
    assert forall|i: int| 0 <= i < l1 implies input[i] == expected[i] by {
        let j = if i < half {
            i
        } else {
            i - half
        };
        assert(input[j] == limited(mover[j] as int, hi as int) * limited(
            mover[half + j] as int,
            hi as int,
        ) / 512);
        halves_are_multiplied(mover, other, l1, hi, j);
    }
    assert(input =~= expected);
}

proof fn lemma_channels(acc: AccumulatorModel, stm: Color, l1: nat, input: Seq<u8>)
    requires
        channels(acc, stm, l1, input),
    ensures
        input == clipped_input(acc.acc(stm), acc.acc(stm.flipped()), l1),
{
    let (mover, other) = mover_first(acc, stm);
    let expected = clipped_input(acc.acc(stm), acc.acc(stm.flipped()), l1);
    assert forall|i: int| 0 <= i < 2 * l1 implies input[i] == expected[i] by {
        let j = if i < l1 {
            i
        } else {
            i - l1
        };
        assert(input[j] == limited(mover[j] as int, 127));
        channels_are_clipped(mover, other, l1, j);
    }
    assert(input =~= expected);
}

proof fn lemma_psqt(
    net: NetworkModel,
    acc: AccumulatorModel,
    stm: Color,
    b: int,
    material: i32,
    half: int,
)
    requires
        0 <= b < 8,
        4 * b < acc.piece_count <= 4 * b + 4,
        same32(material as int, balance(acc, stm, b)),
        is_quotient(material as int, 2, half),
    ensures
        net.psqt_score(acc, stm) == half,
        net.bucket_for(acc.piece_count) == net.buckets[b],
{
    assert((acc.piece_count - 1) / 4 == b);
    assert(material == wrap32(balance(acc, stm, b)));
    quotients_round_to_zero(material as int, 2);
}

/// The score of the architectures with pairwise activation: a 16th of half the
/// piece-square balance, and a 16th of what the stack makes of the products.
/// There is a stack, and a piece-square balance, for up to four pieces, one for
/// up to eight, and so on. With attack features channels count up to 255,
/// without up to 254.
pub proof fn pairwise_scores(
    net: NetworkModel,
    acc: AccumulatorModel,
    stm: Color,
    b: int,
    input: Seq<u8>,
    material: i32,
    half: int,
    material_part: int,
    stack_part: int,
)
    requires
        net.wf(),
        net.scorable(acc),
        net.arch == Arch::HalfKAv2Hm || net.arch == Arch::Sfnnv10,
        0 <= b < 8,
        4 * b < acc.piece_count <= 4 * b + 4,
        products(
            acc,
            stm,
            net.l1,
            if net.arch == Arch::Sfnnv10 {
                255
            } else {
                254
            },
            input,
        ),
        same32(material as int, balance(acc, stm, b)),
        is_quotient(material as int, 2, half),
        is_quotient(half, 16, material_part),
        is_quotient(net.buckets[b].hm_stack(input) as int, 16, stack_part),
    ensures
        net.score(acc, stm) == material_part + stack_part,
{
    lemma_psqt(net, acc, stm, b, material, half);
    lemma_products(
        acc,
        stm,
        net.l1,
        if net.arch == Arch::Sfnnv10 {
            255
        } else {
            254
        },
        input,
    );
    quotients_round_to_zero(half, 16);
    quotients_round_to_zero(net.buckets[b].hm_stack(input) as int, 16);
}

/// The score of the unmirrored king-relative architecture: a 16th of the sum of
/// half the piece-square balance and of what the stack makes of the channels.
pub proof fn unmirrored_scores(
    net: NetworkModel,
    acc: AccumulatorModel,
    stm: Color,
    b: int,
    input: Seq<u8>,
    material: i32,
    half: int,
    sum: i32,
    score: int,
)
    requires
        net.wf(),
        net.scorable(acc),
        net.arch == Arch::HalfKAv2,
        0 <= b < 8,
        4 * b < acc.piece_count <= 4 * b + 4,
        channels(acc, stm, net.l1, input),
        same32(material as int, balance(acc, stm, b)),
        is_quotient(material as int, 2, half),
        same32(sum as int, half + net.buckets[b].plain_stack(16, input)),
        is_quotient(sum as int, 16, score),
    ensures
        net.score(acc, stm) == score,
{
    lemma_psqt(net, acc, stm, b, material, half);
    lemma_channels(acc, stm, net.l1, input);
    quotients_round_to_zero(sum as int, 16);
    assert(sum == wrap32(half + net.buckets[b].plain_stack(16, input)));
}

/// The score of a HalfKP network: a 16th of what its only stack makes of the
/// channels.
pub proof fn halfkp_scores(
    net: NetworkModel,
    acc: AccumulatorModel,
    stm: Color,
    input: Seq<u8>,
    score: int,
)
    requires
        net.wf(),
        net.scorable(acc),
        net.arch == Arch::HalfKP,
        channels(acc, stm, net.l1, input),
        is_quotient(net.buckets[0].plain_stack(32, input) as int, 16, score),
    ensures
        net.score(acc, stm) == score,
{
    lemma_channels(acc, stm, net.l1, input);
    quotients_round_to_zero(net.buckets[0].plain_stack(32, input) as int, 16);
}

} // verus!
