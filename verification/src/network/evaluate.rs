//! From accumulators to a score.

use super::{bucket_models, Accumulator, Bucket, Layers, Network};
use crate::arith::{add32, clamp_i32, div32, lemma_wrap32_step, mul32, sub32};
use crate::feature::Arch;
use crate::model::{affine, clipped_input, pairwise_input, relu, row_of, squared_relu};
use crate::simd::{clip_u8, dot, dot_u8_i8, pairwise_clip_mul};
use crate::types::{Board, Color};
use vstd::prelude::*;
use vstd::slice::slice_subrange;

verus! {

/// The activation after a dense layer.
fn activate(x: i32) -> (r: u8)
    ensures
        r == relu(x),
{
    assert(64 * (x >> 6u32) <= x < 64 * (x >> 6u32) + 64) by (bit_vector);
    clamp_i32(x >> 6, 0, 127) as u8
}

/// The squared activation.
fn activate_squared(x: i32) -> (r: u8)
    ensures
        r == squared_relu(x),
{
    let wide: i64 = x as i64;
    assert(0 <= wide * wide <= 0x4000_0000_0000_0000) by (nonlinear_arith)
        requires
            -0x8000_0000 <= wide <= 0x7fff_ffff,
    ;
    let scaled: i64 = wide * wide / 524288;
    if scaled > 127 {
        127
    } else {
        scaled as u8
    }
}

/// One output of a dense layer.
fn layer_output(bias: i32, row: &[i8], input: &[u8]) -> (r: i32)
    ensures
        r == affine(bias, row@, input@),
{
    let sum: i32 = dot_u8_i8(input, row);
    proof {
        lemma_wrap32_step(dot(input@, row@), bias as int);
    }
    add32(bias, sum)
}

/// Row `o` of a table with `n` weights to a row.
fn weight_row(weights: &[i8], o: usize, n: usize, rows: usize) -> (r: &[i8])
    requires
        o < rows,
        weights@.len() == rows * n,
    ensures
        r@ == row_of(weights@, o as int, n as int),
{
    assert(0 <= o * n <= o * n + n <= rows * n) by (nonlinear_arith)
        requires
            0 <= o < rows,
            0 <= n,
    ;
    assert(o * n + n <= weights.len());
    let base: usize = o * n;
    slice_subrange(weights, base, base + n)
}

impl Bucket {
    /// One output of the first layer, before its activation.
    fn fc0_output(&self, o: usize, input: &[u8], rows: usize) -> (r: i32)
        requires
            o < rows,
            self@.shaped(rows as int, input@.len() as int, 32),
        ensures
            r == affine(
                self@.fc0_bias[o as int],
                row_of(self@.fc0_weight, o as int, input@.len() as int),
                input@,
            ),
    {
        layer_output(
            self.fc0_bias[o],
            weight_row(self.fc0_weight.as_slice(), o, input.len(), rows),
            input,
        )
    }

    /// The last two layers.
    fn run_tail(&self, input: &[u8]) -> (r: i32)
        requires
            self@.fc1_bias.len() == 32,
            self@.fc1_weight.len() == 32 * 32,
        ensures
            r == self@.tail(input@),
    {
        let mut fc1: [u8; 32] = [0u8; 32];
        let mut o: usize = 0;
        while o < 32
            invariant
                o <= 32,
                self@.fc1_bias.len() == 32,
                self@.fc1_weight.len() == 32 * 32,
                forall|k: int| 0 <= k < o ==> fc1@[k] == self@.fc1(input@)[k],
            decreases 32 - o,
        {
            let sum: i32 = layer_output(
                self.fc1_bias[o],
                weight_row(self.fc1_weight.as_slice(), o, 32, 32),
                input,
            );
            fc1[o] = activate(sum);
            o = o + 1;
        }
        assert(fc1@ =~= self@.fc1(input@));
        layer_output(self.fc2_bias, self.fc2_weight.as_slice(), fc1.as_slice())
    }

    /// The stack with squared and clipped outputs and one that is added to the
    /// result.
    fn run_hm_stack(&self, input: &[u8]) -> (r: i32)
        requires
            self@.shaped(16, input@.len() as int, 32),
        ensures
            r == self@.hm_stack(input@),
    {
        let ghost fc0 = self@.fc0(16, input@);
        let mut fc0_out: [i32; 16] = [0i32; 16];
        let mut o: usize = 0;
        while o < 16
            invariant
                o <= 16,
                self@.shaped(16, input@.len() as int, 32),
                fc0 == self@.fc0(16, input@),
                forall|k: int| 0 <= k < o ==> fc0_out@[k] == fc0[k],
            decreases 16 - o,
        {
            fc0_out[o] = self.fc0_output(o, input, 16);
            o = o + 1;
        }
        let ghost middle = Seq::new(
            30,
            |i: int|
                if i < 15 {
                    squared_relu(fc0[i])
                } else {
                    relu(fc0[i - 15])
                },
        );
        let mut concat: [u8; 30] = [0u8; 30];
        let mut i: usize = 0;
        while i < 15
            invariant
                i <= 15,
                forall|k: int| 0 <= k < 16 ==> fc0_out@[k] == fc0[k],
                middle == Seq::new(
                    30,
                    |i: int|
                        if i < 15 {
                            squared_relu(fc0[i])
                        } else {
                            relu(fc0[i - 15])
                        },
                ),
                forall|k: int| 0 <= k < i ==> concat@[k] == middle[k],
                forall|k: int| 15 <= k < 15 + i ==> concat@[k] == middle[k],
            decreases 15 - i,
        {
            concat[i] = activate_squared(fc0_out[i]);
            concat[15 + i] = activate(fc0_out[i]);
            i = i + 1;
        }
        assert(concat@ =~= middle);
        let fc2: i32 = self.run_tail(concat.as_slice());
        let fwd_out: i32 = div32(mul32(fc0_out[15], 9600), 8128);
        add32(fc2, fwd_out)
    }

    /// The stack whose first layer has `out` clipped outputs, padded to 32.
    fn run_plain_stack(&self, input: &[u8], out: usize) -> (r: i32)
        requires
            out <= 32,
            self@.shaped(out as int, input@.len() as int, 32),
        ensures
            r == self@.plain_stack(out as nat, input@),
    {
        let ghost padded = Seq::new(
            32,
            |i: int|
                if i < out {
                    relu(self@.fc0(out as nat, input@)[i])
                } else {
                    0u8
                },
        );
        let mut fc0: [u8; 32] = [0u8; 32];
        let mut o: usize = 0;
        while o < out
            invariant
                o <= out <= 32,
                self@.shaped(out as int, input@.len() as int, 32),
                padded == Seq::new(
                    32,
                    |i: int|
                        if i < out {
                            relu(self@.fc0(out as nat, input@)[i])
                        } else {
                            0u8
                        },
                ),
                forall|k: int| 0 <= k < o ==> fc0@[k] == padded[k],
                forall|k: int| o <= k < 32 ==> fc0@[k] == 0,
            decreases out - o,
        {
            let sum: i32 = self.fc0_output(o, input, out);
            fc0[o] = activate(sum);
            o = o + 1;
        }
        assert(fc0@ =~= padded);
        self.run_tail(fc0.as_slice())
    }
}

impl Network {
    fn evaluate_hm_style(
        &self,
        acc: &Accumulator,
        stm: Color,
        hi: i16,
        buckets: &[Bucket],
    ) -> (r: i32)
        requires
            self@.scorable(acc@),
            self@.arch == Arch::Sfnnv10 || self@.arch == Arch::HalfKAv2Hm,
            0 <= hi,
            bucket_models(buckets@) == self@.buckets,
        ensures
            r == self@.pairwise_score(acc@, stm, hi),
    {
        proof {
            use_type_invariant(self);
        }
        let (psqt_stm, psqt_opp) = match stm {
            Color::White => (&acc.psqt_white, &acc.psqt_black),
            Color::Black => (&acc.psqt_black, &acc.psqt_white),
        };
        let input: Vec<u8> = self.pairwise_inputs(acc, stm, hi);
        assert(input@.take(input@.len() as int) =~= input@);
        let bucket: usize = (acc.piece_count - 1) / 4;
        let psqt: i32 = div32(sub32(psqt_stm[bucket], psqt_opp[bucket]), 2);
        assert(self@.buckets[bucket as int] == buckets@[bucket as int]@);
        let positional: i32 = self.propagate_hm_stack(
            input.as_slice(),
            &buckets[bucket],
        );
        assert(psqt == self@.psqt_score(acc@, stm));
        div32(psqt, 16) + div32(positional, 16)
    }

    fn evaluate_halfka_v2(&self, acc: &Accumulator, stm: Color, buckets: &[Bucket]) -> (r: i32)
        requires
            self@.scorable(acc@),
            self@.arch == Arch::HalfKAv2,
            bucket_models(buckets@) == self@.buckets,
        ensures
            r == self@.score(acc@, stm),
    {
        proof {
            use_type_invariant(self);
        }
        let (psqt_stm, psqt_opp) = match stm {
            Color::White => (&acc.psqt_white, &acc.psqt_black),
            Color::Black => (&acc.psqt_black, &acc.psqt_white),
        };
        let input: Vec<u8> = self.clipped_inputs(acc, stm);
        assert(input@.take(input@.len() as int) =~= input@);
        let bucket: usize = (acc.piece_count - 1) / 4;
        let psqt: i32 = div32(sub32(psqt_stm[bucket], psqt_opp[bucket]), 2);
        assert(self@.buckets[bucket as int] == buckets@[bucket as int]@);
        let positional: i32 = self.propagate_halfka_v2(
            input.as_slice(),
            &buckets[bucket],
        );
        div32(add32(psqt, positional), 16)
    }

    fn evaluate_halfkp(&self, acc: &Accumulator, stm: Color, bucket: &Bucket) -> (r: i32)
        requires
            self@.scorable(acc@),
            self@.arch == Arch::HalfKP,
            seq![bucket@] == self@.buckets,
        ensures
            r == self@.score(acc@, stm),
    {
        proof {
            use_type_invariant(self);
        }
        let input: Vec<u8> = self.clipped_inputs(acc, stm);
        assert(input@.take(input@.len() as int) =~= input@);
        assert(self@.buckets[0] == bucket@);
        div32(self.propagate_halfkp(input.as_slice(), bucket), 16)
    }

    /// The stack of the architectures with pairwise activation. It reads the
    /// first `l1` inputs.
    fn propagate_hm_stack(&self, input: &[u8], b: &Bucket) -> (r: i32)
        requires
            self@.l1 <= input@.len(),
            b@.shaped(16, self@.l1 as int, 32),
        ensures
            r == b@.hm_stack(input@.take(self@.l1 as int)),
    {
        b.run_hm_stack(slice_subrange(input, 0, self.l1))
    }

    /// The stack of the unmirrored king-relative architecture. It reads the
    /// first `2 * l1` inputs.
    fn propagate_halfka_v2(&self, input: &[u8], b: &Bucket) -> (r: i32)
        requires
            2 * self@.l1 <= input@.len(),
            b@.shaped(16, 2 * self@.l1 as int, 32),
        ensures
            r == b@.plain_stack(16, input@.take(2 * self@.l1 as int)),
    {
        assert(2 * self.l1 <= input.len());
        b.run_plain_stack(slice_subrange(input, 0, 2 * self.l1), 16)
    }

    /// The stack of the HalfKP architecture. It reads the first `2 * l1` inputs.
    fn propagate_halfkp(&self, input: &[u8], b: &Bucket) -> (r: i32)
        requires
            2 * self@.l1 <= input@.len(),
            b@.shaped(32, 2 * self@.l1 as int, 32),
        ensures
            r == b@.plain_stack(32, input@.take(2 * self@.l1 as int)),
    {
        assert(2 * self.l1 <= input.len());
        b.run_plain_stack(slice_subrange(input, 0, 2 * self.l1), 32)
    }

    /// The layer inputs of the pairwise activation.
    fn pairwise_inputs(&self, acc: &Accumulator, stm: Color, hi: i16) -> (r: Vec<u8>)
        requires
            self@.scorable(acc@),
            0 <= hi,
        ensures
            r@ == pairwise_input(acc@.acc(stm), acc@.acc(stm.flipped()), self@.l1, hi),
    {
        proof {
            use_type_invariant(self);
        }
        let (acc_stm, acc_opp) = match stm {
            Color::White => (&acc.white, &acc.black),
            Color::Black => (&acc.black, &acc.white),
        };
        let mut input: Vec<u8> = vec![0u8; self.l1];
        let half: usize = self.l1 / 2;
        {
            let (in0, in1) = input.as_mut_slice().split_at_mut(half);
            pairwise_clip_mul(
                slice_subrange(acc_stm.as_slice(), 0, half),
                slice_subrange(acc_stm.as_slice(), half, acc_stm.len()),
                in0,
                hi,
                9,
            );
            pairwise_clip_mul(
                slice_subrange(acc_opp.as_slice(), 0, half),
                slice_subrange(acc_opp.as_slice(), half, acc_opp.len()),
                in1,
                hi,
                9,
            );
        }
        assert(input@ =~= pairwise_input(
            acc@.acc(stm),
            acc@.acc(stm.flipped()),
            self@.l1,
            hi,
        ));
        input
    }

    /// The layer inputs of the clipped activation.
    fn clipped_inputs(&self, acc: &Accumulator, stm: Color) -> (r: Vec<u8>)
        requires
            self@.scorable(acc@),
        ensures
            r@ == clipped_input(acc@.acc(stm), acc@.acc(stm.flipped()), self@.l1),
    {
        proof {
            use_type_invariant(self);
        }
        let (acc_stm, acc_opp) = match stm {
            Color::White => (&acc.white, &acc.black),
            Color::Black => (&acc.black, &acc.white),
        };
        let mut input: Vec<u8> = vec![0u8; 2 * self.l1];
        {
            let (in0, in1) = input.as_mut_slice().split_at_mut(self.l1);
            clip_u8(acc_stm.as_slice(), in0);
            clip_u8(acc_opp.as_slice(), in1);
        }
        assert(input@ =~= clipped_input(acc@.acc(stm), acc@.acc(stm.flipped()), self@.l1));
        input
    }

    /// Evaluates a ready accumulator for the given side to move.
    ///
    /// Returns an internal score in roughly centipawn-scaled units from `stm`'s
    /// perspective. `stm` is passed separately so the same accumulator can be
    /// reused across a null move (which flips the side to move without changing
    /// any features).
    pub fn evaluate_accumulator(&self, acc: &Accumulator, stm: Color) -> (r: i32)
        requires
            self@.scorable(acc@),
        ensures
            r == self@.score(acc@, stm),
    {
        proof {
            use_type_invariant(self);
        }
        match &self.layers {
            Layers::Sfnnv10 { buckets, .. } => self.evaluate_hm_style(
                acc,
                stm,
                255,
                buckets.as_slice(),
            ),
            Layers::HalfKAv2Hm { buckets, .. } => self.evaluate_hm_style(
                acc,
                stm,
                254,
                buckets.as_slice(),
            ),
            Layers::HalfKAv2 { buckets, .. } => self.evaluate_halfka_v2(
                acc,
                stm,
                buckets.as_slice(),
            ),
            Layers::HalfKP(bucket) => self.evaluate_halfkp(acc, stm, bucket),
        }
    }

    /// Evaluates a position directly, computing a fresh accumulator.
    ///
    /// This is the simple, stateless entry point used by both the FEN and trait
    /// integration styles. For a search, prefer the incremental
    /// [`Network::accumulator`] + [`Network::update`] path.
    pub fn evaluate(&self, board: &impl Board) -> (r: i32)
        requires
            board.position().valid(),
            self@.arch != Arch::HalfKP ==> 1 <= self@.piece_count(board.position()) <= 32,
        ensures
            r == self@.score(
                self@.fresh(board.position(), Seq::empty()),
                board.position().stm,
            ),
    {
        let acc = self.accumulator(board);
        self.evaluate_accumulator(&acc, board.side_to_move())
    }
}

} // verus!
