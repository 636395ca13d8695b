//! Filling and updating accumulators.

use super::{Accumulator, Network};
use crate::arith::wrap32;
use crate::feature::Arch;
use crate::laws::{is_step, sums_squares, update_is_refresh};
use crate::model::{
    at_most, board_difference, changed, difference_upto, differences_on_board, no_psqt,
    occupied_upto, shifted16, shifted32, shifts_add_up, AccumulatorModel,
};
use crate::simd::{add_i16, add_i8_i16, sub_i16, sub_i8_i16};
use crate::threats::{
    board_codes, pair_list, pairs_valid_and_sorted, threat_index, threat_pairs, unpack_pair,
    valid_codes, valid_pair, PosInfo, EXCLUDED, THREAT_DIMENSIONS,
};
use crate::types::{piece_at, Board, Color, Piece, PieceKind, Position};
use vstd::prelude::*;
use vstd::slice::slice_subrange;

verus! {

/// The row of a feature lies within a table of `dims` rows.
proof fn lemma_row_in_table(feature: int, width: int, dims: int)
    requires
        0 <= feature < dims,
        0 <= width,
    ensures
        0 <= feature * width,
        feature * width + width <= dims * width,
        feature * width + width <= width * dims,
{
    assert(feature * width >= 0) by (nonlinear_arith)
        requires
            0 <= feature,
            0 <= width,
    ;
    assert(feature * width + width <= dims * width) by (nonlinear_arith)
        requires
            0 <= feature < dims,
            0 <= width,
    ;
    assert(dims * width == width * dims) by (nonlinear_arith);
}

/// Copies `src` into `dst`.
fn copy_row(dst: &mut [i16], src: &[i16])
    requires
        old(dst)@.len() == src@.len(),
    ensures
        final(dst)@ == src@,
{
    let mut i: usize = 0;
    while i < src.len()
        invariant
            i <= src@.len(),
            dst@.len() == src@.len(),
            forall|k: int| 0 <= k < i ==> dst@[k] == src@[k],
        decreases src.len() - i,
    {
        dst[i] = src[i];
        i = i + 1;
    }
    assert(dst@ =~= src@);
}

/// Adds row `feature` of a piece-square table.
fn add_psqt(psqt: &mut [i32; 8], table: &[i32], feature: usize)
    requires
        8 * feature + 8 <= table@.len(),
    ensures
        final(psqt)@ == Seq::new(8, |b: int| wrap32(old(psqt)@[b] + table@[8 * feature + b])),
{
    assert(8 * feature + 8 <= table.len());
    let base: usize = 8 * feature;
    let mut b: usize = 0;
    while b < 8
        invariant
            b <= 8,
            base == 8 * feature,
            base + 8 <= table@.len(),
            forall|k: int| 0 <= k < b ==> psqt@[k] == wrap32(old(psqt)@[k] + table@[base + k]),
            forall|k: int| b <= k < 8 ==> psqt@[k] == old(psqt)@[k],
        decreases 8 - b,
    {
        assert(base + 8 <= table.len());
        let v: i32 = psqt[b].wrapping_add(table[base + b]);
        psqt[b] = v;
        b = b + 1;
    }
    assert(psqt@ =~= Seq::new(8, |b: int| wrap32(old(psqt)@[b] + table@[8 * feature + b])));
}

/// Subtracts row `feature` of a piece-square table.
fn sub_psqt(psqt: &mut [i32; 8], table: &[i32], feature: usize)
    requires
        8 * feature + 8 <= table@.len(),
    ensures
        final(psqt)@ == Seq::new(8, |b: int| wrap32(old(psqt)@[b] - table@[8 * feature + b])),
{
    assert(8 * feature + 8 <= table.len());
    let base: usize = 8 * feature;
    let mut b: usize = 0;
    while b < 8
        invariant
            b <= 8,
            base == 8 * feature,
            base + 8 <= table@.len(),
            forall|k: int| 0 <= k < b ==> psqt@[k] == wrap32(old(psqt)@[k] - table@[base + k]),
            forall|k: int| b <= k < 8 ==> psqt@[k] == old(psqt)@[k],
        decreases 8 - b,
    {
        assert(base + 8 <= table.len());
        let v: i32 = psqt[b].wrapping_sub(table[base + b]);
        psqt[b] = v;
        b = b + 1;
    }
    assert(psqt@ =~= Seq::new(8, |b: int| wrap32(old(psqt)@[b] - table@[8 * feature + b])));
}

impl Network {
    /// Adds the weights of a piece feature to an accumulator.
    fn add_feature(&self, feature: usize, acc: &mut [i16], psqt: &mut [i32; 8])
        requires
            feature < self@.arch.dimensions(),
            old(acc)@.len() == self@.l1,
        ensures
            final(acc)@ == shifted16(
                old(acc)@,
                |c: int| self@.piece_weight(feature as int, c),
            ),
            final(psqt)@ == shifted32(
                old(psqt)@,
                self@.l1,
                |c: int| self@.piece_weight(feature as int, c),
            ),
    {
        proof {
            use_type_invariant(self);
            lemma_row_in_table(feature as int, self@.l1 as int, self@.arch.dimensions());
        }
        let base: usize = feature * self.l1;
        add_i16(acc, slice_subrange(self.ft_weight.as_slice(), base, base + self.l1));
        assert(acc@ =~= shifted16(old(acc)@, |c: int| self@.piece_weight(feature as int, c)));
        let ft_psqt = self.ft_psqt();
        if ft_psqt.len() != 0 {
            add_psqt(psqt, ft_psqt, feature);
        }
        assert(psqt@ =~= shifted32(
            old(psqt)@,
            self@.l1,
            |c: int| self@.piece_weight(feature as int, c),
        ));
    }

    /// Subtracts the weights of a piece feature from an accumulator.
    fn sub_feature(&self, feature: usize, acc: &mut [i16], psqt: &mut [i32; 8])
        requires
            feature < self@.arch.dimensions(),
            old(acc)@.len() == self@.l1,
        ensures
            final(acc)@ == shifted16(
                old(acc)@,
                |c: int| -self@.piece_weight(feature as int, c),
            ),
            final(psqt)@ == shifted32(
                old(psqt)@,
                self@.l1,
                |c: int| -self@.piece_weight(feature as int, c),
            ),
    {
        proof {
            use_type_invariant(self);
            lemma_row_in_table(feature as int, self@.l1 as int, self@.arch.dimensions());
        }
        let base: usize = feature * self.l1;
        sub_i16(acc, slice_subrange(self.ft_weight.as_slice(), base, base + self.l1));
        assert(acc@ =~= shifted16(old(acc)@, |c: int| -self@.piece_weight(feature as int, c)));
        let ft_psqt = self.ft_psqt();
        if ft_psqt.len() != 0 {
            sub_psqt(psqt, ft_psqt, feature);
        }
        assert(psqt@ =~= shifted32(
            old(psqt)@,
            self@.l1,
            |c: int| -self@.piece_weight(feature as int, c),
        ));
    }

    /// Adds the weights of an attack to an accumulator, if it is a feature.
    fn add_pair(
        &self,
        color: Color,
        king_square: u8,
        pair: u32,
        acc: &mut [i16],
        psqt: &mut [i32; 8],
    )
        requires
            self@.arch == Arch::Sfnnv10,
            valid_pair(pair),
            old(acc)@.len() == self@.l1,
        ensures
            final(acc)@ == shifted16(
                old(acc)@,
                |c: int| self@.pair_weight(color, king_square, pair, c),
            ),
            final(psqt)@ == shifted32(
                old(psqt)@,
                self@.l1,
                |c: int| self@.pair_weight(color, king_square, pair, c),
            ),
    {
        proof {
            use_type_invariant(self);
        }
        let (from, to, attacker, attacked) = unpack_pair(pair);
        let feature: u32 = threat_index(color, attacker, from, to, attacked, king_square);
        if feature < EXCLUDED {
            let (threat_weight, threat_psqt) = self.threat_tables();
            proof {
                lemma_row_in_table(feature as int, self@.l1 as int, THREAT_DIMENSIONS as int);
            }
            let base: usize = feature as usize * self.l1;
            add_i8_i16(acc, slice_subrange(threat_weight, base, base + self.l1));
            add_psqt(psqt, threat_psqt, feature as usize);
        }
        assert(acc@ =~= shifted16(
            old(acc)@,
            |c: int| self@.pair_weight(color, king_square, pair, c),
        ));
        assert(psqt@ =~= shifted32(
            old(psqt)@,
            self@.l1,
            |c: int| self@.pair_weight(color, king_square, pair, c),
        ));
    }

    /// Subtracts the weights of an attack from an accumulator, if it is a feature.
    fn sub_pair(
        &self,
        color: Color,
        king_square: u8,
        pair: u32,
        acc: &mut [i16],
        psqt: &mut [i32; 8],
    )
        requires
            self@.arch == Arch::Sfnnv10,
            valid_pair(pair),
            old(acc)@.len() == self@.l1,
        ensures
            final(acc)@ == shifted16(
                old(acc)@,
                |c: int| -self@.pair_weight(color, king_square, pair, c),
            ),
            final(psqt)@ == shifted32(
                old(psqt)@,
                self@.l1,
                |c: int| -self@.pair_weight(color, king_square, pair, c),
            ),
    {
        proof {
            use_type_invariant(self);
        }
        let (from, to, attacker, attacked) = unpack_pair(pair);
        let feature: u32 = threat_index(color, attacker, from, to, attacked, king_square);
        if feature < EXCLUDED {
            let (threat_weight, threat_psqt) = self.threat_tables();
            proof {
                lemma_row_in_table(feature as int, self@.l1 as int, THREAT_DIMENSIONS as int);
            }
            let base: usize = feature as usize * self.l1;
            sub_i8_i16(acc, slice_subrange(threat_weight, base, base + self.l1));
            sub_psqt(psqt, threat_psqt, feature as usize);
        }
        assert(acc@ =~= shifted16(
            old(acc)@,
            |c: int| -self@.pair_weight(color, king_square, pair, c),
        ));
        assert(psqt@ =~= shifted32(
            old(psqt)@,
            self@.l1,
            |c: int| -self@.pair_weight(color, king_square, pair, c),
        ));
    }

    /// Sets an accumulator to the biases.
    fn clear_side(&self, acc: &mut [i16], psqt: &mut [i32; 8])
        requires
            old(acc)@.len() == self@.l1,
        ensures
            final(acc)@ == shifted16(self@.ft_bias, |c: int| 0),
            final(psqt)@ == shifted32(no_psqt(), self@.l1, |c: int| 0),
    {
        proof {
            use_type_invariant(self);
        }
        copy_row(acc, self.ft_bias.as_slice());
        *psqt = [0i32; 8];
        assert(acc@ =~= shifted16(self@.ft_bias, |c: int| 0));
        assert(psqt@ =~= shifted32(no_psqt(), self@.l1, |c: int| 0));
    }

    /// Sets an accumulator to the biases and the rows of the listed features.
    fn accumulate(&self, indices: &[usize], acc: &mut [i16], psqt: &mut [i32; 8])
        requires
            old(acc)@.len() == self@.l1,
            forall|i: int|
                0 <= i < indices@.len() ==> (#[trigger] indices@[i]) < self@.arch.dimensions(),
        ensures
            final(acc)@ == shifted16(self@.ft_bias, |c: int| self@.rows_total(indices@, c)),
            final(psqt)@ == shifted32(
                no_psqt(),
                self@.l1,
                |c: int| self@.rows_total(indices@, c),
            ),
    {
        self.clear_side(acc, psqt);
        proof {
            use_type_invariant(self);
            assert(shifted16(self@.ft_bias, |c: int| 0) =~= shifted16(
                self@.ft_bias,
                |c: int| self@.rows_total(indices@.take(0), c),
            ));
            assert(shifted32(no_psqt(), self@.l1, |c: int| 0) =~= shifted32(
                no_psqt(),
                self@.l1,
                |c: int| self@.rows_total(indices@.take(0), c),
            ));
        }
        let mut i: usize = 0;
        while i < indices.len()
            invariant
                i <= indices@.len(),
                self@.ft_bias.len() == self@.l1,
                forall|k: int|
                    0 <= k < indices@.len() ==> (#[trigger] indices@[k])
                        < self@.arch.dimensions(),
                acc@ == shifted16(
                    self@.ft_bias,
                    |c: int| self@.rows_total(indices@.take(i as int), c),
                ),
                psqt@ == shifted32(
                    no_psqt(),
                    self@.l1,
                    |c: int| self@.rows_total(indices@.take(i as int), c),
                ),
            decreases indices.len() - i,
        {
            let feature: usize = indices[i];
            self.add_feature(feature, acc, psqt);
            proof {
                assert(indices@.take(i + 1).drop_last() =~= indices@.take(i as int));
                assert(indices@.take(i + 1).last() == feature);
                shifts_add_up(
                    self@.ft_bias,
                    no_psqt(),
                    self@.l1,
                    |c: int| self@.rows_total(indices@.take(i as int), c),
                    |c: int| self@.piece_weight(feature as int, c),
                    |c: int| self@.rows_total(indices@.take(i + 1), c),
                );
            }
            i = i + 1;
        }
        assert(indices@.take(i as int) =~= indices@);
    }

    /// Recomputes the accumulator of one perspective from the list of pieces.
    fn refresh_side(
        &self,
        board: &impl Board,
        color: Color,
        acc: &mut [i16],
        psqt: &mut [i32; 8],
    )
        requires
            self@.arch != Arch::Sfnnv10,
            board.position().valid(),
            old(acc)@.len() == self@.l1,
        ensures
            final(acc)@ == self@.fresh_acc(color, board.position()),
            final(psqt)@ == self@.fresh_psqt(color, board.position()),
    {
        let mut indices: Vec<usize> = Vec::new();
        self.arch.active_indices(board, color, &mut indices);
        self.accumulate(indices.as_slice(), acc, psqt);
        assert(acc@ =~= self@.fresh_acc(color, board.position()));
        assert(psqt@ =~= self@.fresh_psqt(color, board.position()));
    }

    /// Recomputes the accumulator of one perspective from the pieces on the
    /// squares and the attacks among them.
    fn refresh_side_v10(
        &self,
        pos: &PosInfo,
        color: Color,
        pairs: &[u32],
        acc: &mut [i16],
        psqt: &mut [i32; 8],
    )
        requires
            self@.arch == Arch::Sfnnv10,
            valid_codes(pos.piece_on@),
            pos.kings@[color.ordinal()] < 64,
            forall|i: int| 0 <= i < pairs@.len() ==> valid_pair(#[trigger] pairs@[i]),
            old(acc)@.len() == self@.l1,
        ensures
            final(acc)@ == shifted16(
                self@.ft_bias,
                |c: int|
                    self@.squares_total(
                        color,
                        pos.kings@[color.ordinal()],
                        pos.piece_on@,
                        64,
                        c,
                    ) + self@.pairs_total(color, pos.kings@[color.ordinal()], pairs@, c),
            ),
            final(psqt)@ == shifted32(
                no_psqt(),
                self@.l1,
                |c: int|
                    self@.squares_total(
                        color,
                        pos.kings@[color.ordinal()],
                        pos.piece_on@,
                        64,
                        c,
                    ) + self@.pairs_total(color, pos.kings@[color.ordinal()], pairs@, c),
            ),
    {
        let ksq: u8 = pos.kings[color.index()];
        let ghost codes = pos.piece_on@;
        self.clear_side(acc, psqt);
        proof {
            use_type_invariant(self);
            assert(shifted16(self@.ft_bias, |c: int| 0) =~= shifted16(
                self@.ft_bias,
                |c: int| self@.squares_total(color, ksq, codes, 0, c),
            ));
            assert(shifted32(no_psqt(), self@.l1, |c: int| 0) =~= shifted32(
                no_psqt(),
                self@.l1,
                |c: int| self@.squares_total(color, ksq, codes, 0, c),
            ));
        }
        let mut sq: u8 = 0;
        while sq < 64
            invariant
                sq <= 64,
                ksq < 64,
                self@.arch == Arch::Sfnnv10,
                codes == pos.piece_on@,
                valid_codes(codes),
                self@.ft_bias.len() == self@.l1,
                acc@ == shifted16(
                    self@.ft_bias,
                    |c: int| self@.squares_total(color, ksq, codes, sq as nat, c),
                ),
                psqt@ == shifted32(
                    no_psqt(),
                    self@.l1,
                    |c: int| self@.squares_total(color, ksq, codes, sq as nat, c),
                ),
            decreases 64 - sq,
        {
            let code: u8 = pos.piece_on[sq as usize];
            let ghost so_far = |c: int| self@.squares_total(color, ksq, codes, sq as nat, c);
            let ghost next = |c: int| self@.squares_total(color, ksq, codes, (sq + 1) as nat, c);
            if code != 0 {
                let feature: usize = self.arch.make_index(color, sq, code as usize, ksq);
                self.add_feature(feature, acc, psqt);
                proof {
                    shifts_add_up(
                        self@.ft_bias,
                        no_psqt(),
                        self@.l1,
                        so_far,
                        |c: int| self@.piece_weight(feature as int, c),
                        next,
                    );
                }
            } else {
                assert(shifted16(self@.ft_bias, so_far) =~= shifted16(self@.ft_bias, next));
                assert(shifted32(no_psqt(), self@.l1, so_far) =~= shifted32(
                    no_psqt(),
                    self@.l1,
                    next,
                ));
            }
            sq = sq + 1;
        }
        let ghost squares = |c: int| self@.squares_total(color, ksq, codes, 64, c);
        proof {
            let start = |c: int| squares(c) + self@.pairs_total(color, ksq, pairs@.take(0), c);
            assert(shifted16(self@.ft_bias, squares) =~= shifted16(self@.ft_bias, start));
            assert(shifted32(no_psqt(), self@.l1, squares) =~= shifted32(
                no_psqt(),
                self@.l1,
                start,
            ));
        }
        let mut i: usize = 0;
        while i < pairs.len()
            invariant
                i <= pairs@.len(),
                self@.arch == Arch::Sfnnv10,
                self@.ft_bias.len() == self@.l1,
                forall|k: int| 0 <= k < pairs@.len() ==> valid_pair(#[trigger] pairs@[k]),
                acc@ == shifted16(
                    self@.ft_bias,
                    |c: int|
                        squares(c) + self@.pairs_total(color, ksq, pairs@.take(i as int), c),
                ),
                psqt@ == shifted32(
                    no_psqt(),
                    self@.l1,
                    |c: int|
                        squares(c) + self@.pairs_total(color, ksq, pairs@.take(i as int), c),
                ),
            decreases pairs.len() - i,
        {
            let pair: u32 = pairs[i];
            self.add_pair(color, ksq, pair, acc, psqt);
            proof {
                assert(pairs@.take(i + 1).drop_last() =~= pairs@.take(i as int));
                assert(pairs@.take(i + 1).last() == pair);
                shifts_add_up(
                    self@.ft_bias,
                    no_psqt(),
                    self@.l1,
                    |c: int| squares(c) + self@.pairs_total(color, ksq, pairs@.take(i as int), c),
                    |c: int| self@.pair_weight(color, ksq, pair, c),
                    |c: int| squares(c) + self@.pairs_total(color, ksq, pairs@.take(i + 1), c),
                );
            }
            i = i + 1;
        }
        assert(pairs@.take(i as int) =~= pairs@);
        proof {
            let end = |c: int|
                self@.squares_total(color, pos.kings@[color.ordinal()], pos.piece_on@, 64, c)
                    + self@.pairs_total(color, pos.kings@[color.ordinal()], pairs@, c);
            assert(acc@ =~= shifted16(self@.ft_bias, end));
            assert(psqt@ =~= shifted32(no_psqt(), self@.l1, end));
        }
    }

    /// Takes an accumulator from one list of attacks to another one. Attacks
    /// that both lists share are skipped where the lists are sorted.
    fn apply_threat_diff(
        &self,
        color: Color,
        ksq: u8,
        parent_pairs: &[u32],
        child_pairs: &[u32],
        acc: &mut [i16],
        psqt: &mut [i32; 8],
    )
        requires
            self@.arch == Arch::Sfnnv10,
            forall|k: int|
                0 <= k < parent_pairs@.len() ==> valid_pair(#[trigger] parent_pairs@[k]),
            forall|k: int| 0 <= k < child_pairs@.len() ==> valid_pair(#[trigger] child_pairs@[k]),
            old(acc)@.len() == self@.l1,
        ensures
            final(acc)@ == shifted16(
                old(acc)@,
                |c: int|
                    self@.pairs_total(color, ksq, child_pairs@, c) - self@.pairs_total(
                        color,
                        ksq,
                        parent_pairs@,
                        c,
                    ),
            ),
            final(psqt)@ == shifted32(
                old(psqt)@,
                self@.l1,
                |c: int|
                    self@.pairs_total(color, ksq, child_pairs@, c) - self@.pairs_total(
                        color,
                        ksq,
                        parent_pairs@,
                        c,
                    ),
            ),
    {
        let ghost parents = parent_pairs@;
        let ghost children = child_pairs@;
        let ghost gap = |i: int, j: int|
            |c: int|
                self@.pairs_total(color, ksq, children.take(j), c) - self@.pairs_total(
                    color,
                    ksq,
                    parents.take(i),
                    c,
                );
        let mut i: usize = 0;
        let mut j: usize = 0;
        proof {
            assert(acc@ =~= shifted16(old(acc)@, gap(0, 0)));
            assert(psqt@ =~= shifted32(old(psqt)@, self@.l1, gap(0, 0)));
        }
        while i < parent_pairs.len() || j < child_pairs.len()
            invariant
                i <= parents.len(),
                j <= children.len(),
                parents == parent_pairs@,
                children == child_pairs@,
                self@.arch == Arch::Sfnnv10,
                forall|k: int| 0 <= k < parents.len() ==> valid_pair(#[trigger] parents[k]),
                forall|k: int| 0 <= k < children.len() ==> valid_pair(#[trigger] children[k]),
                old(acc)@.len() == self@.l1,
                gap == (|i: int, j: int|
                    |c: int|
                        self@.pairs_total(color, ksq, children.take(j), c) - self@.pairs_total(
                            color,
                            ksq,
                            parents.take(i),
                            c,
                        )),
                acc@ == shifted16(old(acc)@, gap(i as int, j as int)),
                psqt@ == shifted32(old(psqt)@, self@.l1, gap(i as int, j as int)),
            decreases parents.len() - i + children.len() - j,
        {
            proof {
                if i < parents.len() {
                    assert(parents.take(i + 1).drop_last() =~= parents.take(i as int));
                    assert(parents.take(i + 1).last() == parents[i as int]);
                }
                if j < children.len() {
                    assert(children.take(j + 1).drop_last() =~= children.take(j as int));
                    assert(children.take(j + 1).last() == children[j as int]);
                }
            }
            if i < parent_pairs.len() && j < child_pairs.len() && parent_pairs[i]
                == child_pairs[j] {
                proof {
                    let here = gap(i as int, j as int);
                    let next = gap(i + 1, j + 1);
                    assert(shifted16(old(acc)@, here) =~= shifted16(old(acc)@, next));
                    assert(shifted32(old(psqt)@, self@.l1, here) =~= shifted32(
                        old(psqt)@,
                        self@.l1,
                        next,
                    ));
                }
                i = i + 1;
                j = j + 1;
            } else if j >= child_pairs.len() || (i < parent_pairs.len() && parent_pairs[i]
                < child_pairs[j]) {
                let pair: u32 = parent_pairs[i];
                self.sub_pair(color, ksq, pair, acc, psqt);
                proof {
                    shifts_add_up(
                        old(acc)@,
                        old(psqt)@,
                        self@.l1,
                        gap(i as int, j as int),
                        |c: int| -self@.pair_weight(color, ksq, pair, c),
                        gap(i + 1, j as int),
                    );
                }
                i = i + 1;
            } else {
                let pair: u32 = child_pairs[j];
                self.add_pair(color, ksq, pair, acc, psqt);
                proof {
                    shifts_add_up(
                        old(acc)@,
                        old(psqt)@,
                        self@.l1,
                        gap(i as int, j as int),
                        |c: int| self@.pair_weight(color, ksq, pair, c),
                        gap(i as int, j + 1),
                    );
                }
                j = j + 1;
            }
        }
        proof {
            assert(parents.take(i as int) =~= parents);
            assert(children.take(j as int) =~= children);
            let end = |c: int|
                self@.pairs_total(color, ksq, child_pairs@, c) - self@.pairs_total(
                    color,
                    ksq,
                    parent_pairs@,
                    c,
                );
            assert(acc@ =~= shifted16(old(acc)@, end));
            assert(psqt@ =~= shifted32(old(psqt)@, self@.l1, end));
        }
    }

    /// Takes on an accumulator from `parent`, without the pieces in `removed`
    /// and with those in `added`.
    fn apply_side(
        &self,
        parent: &[i16],
        parent_psqt: &[i32; 8],
        child: &mut [i16],
        child_psqt: &mut [i32; 8],
        king_square: u8,
        color: Color,
        removed: &[(u8, Piece)],
        added: &[(u8, Piece)],
    )
        requires
            king_square < 64,
            forall|k: int| 0 <= k < removed@.len() ==> (#[trigger] removed@[k]).0 < 64,
            forall|k: int| 0 <= k < added@.len() ==> (#[trigger] added@[k]).0 < 64,
            parent@.len() == self@.l1,
            old(child)@.len() == self@.l1,
        ensures
            final(child)@ == self@.exchanged_acc(parent@, color, king_square, removed@, added@),
            final(child_psqt)@ == self@.exchanged_psqt(
                parent_psqt@,
                color,
                king_square,
                removed@,
                added@,
            ),
    {
        copy_row(child, parent);
        *child_psqt = *parent_psqt;
        let kings_are_features: bool = self.arch.kings_are_features();
        let ghost less = |n: int|
            |c: int| -self@.pieces_total(color, king_square, removed@.take(n), c);
        proof {
            assert(child@ =~= shifted16(parent@, less(0)));
            assert(child_psqt@ =~= shifted32(parent_psqt@, self@.l1, less(0)));
        }
        let mut i: usize = 0;
        while i < removed.len()
            invariant
                i <= removed@.len(),
                king_square < 64,
                parent@.len() == self@.l1,
                forall|k: int| 0 <= k < removed@.len() ==> (#[trigger] removed@[k]).0 < 64,
                forall|kind: PieceKind|
                    self@.arch.counts(kind) == (kings_are_features || kind != PieceKind::King),
                less == (|n: int|
                    |c: int| -self@.pieces_total(color, king_square, removed@.take(n), c)),
                child@ == shifted16(parent@, less(i as int)),
                child_psqt@ == shifted32(parent_psqt@, self@.l1, less(i as int)),
            decreases removed.len() - i,
        {
            let (sq, piece) = removed[i];
            assert(removed@.take(i + 1).drop_last() =~= removed@.take(i as int));
            assert(removed@.take(i + 1).last() == removed@[i as int]);
            if kings_are_features || piece.kind != PieceKind::King {
                let feature: usize = self.arch.make_index(
                    color,
                    sq,
                    piece.sf_index(),
                    king_square,
                );
                self.sub_feature(feature, child, child_psqt);
                proof {
                    let rows = self@.arch.rows(color, king_square, removed@.take(i as int));
                    assert(rows.push(feature).drop_last() =~= rows);
                    shifts_add_up(
                        parent@,
                        parent_psqt@,
                        self@.l1,
                        less(i as int),
                        |c: int| -self@.piece_weight(feature as int, c),
                        less(i + 1),
                    );
                }
            } else {
                assert(less(i as int) =~= less(i + 1));
            }
            i = i + 1;
        }
        assert(removed@.take(i as int) =~= removed@);
        let ghost moved = |n: int|
            |c: int|
                self@.pieces_total(color, king_square, added@.take(n), c) - self@.pieces_total(
                    color,
                    king_square,
                    removed@,
                    c,
                );
        proof {
            assert(child@ =~= shifted16(parent@, moved(0)));
            assert(child_psqt@ =~= shifted32(parent_psqt@, self@.l1, moved(0)));
        }
        let mut j: usize = 0;
        while j < added.len()
            invariant
                j <= added@.len(),
                king_square < 64,
                parent@.len() == self@.l1,
                forall|k: int| 0 <= k < added@.len() ==> (#[trigger] added@[k]).0 < 64,
                forall|kind: PieceKind|
                    self@.arch.counts(kind) == (kings_are_features || kind != PieceKind::King),
                moved == (|n: int|
                    |c: int|
                        self@.pieces_total(color, king_square, added@.take(n), c)
                            - self@.pieces_total(color, king_square, removed@, c)),
                child@ == shifted16(parent@, moved(j as int)),
                child_psqt@ == shifted32(parent_psqt@, self@.l1, moved(j as int)),
            decreases added.len() - j,
        {
            let (sq, piece) = added[j];
            assert(added@.take(j + 1).drop_last() =~= added@.take(j as int));
            assert(added@.take(j + 1).last() == added@[j as int]);
            if kings_are_features || piece.kind != PieceKind::King {
                let feature: usize = self.arch.make_index(
                    color,
                    sq,
                    piece.sf_index(),
                    king_square,
                );
                self.add_feature(feature, child, child_psqt);
                proof {
                    let rows = self@.arch.rows(color, king_square, added@.take(j as int));
                    assert(rows.push(feature).drop_last() =~= rows);
                    shifts_add_up(
                        parent@,
                        parent_psqt@,
                        self@.l1,
                        moved(j as int),
                        |c: int| self@.piece_weight(feature as int, c),
                        moved(j + 1),
                    );
                }
            } else {
                assert(moved(j as int) =~= moved(j + 1));
            }
            j = j + 1;
        }
        assert(added@.take(j as int) =~= added@);
        assert(child@ =~= self@.exchanged_acc(parent@, color, king_square, removed@, added@));
        assert(child_psqt@ =~= self@.exchanged_psqt(
            parent_psqt@,
            color,
            king_square,
            removed@,
            added@,
        ));
    }
}

/// The number of pieces that a board lists.
fn count_pieces(board: &impl Board) -> (r: usize)
    ensures
        r == board.position().pieces.len(),
{
    board.for_each_piece().len()
}

/// What stands on each square of a board.
fn placement(board: &impl Board) -> (r: [Option<Piece>; 64])
    requires
        board.position().on_board(),
    ensures
        forall|sq: int| 0 <= sq < 64 ==> #[trigger] r@[sq] == board.position().at(sq),
{
    let pieces: Vec<(u8, Piece)> = board.for_each_piece();
    let mut r: [Option<Piece>; 64] = [None; 64];
    let mut i: usize = 0;
    while i < pieces.len()
        invariant
            i <= pieces.len(),
            forall|k: int| 0 <= k < pieces@.len() ==> (#[trigger] pieces@[k]).0 < 64,
            forall|sq: int|
                0 <= sq < 64 ==> #[trigger] r@[sq] == piece_at(pieces@.take(i as int), sq),
        decreases pieces.len() - i,
    {
        let (square, piece) = pieces[i];
        assert(pieces@.take(i + 1).drop_last() =~= pieces@.take(i as int));
        assert(pieces@.take(i + 1).last() == pieces@[i as int]);
        r[square as usize] = Some(piece);
        i = i + 1;
    }
    assert(pieces@.take(i as int) =~= pieces@);
    r
}

fn same(a: Option<Piece>, b: Option<Piece>) -> (r: bool)
    ensures
        r == (a == b),
{
    match (a, b) {
        (Some(x), Some(y)) => x == y,
        (None, None) => true,
        _ => false,
    }
}

/// Writes `item` at place `n` if there is such a place.
fn record(list: &mut [(u8, Piece)], n: usize, item: (u8, Piece))
    ensures
        final(list)@ == if n < old(list)@.len() {
            old(list)@.update(n as int, item)
        } else {
            old(list)@
        },
{
    if n < list.len() {
        list[n] = item;
    }
}

/// The first places of `list` hold what fits of `items`; the others are as
/// they were.
spec fn recorded(
    list: Seq<(u8, Piece)>,
    before: Seq<(u8, Piece)>,
    items: Seq<(u8, Piece)>,
) -> bool {
    &&& list.len() == before.len()
    &&& forall|k: int|
        0 <= k < list.len() ==> #[trigger] list[k] == if k < items.len() {
            items[k]
        } else {
            before[k]
        }
}

/// Collects by square the pieces that are on `parent` and not on `child`, and
/// the other way round, as far as there is room, and counts them.
fn diff_boards(
    parent: &impl Board,
    child: &impl Board,
    removed: &mut [(u8, Piece)],
    added: &mut [(u8, Piece)],
) -> (r: (usize, usize))
    requires
        parent.position().on_board(),
        child.position().on_board(),
    ensures
        r.0 <= final(removed)@.len(),
        r.1 <= final(added)@.len(),
        final(removed)@.len() == old(removed)@.len(),
        final(added)@.len() == old(added)@.len(),
        final(removed)@.take(r.0 as int) == at_most(
            board_difference(parent.position().pieces, child.position().pieces).0,
            old(removed)@.len(),
        ),
        final(added)@.take(r.1 as int) == at_most(
            board_difference(parent.position().pieces, child.position().pieces).1,
            old(added)@.len(),
        ),
        final(removed)@.skip(r.0 as int) == old(removed)@.skip(r.0 as int),
        final(added)@.skip(r.1 as int) == old(added)@.skip(r.1 as int),
{
    let p: [Option<Piece>; 64] = placement(parent);
    let c: [Option<Piece>; 64] = placement(child);
    let ghost before = parent.position().pieces;
    let ghost after = child.position().pieces;
    let mut nr: usize = 0;
    let mut na: usize = 0;
    let mut sq: u8 = 0;
    while sq < 64
        invariant
            sq <= 64,
            forall|s: int| 0 <= s < 64 ==> #[trigger] p@[s] == piece_at(before, s),
            forall|s: int| 0 <= s < 64 ==> #[trigger] c@[s] == piece_at(after, s),
            nr == difference_upto(before, after, sq as nat).len(),
            na == difference_upto(after, before, sq as nat).len(),
            nr <= sq,
            na <= sq,
            recorded(removed@, old(removed)@, difference_upto(before, after, sq as nat)),
            recorded(added@, old(added)@, difference_upto(after, before, sq as nat)),
        decreases 64 - sq,
    {
        let a: Option<Piece> = p[sq as usize];
        let b: Option<Piece> = c[sq as usize];
        if !same(a, b) {
            if let Some(piece) = a {
                record(removed, nr, (sq, piece));
                nr = nr + 1;
            }
            if let Some(piece) = b {
                record(added, na, (sq, piece));
                na = na + 1;
            }
        }
        sq = sq + 1;
    }
    let r0: usize = if nr < removed.len() {
        nr
    } else {
        removed.len()
    };
    let r1: usize = if na < added.len() {
        na
    } else {
        added.len()
    };
    proof {
        let gone = at_most(difference_upto(before, after, 64), old(removed)@.len());
        let new = at_most(difference_upto(after, before, 64), old(added)@.len());
        assert(removed@.take(r0 as int) =~= gone);
        assert(added@.take(r1 as int) =~= new);
        assert(removed@.skip(r0 as int) =~= old(removed)@.skip(r0 as int));
        assert(added@.skip(r1 as int) =~= old(added)@.skip(r1 as int));
    }
    (r0, r1)
}

/// The number of squares with a piece on them.
fn count_occupied(piece_on: &[u8; 64]) -> (r: usize)
    ensures
        r == occupied_upto(piece_on@, 64),
{
    let mut n: usize = 0;
    let mut sq: usize = 0;
    while sq < 64
        invariant
            sq <= 64,
            n == occupied_upto(piece_on@, sq as nat),
            n <= sq,
        decreases 64 - sq,
    {
        if piece_on[sq] != 0 {
            n = n + 1;
        }
        sq = sq + 1;
    }
    n
}

impl Network {
    /// Allocates a zeroed accumulator sized for this network.
    ///
    /// Useful for pre-allocating a stack of accumulators in a search; fill each
    /// with [`Network::refresh`] or [`Network::update`] before evaluating.
    pub fn empty_accumulator(&self) -> (r: Accumulator)
        ensures
            r@.fits(self@.l1),
            r@.white == Seq::new(self@.l1, |j: int| 0i16),
            r@.black == Seq::new(self@.l1, |j: int| 0i16),
            r@.psqt_white == no_psqt(),
            r@.psqt_black == no_psqt(),
            r@.piece_count == 0,
            r@.threat_pairs == Seq::<u32>::empty(),
    {
        let r = Accumulator {
            white: vec![0i16; self.l1],
            black: vec![0i16; self.l1],
            psqt_white: [0i32; 8],
            psqt_black: [0i32; 8],
            piece_count: 0,
            threat_pairs: Vec::new(),
        };
        assert(r.white@ =~= Seq::new(self@.l1, |j: int| 0i16));
        assert(r.black@ =~= Seq::new(self@.l1, |j: int| 0i16));
        assert(r.psqt_white@ =~= no_psqt());
        assert(r.psqt_black@ =~= no_psqt());
        r
    }

    /// Allocates and fully computes an accumulator for `board`.
    pub fn accumulator(&self, board: &impl Board) -> (r: Accumulator)
        requires
            board.position().valid(),
        ensures
            r@ == self@.fresh(board.position(), Seq::empty()),
            r@.fits(self@.l1),
            self@.wf(),
    {
        proof {
            use_type_invariant(self);
        }
        let mut acc = self.empty_accumulator();
        self.refresh(board, &mut acc);
        acc
    }

    /// Recomputes `acc` from scratch for `board`.
    ///
    /// Call at the root of a search; [`Network::update`] recomputes a
    /// perspective itself when its king moves.
    pub fn refresh(&self, board: &impl Board, acc: &mut Accumulator)
        requires
            board.position().valid(),
            old(acc)@.fits(self@.l1),
        ensures
            final(acc)@ == self@.fresh(board.position(), old(acc)@.threat_pairs),
            final(acc)@.fits(self@.l1),
    {
        proof {
            use_type_invariant(self);
        }
        if self.arch == Arch::Sfnnv10 {
            let pos = PosInfo::from_board(board);
            threat_pairs(&pos, &mut acc.threat_pairs);
            proof {
                pairs_valid_and_sorted(pos.piece_on@, 4096);
            }
            self.refresh_side_v10(
                &pos,
                Color::White,
                acc.threat_pairs.as_slice(),
                acc.white.as_mut_slice(),
                &mut acc.psqt_white,
            );
            self.refresh_side_v10(
                &pos,
                Color::Black,
                acc.threat_pairs.as_slice(),
                acc.black.as_mut_slice(),
                &mut acc.psqt_black,
            );
            acc.piece_count = count_occupied(&pos.piece_on);
        } else {
            self.refresh_side(board, Color::White, acc.white.as_mut_slice(), &mut acc.psqt_white);
            self.refresh_side(board, Color::Black, acc.black.as_mut_slice(), &mut acc.psqt_black);
            acc.piece_count = count_pieces(board);
        }
        proof {
            let fresh = self@.fresh(board.position(), old(acc)@.threat_pairs);
            assert(acc@.white =~= fresh.white);
            assert(acc@.black =~= fresh.black);
            assert(acc@.psqt_white =~= fresh.psqt_white);
            assert(acc@.psqt_black =~= fresh.psqt_black);
        }
    }

    /// Advances `parent` into `child` for the move that turns `parent_board`
    /// into `child_board`, writing the result into `child`.
    ///
    /// The changed pieces are derived by diffing the two boards, so every move
    /// type (captures, en passant, promotions, castling) is handled. When a king
    /// moves, that perspective is recomputed from scratch automatically. From the
    /// accumulators of `parent_board` come those of `child_board`, whatever
    /// `child` held before.
    pub fn update(
        &self,
        parent_board: &impl Board,
        child_board: &impl Board,
        parent: &Accumulator,
        child: &mut Accumulator,
    )
        requires
            self@.can_step(parent_board.position(), child_board.position(), parent@),
            old(child)@.fits(self@.l1),
        ensures
            final(child)@ == self@.stepped(
                parent_board.position(),
                child_board.position(),
                parent@,
                old(child)@.threat_pairs,
            ),
            final(child)@.fits(self@.l1),
            (sums_squares(self@, parent_board.position()) && sums_squares(
                self@,
                child_board.position(),
            ) && is_step(parent_board.position(), child_board.position()) && parent@
                == self@.fresh(parent_board.position(), parent@.threat_pairs)) ==> final(child)@
                == self@.fresh(child_board.position(), old(child)@.threat_pairs),
    {
        proof {
            if sums_squares(self@, parent_board.position()) && sums_squares(
                self@,
                child_board.position(),
            ) && is_step(parent_board.position(), child_board.position()) {
                update_is_refresh(
                    self@,
                    parent_board.position(),
                    child_board.position(),
                    parent@.threat_pairs,
                    old(child)@.threat_pairs,
                );
            }
        }
        if self.arch == Arch::Sfnnv10 {
            self.update_v10(parent_board, child_board, parent, child);
            return;
        }
        let ghost before = parent_board.position();
        let ghost after = child_board.position();
        let dummy: (u8, Piece) = (0u8, Piece::new(Color::White, PieceKind::Pawn));
        let mut removed: [(u8, Piece); 4] = [dummy; 4];
        let mut added: [(u8, Piece); 4] = [dummy; 4];
        let (nr, na) = diff_boards(parent_board, child_board, &mut removed, &mut added);
        let removed = slice_subrange(removed.as_slice(), 0, nr);
        let added = slice_subrange(added.as_slice(), 0, na);
        proof {
            use_type_invariant(self);
            assert(removed@ =~= changed(before.pieces, after.pieces));
            assert(added@ =~= changed(after.pieces, before.pieces));
            differences_on_board(before.pieces, after.pieces, 64);
            differences_on_board(after.pieces, before.pieces, 64);
        }

        let wk: u8 = child_board.king_square(Color::White);
        if parent_board.king_square(Color::White) != wk {
            self.refresh_side(
                child_board,
                Color::White,
                child.white.as_mut_slice(),
                &mut child.psqt_white,
            );
        } else {
            self.apply_side(
                parent.white.as_slice(),
                &parent.psqt_white,
                child.white.as_mut_slice(),
                &mut child.psqt_white,
                wk,
                Color::White,
                removed,
                added,
            );
        }
        let bk: u8 = child_board.king_square(Color::Black);
        if parent_board.king_square(Color::Black) != bk {
            self.refresh_side(
                child_board,
                Color::Black,
                child.black.as_mut_slice(),
                &mut child.psqt_black,
            );
        } else {
            self.apply_side(
                parent.black.as_slice(),
                &parent.psqt_black,
                child.black.as_mut_slice(),
                &mut child.psqt_black,
                bk,
                Color::Black,
                removed,
                added,
            );
        }
        child.piece_count = parent.piece_count + na - nr;
        proof {
            let next = self@.stepped(before, after, parent@, old(child)@.threat_pairs);
            assert(child@.white =~= next.white);
            assert(child@.black =~= next.black);
            assert(child@.psqt_white =~= next.psqt_white);
            assert(child@.psqt_black =~= next.psqt_black);
        }
    }

    /// [`Network::update`] for networks with attack features.
    fn update_v10(
        &self,
        parent_board: &impl Board,
        child_board: &impl Board,
        parent: &Accumulator,
        child: &mut Accumulator,
    )
        requires
            self@.arch == Arch::Sfnnv10,
            self@.can_step(parent_board.position(), child_board.position(), parent@),
            old(child)@.fits(self@.l1),
        ensures
            final(child)@ == self@.stepped(
                parent_board.position(),
                child_board.position(),
                parent@,
                old(child)@.threat_pairs,
            ),
            final(child)@.fits(self@.l1),
            (sums_squares(self@, parent_board.position()) && sums_squares(
                self@,
                child_board.position(),
            ) && is_step(parent_board.position(), child_board.position()) && parent@
                == self@.fresh(parent_board.position(), parent@.threat_pairs)) ==> final(child)@
                == self@.fresh(child_board.position(), old(child)@.threat_pairs),
    {
        proof {
            if sums_squares(self@, parent_board.position()) && sums_squares(
                self@,
                child_board.position(),
            ) && is_step(parent_board.position(), child_board.position()) {
                update_is_refresh(
                    self@,
                    parent_board.position(),
                    child_board.position(),
                    parent@.threat_pairs,
                    old(child)@.threat_pairs,
                );
            }
        }
        let ghost before = parent_board.position();
        let ghost after = child_board.position();
        let pos = PosInfo::from_board(child_board);
        threat_pairs(&pos, &mut child.threat_pairs);
        let dummy: (u8, Piece) = (0u8, Piece::new(Color::White, PieceKind::Pawn));
        let mut removed: [(u8, Piece); 4] = [dummy; 4];
        let mut added: [(u8, Piece); 4] = [dummy; 4];
        let (nr, na) = diff_boards(parent_board, child_board, &mut removed, &mut added);
        let removed = slice_subrange(removed.as_slice(), 0, nr);
        let added = slice_subrange(added.as_slice(), 0, na);
        proof {
            use_type_invariant(self);
            pairs_valid_and_sorted(pos.piece_on@, 4096);
            assert forall|k: int| 0 <= k < parent.threat_pairs@.len() implies valid_pair(
                #[trigger] parent.threat_pairs@[k],
            ) by {
                assert(valid_pair(parent@.threat_pairs[k]));
            }
            assert(removed@ =~= changed(before.pieces, after.pieces));
            assert(added@ =~= changed(after.pieces, before.pieces));
            differences_on_board(before.pieces, after.pieces, 64);
            differences_on_board(after.pieces, before.pieces, 64);
        }

        let wk: u8 = pos.kings[0];
        if parent_board.king_square(Color::White) != wk {
            self.refresh_side_v10(
                &pos,
                Color::White,
                child.threat_pairs.as_slice(),
                child.white.as_mut_slice(),
                &mut child.psqt_white,
            );
        } else {
            self.apply_side(
                parent.white.as_slice(),
                &parent.psqt_white,
                child.white.as_mut_slice(),
                &mut child.psqt_white,
                wk,
                Color::White,
                removed,
                added,
            );
            self.apply_threat_diff(
                Color::White,
                wk,
                parent.threat_pairs.as_slice(),
                child.threat_pairs.as_slice(),
                child.white.as_mut_slice(),
                &mut child.psqt_white,
            );
            proof {
                self.lemma_step_v10(Color::White, before, after, parent@);
            }
        }
        let bk: u8 = pos.kings[1];
        if parent_board.king_square(Color::Black) != bk {
            self.refresh_side_v10(
                &pos,
                Color::Black,
                child.threat_pairs.as_slice(),
                child.black.as_mut_slice(),
                &mut child.psqt_black,
            );
        } else {
            self.apply_side(
                parent.black.as_slice(),
                &parent.psqt_black,
                child.black.as_mut_slice(),
                &mut child.psqt_black,
                bk,
                Color::Black,
                removed,
                added,
            );
            self.apply_threat_diff(
                Color::Black,
                bk,
                parent.threat_pairs.as_slice(),
                child.threat_pairs.as_slice(),
                child.black.as_mut_slice(),
                &mut child.psqt_black,
            );
            proof {
                self.lemma_step_v10(Color::Black, before, after, parent@);
            }
        }
        child.piece_count = count_occupied(&pos.piece_on);
        proof {
            let next = self@.stepped(before, after, parent@, old(child)@.threat_pairs);
            assert(child@.white =~= next.white);
            assert(child@.black =~= next.black);
            assert(child@.psqt_white =~= next.psqt_white);
            assert(child@.psqt_black =~= next.psqt_black);
        }
    }

    /// The changed pieces and then the changed attacks make up a step.
    proof fn lemma_step_v10(
        &self,
        color: Color,
        before: Position,
        after: Position,
        parent: AccumulatorModel,
    )
        requires
            self@.arch == Arch::Sfnnv10,
        ensures
            ({
                let king_square = after.king(color);
                let removed = changed(before.pieces, after.pieces);
                let added = changed(after.pieces, before.pieces);
                let acc = parent.acc(color);
                let psqt = parent.psqt(color);
                let attacks = |c: int|
                    self@.pairs_total(
                        color,
                        king_square,
                        pair_list(board_codes(after.pieces)),
                        c,
                    ) - self@.pairs_total(color, king_square, parent.threat_pairs, c);
                let both = |c: int|
                    self@.step_total(color, before, after, parent.threat_pairs, c);
                &&& shifted16(
                    self@.exchanged_acc(acc, color, king_square, removed, added),
                    attacks,
                ) == shifted16(acc, both)
                &&& shifted32(
                    self@.exchanged_psqt(psqt, color, king_square, removed, added),
                    self@.l1,
                    attacks,
                ) == shifted32(psqt, self@.l1, both)
            }),
    {
        let king_square = after.king(color);
        let removed = changed(before.pieces, after.pieces);
        let added = changed(after.pieces, before.pieces);
        shifts_add_up(
            parent.acc(color),
            parent.psqt(color),
            self@.l1,
            |c: int| self@.exchange_total(color, king_square, removed, added, c),
            |c: int|
                self@.pairs_total(color, king_square, pair_list(board_codes(after.pieces)), c)
                    - self@.pairs_total(color, king_square, parent.threat_pairs, c),
            |c: int| self@.step_total(color, before, after, parent.threat_pairs, c),
        );
    }
}

} // verus!
