//! The mathematical model of a network: what its accumulators hold for a
//! position, and what it computes from them.

use crate::arith::{
    clamp_int, div_toward_zero, lemma_wrap16_step, lemma_wrap32_step, wrap16, wrap32,
};
use crate::feature::Arch;
use crate::simd::{clip_mul, clipped, dot};
use crate::threats::{
    board_codes, pair_list, threat_feature, unpacked, valid_pair, EXCLUDED, THREAT_DIMENSIONS,
};
use crate::types::{piece_at, Color, Piece, Position};
use vstd::prelude::*;

verus! {

/// One stack of dense layers.
pub struct BucketModel {
    pub fc0_bias: Seq<i32>,
    pub fc0_weight: Seq<i8>,
    pub fc1_bias: Seq<i32>,
    pub fc1_weight: Seq<i8>,
    pub fc2_bias: i32,
    pub fc2_weight: Seq<i8>,
}

impl BucketModel {
    /// The layers have the given widths. The rows of the second layer are
    /// stored with 32 weights each.
    pub open spec fn shaped(self, fc0_out: int, fc0_in: int, fc1_out: int) -> bool {
        &&& self.fc0_bias.len() == fc0_out
        &&& self.fc0_weight.len() == fc0_out * fc0_in
        &&& self.fc1_bias.len() == fc1_out
        &&& self.fc1_weight.len() == fc1_out * 32
        &&& self.fc2_weight.len() == fc1_out
    }
}

/// A loaded network. Tables that its architecture does not have are empty.
pub struct NetworkModel {
    pub arch: Arch,
    /// The width of an accumulator.
    pub l1: nat,
    pub ft_bias: Seq<i16>,
    /// One row of `l1` weights for each piece feature.
    pub ft_weight: Seq<i16>,
    /// One row of eight weights for each piece feature.
    pub ft_psqt: Seq<i32>,
    /// One row of `l1` weights for each attack feature.
    pub threat_weight: Seq<i8>,
    /// One row of eight weights for each attack feature.
    pub threat_psqt: Seq<i32>,
    pub buckets: Seq<BucketModel>,
}

/// A pair of accumulators, one for each perspective.
pub struct AccumulatorModel {
    pub white: Seq<i16>,
    pub black: Seq<i16>,
    pub psqt_white: Seq<i32>,
    pub psqt_black: Seq<i32>,
    pub piece_count: nat,
    pub threat_pairs: Seq<u32>,
}

/// `acc` with `delta(j)` added at each place `j`, in 16-bit arithmetic.
pub open spec fn shifted16(acc: Seq<i16>, delta: spec_fn(int) -> int) -> Seq<i16> {
    Seq::new(acc.len(), |j: int| wrap16(acc[j] + delta(j)))
}

/// `psqt` with `delta(l1 + b)` added at each place `b`, in 32-bit arithmetic.
pub open spec fn shifted32(psqt: Seq<i32>, l1: nat, delta: spec_fn(int) -> int) -> Seq<i32> {
    Seq::new(psqt.len(), |b: int| wrap32(psqt[b] + delta(l1 + b)))
}

/// Two shifts in a row are one shift by the sum.
pub proof fn shifts_add_up(
    acc: Seq<i16>,
    psqt: Seq<i32>,
    l1: nat,
    first: spec_fn(int) -> int,
    second: spec_fn(int) -> int,
    both: spec_fn(int) -> int,
)
    requires
        forall|c: int| #[trigger] both(c) == first(c) + second(c),
    ensures
        shifted16(shifted16(acc, first), second) == shifted16(acc, both),
        shifted32(shifted32(psqt, l1, first), l1, second) == shifted32(psqt, l1, both),
{
    assert forall|j: int| 0 <= j < acc.len() implies #[trigger] shifted16(
        shifted16(acc, first),
        second,
    )[j] == shifted16(acc, both)[j] by {
        assert(both(j) == first(j) + second(j));
        lemma_wrap16_step(acc[j] + first(j), second(j));
    }
    assert(shifted16(shifted16(acc, first), second) =~= shifted16(acc, both));
    assert forall|b: int| 0 <= b < psqt.len() implies #[trigger] shifted32(
        shifted32(psqt, l1, first),
        l1,
        second,
    )[b] == shifted32(psqt, l1, both)[b] by {
        assert(both(l1 + b) == first(l1 + b) + second(l1 + b));
        lemma_wrap32_step(psqt[b] + first(l1 + b), second(l1 + b));
    }
    assert(shifted32(shifted32(psqt, l1, first), l1, second) =~= shifted32(psqt, l1, both));
}

/// Eight zeros.
pub open spec fn no_psqt() -> Seq<i32> {
    Seq::new(8, |b: int| 0i32)
}

/// The number of pieces on the board.
pub open spec fn occupied_upto(codes: Seq<u8>, n: nat) -> nat
    decreases n,
{
    if n == 0 {
        0
    } else {
        occupied_upto(codes, (n - 1) as nat) + if codes[n - 1] != 0 {
            1nat
        } else {
            0
        }
    }
}

impl NetworkModel {
    /// The accumulators have a width that the architecture can have, and the
    /// tables have the sizes that it asks for.
    pub open spec fn wf(self) -> bool {
        &&& if self.arch == Arch::HalfKP {
            self.l1 == 256
        } else {
            16 <= self.l1 <= 4096 && self.l1 % 16 == 0
        }
        &&& self.ft_bias.len() == self.l1
        &&& self.ft_weight.len() == self.l1 * self.arch.dimensions()
        &&& self.ft_psqt.len() == if self.arch == Arch::HalfKP {
            0
        } else {
            8 * self.arch.dimensions()
        }
        &&& self.threat_weight.len() == if self.arch == Arch::Sfnnv10 {
            THREAT_DIMENSIONS * self.l1
        } else {
            0
        }
        &&& self.threat_psqt.len() == if self.arch == Arch::Sfnnv10 {
            THREAT_DIMENSIONS * 8
        } else {
            0
        }
        &&& self.buckets.len() == if self.arch == Arch::HalfKP {
            1nat
        } else {
            8
        }
        &&& forall|k: int|
            0 <= k < self.buckets.len() ==> (#[trigger] self.buckets[k]).shaped(
                self.fc0_out(),
                self.fc0_in(),
                32,
            )
    }

    /// The number of outputs of the first dense layer.
    pub open spec fn fc0_out(self) -> int {
        if self.arch == Arch::HalfKP {
            32
        } else {
            16
        }
    }

    /// The number of inputs of the first dense layer.
    pub open spec fn fc0_in(self) -> int {
        match self.arch {
            Arch::Sfnnv10 | Arch::HalfKAv2Hm => self.l1 as int,
            Arch::HalfKAv2 | Arch::HalfKP => 2 * self.l1 as int,
        }
    }

    /// What piece feature `feature` adds to channel `c`. Channels below `l1`
    /// are the accumulator, the eight that follow are the piece-square sums.
    pub open spec fn piece_weight(self, feature: int, c: int) -> int {
        if c < self.l1 {
            self.ft_weight[feature * self.l1 + c] as int
        } else if self.ft_psqt.len() == 0 {
            0
        } else {
            self.ft_psqt[feature * 8 + (c - self.l1)] as int
        }
    }

    /// What attack feature `feature` adds to channel `c`.
    pub open spec fn threat_weight_at(self, feature: int, c: int) -> int {
        if c < self.l1 {
            self.threat_weight[feature * self.l1 + c] as int
        } else {
            self.threat_psqt[feature * 8 + (c - self.l1)] as int
        }
    }

    /// What the listed piece features add to channel `c`.
    pub open spec fn rows_total(self, rows: Seq<usize>, c: int) -> int
        decreases rows.len(),
    {
        if rows.len() == 0 {
            0
        } else {
            self.rows_total(rows.drop_last(), c) + self.piece_weight(rows.last() as int, c)
        }
    }

    /// What the listed pieces add to channel `c` of a perspective.
    pub open spec fn pieces_total(
        self,
        perspective: Color,
        king_square: u8,
        pieces: Seq<(u8, Piece)>,
        c: int,
    ) -> int {
        self.rows_total(self.arch.rows(perspective, king_square, pieces), c)
    }

    /// What the piece on `sq`, if there is one, adds to channel `c`.
    pub open spec fn square_weight(
        self,
        perspective: Color,
        king_square: u8,
        sq: int,
        code: u8,
        c: int,
    ) -> int {
        if code == 0 {
            0
        } else {
            self.piece_weight(self.arch.feature(perspective, sq, code as int, king_square), c)
        }
    }

    /// What the pieces on the first `n` squares add to channel `c`.
    pub open spec fn squares_total(
        self,
        perspective: Color,
        king_square: u8,
        codes: Seq<u8>,
        n: nat,
        c: int,
    ) -> int
        decreases n,
    {
        if n == 0 {
            0
        } else {
            self.squares_total(perspective, king_square, codes, (n - 1) as nat, c)
                + self.square_weight(perspective, king_square, n - 1, codes[n - 1], c)
        }
    }

    /// What a packed attack adds to channel `c`.
    pub open spec fn pair_weight(
        self,
        perspective: Color,
        king_square: u8,
        pair: u32,
        c: int,
    ) -> int {
        let (from, to, attacker, attacked) = unpacked(pair);
        let feature = threat_feature(perspective, attacker, from, to, attacked, king_square);
        if feature >= EXCLUDED {
            0
        } else {
            self.threat_weight_at(feature, c)
        }
    }

    /// What the listed attacks add to channel `c`.
    pub open spec fn pairs_total(
        self,
        perspective: Color,
        king_square: u8,
        pairs: Seq<u32>,
        c: int,
    ) -> int
        decreases pairs.len(),
    {
        if pairs.len() == 0 {
            0
        } else {
            self.pairs_total(perspective, king_square, pairs.drop_last(), c) + self.pair_weight(
                perspective,
                king_square,
                pairs.last(),
                c,
            )
        }
    }

    /// What a position adds to channel `c` of a perspective.
    pub open spec fn position_total(self, perspective: Color, pos: Position, c: int) -> int {
        let king_square = pos.king(perspective);
        if self.arch == Arch::Sfnnv10 {
            let codes = board_codes(pos.pieces);
            self.squares_total(perspective, king_square, codes, 64, c) + self.pairs_total(
                perspective,
                king_square,
                pair_list(codes),
                c,
            )
        } else {
            self.pieces_total(perspective, king_square, pos.pieces, c)
        }
    }

    /// The accumulator of one perspective for a position: the biases and the
    /// rows of all active features.
    pub open spec fn fresh_acc(self, perspective: Color, pos: Position) -> Seq<i16> {
        shifted16(self.ft_bias, |c: int| self.position_total(perspective, pos, c))
    }

    /// The piece-square sums of one perspective for a position.
    pub open spec fn fresh_psqt(self, perspective: Color, pos: Position) -> Seq<i32> {
        shifted32(no_psqt(), self.l1, |c: int| self.position_total(perspective, pos, c))
    }

    /// The number of pieces that an accumulator of a position records.
    pub open spec fn piece_count(self, pos: Position) -> nat {
        if self.arch == Arch::Sfnnv10 {
            occupied_upto(board_codes(pos.pieces), 64)
        } else {
            pos.pieces.len()
        }
    }

    /// The accumulators of a position. Architectures without attack features
    /// leave the list of attacks as it was.
    pub open spec fn fresh(self, pos: Position, old_pairs: Seq<u32>) -> AccumulatorModel {
        AccumulatorModel {
            white: self.fresh_acc(Color::White, pos),
            black: self.fresh_acc(Color::Black, pos),
            psqt_white: self.fresh_psqt(Color::White, pos),
            psqt_black: self.fresh_psqt(Color::Black, pos),
            piece_count: self.piece_count(pos),
            threat_pairs: if self.arch == Arch::Sfnnv10 {
                pair_list(board_codes(pos.pieces))
            } else {
                old_pairs
            },
        }
    }
}

impl AccumulatorModel {
    /// Both accumulators have `l1` places, and the attacks are possible ones.
    pub open spec fn fits(self, l1: nat) -> bool {
        &&& self.white.len() == l1
        &&& self.black.len() == l1
        &&& self.wf()
    }

    /// The piece-square sums have eight places, and the attacks are possible ones.
    pub open spec fn wf(self) -> bool {
        &&& self.psqt_white.len() == 8
        &&& self.psqt_black.len() == 8
        &&& self.piece_count <= usize::MAX
        &&& forall|i: int|
            0 <= i < self.threat_pairs.len() ==> valid_pair(#[trigger] self.threat_pairs[i])
    }

    /// The accumulator of one perspective.
    pub open spec fn acc(self, perspective: Color) -> Seq<i16> {
        match perspective {
            Color::White => self.white,
            Color::Black => self.black,
        }
    }

    /// The piece-square sums of one perspective.
    pub open spec fn psqt(self, perspective: Color) -> Seq<i32> {
        match perspective {
            Color::White => self.psqt_white,
            Color::Black => self.psqt_black,
        }
    }
}

/// The pieces of the first `n` squares that `gone` has and `kept` has not.
pub open spec fn difference_upto(
    gone: Seq<(u8, Piece)>,
    kept: Seq<(u8, Piece)>,
    n: nat,
) -> Seq<(u8, Piece)>
    decreases n,
{
    if n == 0 {
        Seq::empty()
    } else {
        let before = difference_upto(gone, kept, (n - 1) as nat);
        match piece_at(gone, n - 1) {
            Some(piece) if piece_at(kept, n - 1) != Some(piece) => before.push(
                ((n - 1) as u8, piece),
            ),
            _ => before,
        }
    }
}

/// The pieces that make a difference stand on the squares that were compared,
/// one to a square.
pub proof fn differences_on_board(gone: Seq<(u8, Piece)>, kept: Seq<(u8, Piece)>, n: nat)
    requires
        n <= 64,
    ensures
        difference_upto(gone, kept, n).len() <= n,
        forall|k: int|
            0 <= k < difference_upto(gone, kept, n).len() ==> (#[trigger] difference_upto(
                gone,
                kept,
                n,
            )[k]).0 < n,
    decreases n,
{
    if n > 0 {
        differences_on_board(gone, kept, (n - 1) as nat);
    }
}

/// At most the first `n` entries.
pub open spec fn at_most<T>(s: Seq<T>, n: nat) -> Seq<T> {
    if s.len() <= n {
        s
    } else {
        s.take(n as int)
    }
}

/// The pieces that leave and the pieces that come where one placement follows
/// the other, by square.
pub open spec fn board_difference(
    before: Seq<(u8, Piece)>,
    after: Seq<(u8, Piece)>,
) -> (Seq<(u8, Piece)>, Seq<(u8, Piece)>) {
    (difference_upto(before, after, 64), difference_upto(after, before, 64))
}

/// What stands on `sq` once the pieces `removed` have been taken off a placement
/// and then the pieces `added` have been put on it.
pub open spec fn at_after_exchange(
    pieces: Seq<(u8, Piece)>,
    removed: Seq<(u8, Piece)>,
    added: Seq<(u8, Piece)>,
    sq: int,
) -> Option<Piece> {
    match piece_at(added, sq) {
        Some(piece) => Some(piece),
        None => if piece_at(removed, sq) is Some {
            None
        } else {
            piece_at(pieces, sq)
        },
    }
}

/// The pieces that one position has and the other has not, by square, as far
/// as an update records them: at most four.
pub open spec fn changed(gone: Seq<(u8, Piece)>, kept: Seq<(u8, Piece)>) -> Seq<(u8, Piece)> {
    at_most(difference_upto(gone, kept, 64), 4)
}

impl NetworkModel {
    /// What taking off the pieces `removed` and putting on the pieces `added`
    /// adds to channel `c` of a perspective.
    pub open spec fn exchange_total(
        self,
        perspective: Color,
        king_square: u8,
        removed: Seq<(u8, Piece)>,
        added: Seq<(u8, Piece)>,
        c: int,
    ) -> int {
        self.pieces_total(perspective, king_square, added, c) - self.pieces_total(
            perspective,
            king_square,
            removed,
            c,
        )
    }

    /// An accumulator after pieces have been taken off and put on.
    pub open spec fn exchanged_acc(
        self,
        acc: Seq<i16>,
        perspective: Color,
        king_square: u8,
        removed: Seq<(u8, Piece)>,
        added: Seq<(u8, Piece)>,
    ) -> Seq<i16> {
        shifted16(
            acc,
            |c: int| self.exchange_total(perspective, king_square, removed, added, c),
        )
    }

    /// Piece-square sums after pieces have been taken off and put on.
    pub open spec fn exchanged_psqt(
        self,
        psqt: Seq<i32>,
        perspective: Color,
        king_square: u8,
        removed: Seq<(u8, Piece)>,
        added: Seq<(u8, Piece)>,
    ) -> Seq<i32> {
        shifted32(
            psqt,
            self.l1,
            |c: int| self.exchange_total(perspective, king_square, removed, added, c),
        )
    }

    /// What the step from one position to the next adds to channel `c` of a
    /// perspective whose king stays where it is. `pairs` are the attacks that
    /// are recorded for the position before the step.
    pub open spec fn step_total(
        self,
        perspective: Color,
        before: Position,
        after: Position,
        pairs: Seq<u32>,
        c: int,
    ) -> int {
        let king_square = after.king(perspective);
        let pieces = self.exchange_total(
            perspective,
            king_square,
            changed(before.pieces, after.pieces),
            changed(after.pieces, before.pieces),
            c,
        );
        if self.arch == Arch::Sfnnv10 {
            pieces + self.pairs_total(
                perspective,
                king_square,
                pair_list(board_codes(after.pieces)),
                c,
            ) - self.pairs_total(perspective, king_square, pairs, c)
        } else {
            pieces
        }
    }

    /// The accumulator of one perspective after a step: computed anew where
    /// that player's king has moved, and else taken on from `parent`.
    pub open spec fn stepped_acc(
        self,
        perspective: Color,
        before: Position,
        after: Position,
        parent: AccumulatorModel,
    ) -> Seq<i16> {
        if before.king(perspective) != after.king(perspective) {
            self.fresh_acc(perspective, after)
        } else {
            shifted16(
                parent.acc(perspective),
                |c: int| self.step_total(perspective, before, after, parent.threat_pairs, c),
            )
        }
    }

    /// The piece-square sums of one perspective after a step.
    pub open spec fn stepped_psqt(
        self,
        perspective: Color,
        before: Position,
        after: Position,
        parent: AccumulatorModel,
    ) -> Seq<i32> {
        if before.king(perspective) != after.king(perspective) {
            self.fresh_psqt(perspective, after)
        } else {
            shifted32(
                parent.psqt(perspective),
                self.l1,
                |c: int| self.step_total(perspective, before, after, parent.threat_pairs, c),
            )
        }
    }

    /// Whether the step from `before` to `after` can be taken from `parent`: the
    /// squares are on the board, the accumulators that are taken on have the
    /// right width, and the piece count does not leave the range of `usize`.
    pub open spec fn can_step(
        self,
        before: Position,
        after: Position,
        parent: AccumulatorModel,
    ) -> bool {
        &&& before.on_board()
        &&& after.valid()
        &&& parent.wf()
        &&& before.white_king == after.white_king ==> parent.white.len() == self.l1
        &&& before.black_king == after.black_king ==> parent.black.len() == self.l1
        &&& self.arch != Arch::Sfnnv10 ==> changed(before.pieces, after.pieces).len()
            <= parent.piece_count + changed(after.pieces, before.pieces).len() <= usize::MAX
    }

    /// The accumulators after a step from `before` to `after`, given those of
    /// `before`.
    pub open spec fn stepped(
        self,
        before: Position,
        after: Position,
        parent: AccumulatorModel,
        old_pairs: Seq<u32>,
    ) -> AccumulatorModel {
        AccumulatorModel {
            white: self.stepped_acc(Color::White, before, after, parent),
            black: self.stepped_acc(Color::Black, before, after, parent),
            psqt_white: self.stepped_psqt(Color::White, before, after, parent),
            psqt_black: self.stepped_psqt(Color::Black, before, after, parent),
            piece_count: if self.arch == Arch::Sfnnv10 {
                self.piece_count(after)
            } else {
                (parent.piece_count + changed(after.pieces, before.pieces).len() - changed(
                    before.pieces,
                    after.pieces,
                ).len()) as nat
            },
            threat_pairs: if self.arch == Arch::Sfnnv10 {
                pair_list(board_codes(after.pieces))
            } else {
                old_pairs
            },
        }
    }
}

/// One output of a dense layer, in 32-bit arithmetic.
pub open spec fn affine(bias: i32, row: Seq<i8>, input: Seq<u8>) -> i32 {
    wrap32(bias + dot(input, row))
}

/// Row `o` of a table with `n` weights to a row.
pub open spec fn row_of(weights: Seq<i8>, o: int, n: int) -> Seq<i8> {
    weights.subrange(o * n, o * n + n)
}

/// The activation after a dense layer: scaled down by 64, limited to `0..=127`.
pub open spec fn relu(x: i32) -> u8 {
    clamp_int(x as int / 64, 0, 127) as u8
}

/// The squared activation: scaled down by `2^19`, limited to 127.
pub open spec fn squared_relu(x: i32) -> u8 {
    clamp_int(x * x / 524288, 0, 127) as u8
}

/// The layer inputs of the pairwise activation with upper limit `hi`: the
/// halves of the mover's accumulator multiplied, then those of the opponent's.
pub open spec fn pairwise_input(mover: Seq<i16>, other: Seq<i16>, l1: nat, hi: i16) -> Seq<u8> {
    let half = l1 as int / 2;
    Seq::new(
        l1,
        |j: int|
            if j < half {
                clip_mul(mover[j], mover[half + j], hi, 9)
            } else {
                clip_mul(other[j - half], other[j], hi, 9)
            },
    )
}

/// The layer inputs of the clipped activation: the mover's accumulator, then
/// the opponent's.
pub open spec fn clipped_input(mover: Seq<i16>, other: Seq<i16>, l1: nat) -> Seq<u8> {
    Seq::new(
        2 * l1,
        |j: int|
            if j < l1 {
                clipped(mover[j])
            } else {
                clipped(other[j - l1])
            },
    )
}

impl BucketModel {
    /// The first layer with `out` outputs, before its activation.
    pub open spec fn fc0(self, out: nat, input: Seq<u8>) -> Seq<i32> {
        Seq::new(
            out,
            |o: int|
                affine(self.fc0_bias[o], row_of(self.fc0_weight, o, input.len() as int), input),
        )
    }

    /// The activated outputs of the second layer.
    pub open spec fn fc1(self, input: Seq<u8>) -> Seq<u8> {
        Seq::new(
            32,
            |o: int| relu(affine(self.fc1_bias[o], row_of(self.fc1_weight, o, 32), input)),
        )
    }

    /// The output of the last two layers.
    pub open spec fn tail(self, input: Seq<u8>) -> i32 {
        affine(self.fc2_bias, self.fc2_weight, self.fc1(input))
    }

    /// The stack whose first layer has 15 outputs that go on squared and
    /// clipped, and one that is added to the result.
    pub open spec fn hm_stack(self, input: Seq<u8>) -> i32 {
        let fc0 = self.fc0(16, input);
        let middle = Seq::new(
            30,
            |i: int|
                if i < 15 {
                    squared_relu(fc0[i])
                } else {
                    relu(fc0[i - 15])
                },
        );
        wrap32(self.tail(middle) + div_toward_zero(wrap32(fc0[15] * 9600) as int, 8128))
    }

    /// The stack whose first layer has `out` clipped outputs, padded to 32.
    pub open spec fn plain_stack(self, out: nat, input: Seq<u8>) -> i32 {
        let fc0 = self.fc0(out, input);
        self.tail(
            Seq::new(
                32,
                |i: int|
                    if i < out {
                        relu(fc0[i])
                    } else {
                        0u8
                    },
            ),
        )
    }
}

impl BucketModel {
    /// Whether two stacks differ at most in the padding of the second layer: in
    /// what follows the first `used` of the 32 weights of each of its rows.
    pub open spec fn same_but_padding(self, other: BucketModel, used: int) -> bool {
        &&& self.fc0_bias == other.fc0_bias
        &&& self.fc0_weight == other.fc0_weight
        &&& self.fc1_bias == other.fc1_bias
        &&& self.fc1_weight.len() == other.fc1_weight.len()
        &&& forall|i: int|
            0 <= i < self.fc1_weight.len() && i % 32 < used ==> #[trigger] self.fc1_weight[i]
                == other.fc1_weight[i]
        &&& self.fc2_bias == other.fc2_bias
        &&& self.fc2_weight == other.fc2_weight
    }
}

impl NetworkModel {
    /// The stack of layers for a number of pieces.
    pub open spec fn bucket_for(self, piece_count: nat) -> BucketModel {
        self.buckets[(piece_count - 1) / 4]
    }

    /// The piece-square part of a score.
    pub open spec fn psqt_score(self, acc: AccumulatorModel, stm: Color) -> int {
        let b = (acc.piece_count - 1) / 4;
        div_toward_zero(wrap32(acc.psqt(stm)[b] - acc.psqt(stm.flipped())[b]) as int, 2)
    }

    /// The score of the architectures with pairwise activation.
    pub open spec fn pairwise_score(self, acc: AccumulatorModel, stm: Color, hi: i16) -> int {
        let input = pairwise_input(acc.acc(stm), acc.acc(stm.flipped()), self.l1, hi);
        let positional = self.bucket_for(acc.piece_count).hm_stack(input);
        div_toward_zero(self.psqt_score(acc, stm), 16) + div_toward_zero(positional as int, 16)
    }

    /// The score of a position with the given accumulators, seen by the player
    /// to move.
    pub open spec fn score(self, acc: AccumulatorModel, stm: Color) -> int {
        match self.arch {
            Arch::Sfnnv10 => self.pairwise_score(acc, stm, 255),
            Arch::HalfKAv2Hm => self.pairwise_score(acc, stm, 254),
            Arch::HalfKAv2 => {
                let input = clipped_input(acc.acc(stm), acc.acc(stm.flipped()), self.l1);
                let positional = self.bucket_for(acc.piece_count).plain_stack(16, input);
                div_toward_zero(wrap32(self.psqt_score(acc, stm) + positional) as int, 16)
            },
            Arch::HalfKP => {
                let input = clipped_input(acc.acc(stm), acc.acc(stm.flipped()), self.l1);
                let positional = self.buckets[0].plain_stack(32, input);
                div_toward_zero(positional as int, 16)
            },
        }
    }

    /// Whether accumulators can be scored: they are wide enough, each side has
    /// eight piece-square sums, and where the stack of layers depends on the
    /// number of pieces, there are 1 to 32.
    pub open spec fn scorable(self, acc: AccumulatorModel) -> bool {
        &&& acc.white.len() >= self.l1
        &&& acc.black.len() >= self.l1
        &&& acc.psqt_white.len() == 8
        &&& acc.psqt_black.len() == 8
        &&& self.arch != Arch::HalfKP ==> 1 <= acc.piece_count <= 32
    }
}

} // verus!
