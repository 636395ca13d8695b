//! What each piece and each attack adds to the accumulators.

use crate::feature::{feature_in_range, Arch};
use crate::model::{
    board_difference, changed, occupied_upto, shifted16, shifted32, AccumulatorModel,
    NetworkModel,
};
use crate::planes::features_piece_by_piece;
use crate::scoring::same32;
use crate::simd::{added16, subtracted16, widened};
use crate::threats::{
    board_codes, packed, packing_is_reversible, pair_list, pairs_upto, threat_feature, threatens,
};
use crate::types::{Color, Piece, PieceKind, Position};
use vstd::prelude::*;

verus! {

/// Whether two numbers are the same in 16 bits.
pub open spec fn same16(x: int, y: int) -> bool {
    (x - y) % 0x1_0000 == 0
}

/// Adding and subtracting a row works place by place, up to the end of the
/// shorter one, and short weights keep their value.
pub proof fn rows_place_by_place(acc: Seq<i16>, w: Seq<i16>, short: Seq<i8>, j: int)
    requires
        0 <= j < acc.len(),
    ensures
        added16(acc, w).len() == acc.len(),
        subtracted16(acc, w).len() == acc.len(),
        widened(short).len() == short.len(),
        j < w.len() ==> same16(added16(acc, w)[j] as int, acc[j] + w[j]),
        j < w.len() ==> same16(subtracted16(acc, w)[j] as int, acc[j] - w[j]),
        j >= w.len() ==> added16(acc, w)[j] == acc[j] && subtracted16(acc, w)[j] == acc[j],
        j < short.len() ==> widened(short)[j] == short[j],
{
}

/// An empty board leaves the biases, and no piece-square sums.
pub proof fn empty_board_is_the_bias(net: NetworkModel, perspective: Color, pos: Position)
    requires
        net.wf(),
        pos.pieces.len() == 0,
    ensures
        net.fresh_acc(perspective, pos) == net.ft_bias,
        net.fresh_psqt(perspective, pos).len() == 8,
        forall|b: int| 0 <= b < 8 ==> #[trigger] net.fresh_psqt(perspective, pos)[b] == 0,
        net.piece_count(pos) == 0,
{
    let codes = board_codes(pos.pieces);
    let king = pos.king(perspective);
    assert(pos.pieces =~= Seq::empty());
    assert forall|c: int| net.position_total(perspective, pos, c) == 0 by {
        if net.arch == Arch::Sfnnv10 {
            lemma_nothing(net, perspective, king, codes, 64, c);
            lemma_no_attacks(codes, 4096);
            assert(pair_list(codes).len() == 0);
        }
    }
    assert(net.fresh_acc(perspective, pos) =~= net.ft_bias);
    lemma_nothing(net, perspective, king, codes, 64, 0);
}

proof fn lemma_nothing(
    net: NetworkModel,
    perspective: Color,
    king: u8,
    codes: Seq<u8>,
    n: nat,
    c: int,
)
    requires
        n <= 64,
        forall|sq: int| 0 <= sq < 64 ==> #[trigger] codes[sq] == 0,
    ensures
        net.squares_total(perspective, king, codes, n, c) == 0,
        occupied_upto(codes, n) == 0,
    decreases n,
{
    if n > 0 {
        lemma_nothing(net, perspective, king, codes, (n - 1) as nat, c);
        assert(codes[n - 1] == 0);
    }
}

proof fn lemma_no_attacks(codes: Seq<u8>, n: nat)
    requires
        n <= 4096,
        forall|sq: int| 0 <= sq < 64 ==> #[trigger] codes[sq] == 0,
    ensures
        pairs_upto(codes, n).len() == 0,
    decreases n,
{
    if n > 0 {
        lemma_no_attacks(codes, (n - 1) as nat);
        assert(codes[(n - 1) / 64] == 0);
    }
}

/// One more piece adds the row of its feature to the accumulator, and the sums
/// of its feature to the piece-square sums. In HalfKP a king adds nothing, and
/// there are no piece-square sums.
pub proof fn one_more_piece(
    net: NetworkModel,
    perspective: Color,
    pos: Position,
    next: Position,
    sq: u8,
    piece: Piece,
    j: int,
    b: int,
)
    requires
        net.wf(),
        net.arch != Arch::Sfnnv10,
        sq < 64,
        pos.king(perspective) < 64,
        next.king(perspective) == pos.king(perspective),
        next.pieces == pos.pieces.push((sq, piece)),
        0 <= j < net.l1,
        0 <= b < 8,
    ensures
        net.piece_count(next) == net.piece_count(pos) + 1,
        ({
            let l1 = net.l1 as int;
            let f = net.arch.feature(perspective, sq as int, piece.code(), pos.king(perspective));
            let acc = net.fresh_acc(perspective, pos)[j];
            let sum = net.fresh_psqt(perspective, pos)[b];
            let next_acc = net.fresh_acc(perspective, next)[j];
            let next_sum = net.fresh_psqt(perspective, next)[b];
            if net.arch == Arch::HalfKP {
                &&& sum == 0 && next_sum == 0
                &&& piece.kind == PieceKind::King ==> next_acc == acc
                &&& piece.kind != PieceKind::King ==> same16(
                    next_acc as int,
                    acc + net.ft_weight[f * l1 + j],
                )
            } else {
                &&& same16(next_acc as int, acc + net.ft_weight[f * l1 + j])
                &&& same32(next_sum as int, sum + net.ft_psqt[f * 8 + b])
            }
        }),
{
    let king = pos.king(perspective);
    let f = net.arch.feature(perspective, sq as int, piece.code(), king);
    feature_in_range(net.arch, perspective, sq as int, piece.code(), king);
    features_piece_by_piece(net.arch, perspective, king, pos.pieces, sq, piece);
    let rows = net.arch.rows(perspective, king, pos.pieces);
    assert(rows.push(f as usize).drop_last() =~= rows);
    if net.arch == Arch::HalfKP {
        lemma_no_sums(net, rows, net.l1 + b);
        lemma_no_sums(net, net.arch.rows(perspective, king, next.pieces), net.l1 + b);
    }
}

proof fn lemma_no_sums(net: NetworkModel, rows: Seq<usize>, c: int)
    requires
        net.ft_psqt.len() == 0,
        c >= net.l1,
    ensures
        net.rows_total(rows, c) == 0,
    decreases rows.len(),
{
    if rows.len() > 0 {
        lemma_no_sums(net, rows.drop_last(), c);
    }
}

/// With attack features an accumulator is the biases, and what the squares and
/// the attacks add; the piece-square sums are what they add.
pub proof fn pieces_and_attacks_add_up(
    net: NetworkModel,
    perspective: Color,
    pos: Position,
    j: int,
    b: int,
)
    requires
        net.wf(),
        net.arch == Arch::Sfnnv10,
        0 <= j < net.l1,
        0 <= b < 8,
    ensures
        ({
            let l1 = net.l1 as int;
            let king = pos.king(perspective);
            let codes = board_codes(pos.pieces);
            let pairs = pair_list(codes);
            &&& same16(
                net.fresh_acc(perspective, pos)[j] as int,
                net.ft_bias[j] + net.squares_total(perspective, king, codes, 64, j)
                    + net.pairs_total(perspective, king, pairs, j),
            )
            &&& same32(
                net.fresh_psqt(perspective, pos)[b] as int,
                net.squares_total(perspective, king, codes, 64, l1 + b) + net.pairs_total(
                    perspective,
                    king,
                    pairs,
                    l1 + b,
                ),
            )
        }),
{
}

proof fn lemma_square_put(
    net: NetworkModel,
    perspective: Color,
    king: u8,
    codes: Seq<u8>,
    sq: int,
    code: u8,
    n: nat,
    c: int,
)
    requires
        n <= codes.len(),
        0 <= sq < codes.len(),
        codes[sq] == 0,
        code != 0,
    ensures
        net.squares_total(perspective, king, codes.update(sq, code), n, c) == net.squares_total(
            perspective,
            king,
            codes,
            n,
            c,
        ) + if sq < n {
            net.piece_weight(net.arch.feature(perspective, sq, code as int, king), c)
        } else {
            0
        },
    decreases n,
{
    if n > 0 {
        lemma_square_put(net, perspective, king, codes, sq, code, (n - 1) as nat, c);
    }
}

/// With attack features a piece on an empty square adds the row of its feature
/// to what the squares add.
pub proof fn one_more_square(
    net: NetworkModel,
    perspective: Color,
    king: u8,
    codes: Seq<u8>,
    sq: int,
    code: u8,
    j: int,
    b: int,
)
    requires
        net.wf(),
        net.arch == Arch::Sfnnv10,
        king < 64,
        codes.len() == 64,
        0 <= sq < 64,
        codes[sq] == 0,
        0 < code < 16,
        0 <= j < net.l1,
        0 <= b < 8,
    ensures
        ({
            let l1 = net.l1 as int;
            let f = net.arch.feature(perspective, sq, code as int, king);
            let next = codes.update(sq, code);
            &&& net.squares_total(perspective, king, next, 64, j) == net.squares_total(
                perspective,
                king,
                codes,
                64,
                j,
            ) + net.ft_weight[f * l1 + j]
            &&& net.squares_total(perspective, king, next, 64, l1 + b) == net.squares_total(
                perspective,
                king,
                codes,
                64,
                l1 + b,
            ) + net.ft_psqt[f * 8 + b]
        }),
{
    let l1 = net.l1 as int;
    feature_in_range(net.arch, perspective, sq, code as int, king);
    lemma_square_put(net, perspective, king, codes, sq, code, 64, j);
    lemma_square_put(net, perspective, king, codes, sq, code, 64, l1 + b);
}

/// One more attack adds the row of its feature, if it has one, and nothing else.
pub proof fn one_more_attack(
    net: NetworkModel,
    perspective: Color,
    king: u8,
    pairs: Seq<u32>,
    from: int,
    to: int,
    attacker: int,
    attacked: int,
    j: int,
    b: int,
)
    requires
        net.wf(),
        net.arch == Arch::Sfnnv10,
        0 <= from < 64,
        0 <= to < 64,
        0 <= attacker < 16,
        0 <= attacked < 16,
        0 <= j < net.l1,
        0 <= b < 8,
    ensures
        net.pairs_total(perspective, king, Seq::empty(), j) == 0,
        net.pairs_total(perspective, king, Seq::empty(), net.l1 + b) == 0,
        ({
            let l1 = net.l1 as int;
            let f = threat_feature(perspective, attacker, from, to, attacked, king) as int;
            let next = pairs.push((16384 * from + 256 * to + 16 * attacker + attacked) as u32);
            let row = net.pairs_total(perspective, king, next, j) - net.pairs_total(
                perspective,
                king,
                pairs,
                j,
            );
            let sum = net.pairs_total(perspective, king, next, l1 + b) - net.pairs_total(
                perspective,
                king,
                pairs,
                l1 + b,
            );
            if f < 79856 {
                row == net.threat_weight[f * l1 + j] && sum == net.threat_psqt[f * 8 + b]
            } else {
                row == 0 && sum == 0
            }
        }),
{
    let pair = (16384 * from + 256 * to + 16 * attacker + attacked) as u32;
    packing_is_reversible(from, to, attacker, attacked);
    assert(pair == packed(from, to, attacker, attacked));
    assert(pairs.push(pair).drop_last() =~= pairs);
}

proof fn lemma_below(codes: Seq<u8>, n: nat, i: int)
    requires
        n <= 4096,
        codes.len() == 64,
        forall|sq: int| 0 <= sq < 64 ==> #[trigger] codes[sq] < 16,
        0 <= i < pairs_upto(codes, n).len(),
    ensures
        pairs_upto(codes, n)[i] < 256 * n,
    decreases n,
{
    let before = pairs_upto(codes, (n - 1) as nat);
    let from = (n - 1) / 64;
    let to = (n - 1) % 64;
    if threatens(codes, from, to) && i == before.len() {
        assert(codes[from] < 16 && codes[to] < 16);
        packing_is_reversible(from, to, codes[from] as int, codes[to] as int);
        assert(from * 16384 + to * 256 == 256 * (n - 1));
    } else {
        lemma_below(codes, (n - 1) as nat, i);
    }
}

/// The attacks are listed in order, by the square of the attacker and then by
/// that of the attacked piece, none of them twice.
pub proof fn attacks_are_listed_in_order(codes: Seq<u8>, i: int, k: int)
    requires
        codes.len() == 64,
        forall|sq: int| 0 <= sq < 64 ==> #[trigger] codes[sq] < 16,
        0 <= i < k < pair_list(codes).len(),
    ensures
        pair_list(codes)[i] / 256 < pair_list(codes)[k] / 256,
{
    lemma_squares_ascend(codes, 4096, i, k);
}

proof fn lemma_squares_ascend(codes: Seq<u8>, n: nat, i: int, k: int)
    requires
        n <= 4096,
        codes.len() == 64,
        forall|sq: int| 0 <= sq < 64 ==> #[trigger] codes[sq] < 16,
        0 <= i < k < pairs_upto(codes, n).len(),
    ensures
        pairs_upto(codes, n)[i] / 256 < pairs_upto(codes, n)[k] / 256,
    decreases n,
{
    let before = pairs_upto(codes, (n - 1) as nat);
    let from = (n - 1) / 64;
    let to = (n - 1) % 64;
    if threatens(codes, from, to) && k == before.len() {
        assert(codes[from] < 16 && codes[to] < 16);
        packing_is_reversible(from, to, codes[from] as int, codes[to] as int);
        assert(from * 16384 + to * 256 == 256 * (n - 1));
        lemma_below(codes, (n - 1) as nat, i);
    } else {
        lemma_squares_ascend(codes, (n - 1) as nat, i, k);
    }
}

/// An update records the differences of two placements, up to four each way:
/// all of them where there are no more, and else the four on the lowest squares.
pub proof fn four_differences_are_recorded(
    before: Seq<(u8, Piece)>,
    after: Seq<(u8, Piece)>,
)
    ensures
        ({
            let gone = board_difference(before, after).0;
            let recorded = changed(before, after);
            &&& gone.len() <= 4 ==> recorded == gone
            &&& gone.len() > 4 ==> recorded.len() == 4
            &&& forall|i: int| 0 <= i < recorded.len() ==> #[trigger] recorded[i] == gone[i]
        }),
{
}

/// A shift moves every place by its own amount, and none of the others.
pub proof fn shifts_place_by_place(
    acc: Seq<i16>,
    psqt: Seq<i32>,
    l1: nat,
    delta: spec_fn(int) -> int,
    j: int,
    b: int,
)
    requires
        0 <= j < acc.len(),
        0 <= b < psqt.len(),
    ensures
        shifted16(acc, delta).len() == acc.len(),
        shifted32(psqt, l1, delta).len() == psqt.len(),
        same16(shifted16(acc, delta)[j] as int, acc[j] + delta(j)),
        same32(shifted32(psqt, l1, delta)[b] as int, psqt[b] + delta(l1 + b)),
{
}

/// Each player has an accumulator and piece-square sums of their own, and the
/// attacks of the position are recorded where they are features.
pub proof fn each_side_has_its_own(net: NetworkModel, pos: Position, old_pairs: Seq<u32>)
    ensures
        ({
            let acc = net.fresh(pos, old_pairs);
            &&& acc.white == net.fresh_acc(Color::White, pos)
            &&& acc.black == net.fresh_acc(Color::Black, pos)
            &&& acc.psqt_white == net.fresh_psqt(Color::White, pos)
            &&& acc.psqt_black == net.fresh_psqt(Color::Black, pos)
            &&& net.arch == Arch::Sfnnv10 ==> acc.threat_pairs == pair_list(
                board_codes(pos.pieces),
            )
            &&& net.arch != Arch::Sfnnv10 ==> acc.threat_pairs == old_pairs
        }),
{
}

/// A step moves an accumulator by the same amount wherever it starts, if the
/// same attacks are recorded, and a player whose king moves gets accumulators
/// that do not depend on the earlier ones.
pub proof fn steps_do_not_depend_on_the_start(
    net: NetworkModel,
    perspective: Color,
    before: Position,
    after: Position,
    a: AccumulatorModel,
    b: AccumulatorModel,
    j: int,
    k: int,
)
    requires
        a.acc(perspective).len() == net.l1,
        b.acc(perspective).len() == net.l1,
        a.psqt(perspective).len() == 8,
        b.psqt(perspective).len() == 8,
        a.threat_pairs == b.threat_pairs,
        0 <= j < net.l1,
        0 <= k < 8,
    ensures
        ({
            let acc_a = net.stepped_acc(perspective, before, after, a);
            let acc_b = net.stepped_acc(perspective, before, after, b);
            let psqt_a = net.stepped_psqt(perspective, before, after, a);
            let psqt_b = net.stepped_psqt(perspective, before, after, b);
            if before.king(perspective) == after.king(perspective) {
                &&& same16(
                    acc_a[j] - a.acc(perspective)[j],
                    acc_b[j] - b.acc(perspective)[j],
                )
                &&& same32(
                    psqt_a[k] - a.psqt(perspective)[k],
                    psqt_b[k] - b.psqt(perspective)[k],
                )
            } else {
                &&& acc_a == net.fresh_acc(perspective, after)
                &&& acc_b == acc_a
                &&& psqt_a == net.fresh_psqt(perspective, after)
                &&& psqt_b == psqt_a
            }
        }),
{
    if before.king(perspective) == after.king(perspective) {
        let delta = |c: int| net.step_total(perspective, before, after, a.threat_pairs, c);
        let acc_a = a.acc(perspective);
        let acc_b = b.acc(perspective);
        let psqt_a = a.psqt(perspective);
        let psqt_b = b.psqt(perspective);
        shifts_place_by_place(acc_a, psqt_a, net.l1, delta, j, k);
        shifts_place_by_place(acc_b, psqt_b, net.l1, delta, j, k);
        lemma_same_shift(
            shifted16(acc_a, delta)[j] as int,
            acc_a[j] as int,
            shifted16(acc_b, delta)[j] as int,
            acc_b[j] as int,
            delta(j),
        );
        lemma_same_shift(
            shifted32(psqt_a, net.l1, delta)[k] as int,
            psqt_a[k] as int,
            shifted32(psqt_b, net.l1, delta)[k] as int,
            psqt_b[k] as int,
            delta(net.l1 + k),
        );
    }
}

proof fn lemma_same_shift(u: int, x: int, v: int, y: int, d: int)
    ensures
        same16(u, x + d) && same16(v, y + d) ==> same16(u - x, v - y),
        same32(u, x + d) && same32(v, y + d) ==> same32(u - x, v - y),
{
}

} // verus!
