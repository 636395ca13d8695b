//! What holds of the library as a whole.

use crate::arith::{lemma_wrap32_in_range, wrap32};
use crate::feature::{feature_in_range, Arch};
use crate::model::{
    at_after_exchange, board_difference, changed, difference_upto, differences_on_board, no_psqt,
    occupied_upto, relu, row_of, shifted16, shifted32, shifts_add_up, squared_relu,
    AccumulatorModel, BucketModel, NetworkModel,
};
use crate::simd::{dot, dot_prefix};
use crate::threats::{
    attack_feature_in_range, board_codes, code_of, is_piece, pair_list, pairs_valid_and_sorted,
    threat_feature, unpacked, valid_codes, valid_pair, EXCLUDED,
};
use crate::types::{distinct_squares, piece_at, Color, Piece, Position};
use vstd::prelude::*;

verus! {

/// What the listed pieces weigh.
spec fn listed(w: spec_fn(int, Option<Piece>) -> int, pieces: Seq<(u8, Piece)>) -> int
    decreases pieces.len(),
{
    if pieces.len() == 0 {
        0
    } else {
        listed(w, pieces.drop_last()) + w(pieces.last().0 as int, Some(pieces.last().1))
    }
}

/// What the first `n` squares weigh.
spec fn placed(
    w: spec_fn(int, Option<Piece>) -> int,
    pieces: Seq<(u8, Piece)>,
    n: nat,
) -> int
    decreases n,
{
    if n == 0 {
        0
    } else {
        placed(w, pieces, (n - 1) as nat) + w(n - 1, piece_at(pieces, n - 1))
    }
}

/// A square that is not listed is empty.
proof fn lemma_not_listed(pieces: Seq<(u8, Piece)>, sq: int)
    requires
        forall|i: int| 0 <= i < pieces.len() ==> (#[trigger] pieces[i]).0 != sq,
    ensures
        piece_at(pieces, sq) is None,
    decreases pieces.len(),
{
    if pieces.len() > 0 {
        assert(pieces.last() == pieces[pieces.len() - 1]);
        assert forall|i: int| 0 <= i < pieces.drop_last().len() implies (
        #[trigger] pieces.drop_last()[i]).0 != sq by {
            assert(pieces.drop_last()[i] == pieces[i]);
        }
        lemma_not_listed(pieces.drop_last(), sq);
    }
}

/// What one piece more adds to the squares.
proof fn lemma_placed_push(
    w: spec_fn(int, Option<Piece>) -> int,
    pieces: Seq<(u8, Piece)>,
    sq: u8,
    piece: Piece,
    n: nat,
)
    requires
        piece_at(pieces, sq as int) is None,
        w(sq as int, None) == 0,
    ensures
        placed(w, pieces.push((sq, piece)), n) == placed(w, pieces, n) + if sq < n {
            w(sq as int, Some(piece))
        } else {
            0
        },
    decreases n,
{
    let more = pieces.push((sq, piece));
    assert(more.drop_last() =~= pieces);
    if n > 0 {
        lemma_placed_push(w, pieces, sq, piece, (n - 1) as nat);
    }
}

/// Where no square is listed twice, the list weighs what the squares weigh.
proof fn lemma_listed_is_placed(w: spec_fn(int, Option<Piece>) -> int, pieces: Seq<(u8, Piece)>)
    requires
        forall|sq: int| #[trigger] w(sq, None) == 0,
        distinct_squares(pieces),
        forall|i: int| 0 <= i < pieces.len() ==> (#[trigger] pieces[i]).0 < 64,
    ensures
        listed(w, pieces) == placed(w, pieces, 64),
    decreases pieces.len(),
{
    if pieces.len() == 0 {
        lemma_placed_empty(w, pieces, 64);
    } else {
        let before = pieces.drop_last();
        let (sq, piece) = pieces.last();
        assert(pieces[pieces.len() - 1] == (sq, piece));
        assert forall|i: int| 0 <= i < before.len() implies (#[trigger] before[i]).0 != sq
            && before[i].0 < 64 by {
            assert(before[i] == pieces[i]);
        }
        assert(distinct_squares(before)) by {
            assert forall|i: int, j: int| 0 <= i < j < before.len() implies (
            #[trigger] before[i]).0 != (#[trigger] before[j]).0 by {
                assert(before[i] == pieces[i] && before[j] == pieces[j]);
            }
        }
        lemma_not_listed(before, sq as int);
        lemma_listed_is_placed(w, before);
        lemma_placed_push(w, before, sq, piece, 64);
        assert(before.push((sq, piece)) =~= pieces);
    }
}

proof fn lemma_placed_empty(w: spec_fn(int, Option<Piece>) -> int, pieces: Seq<(u8, Piece)>, n: nat)
    requires
        forall|sq: int| #[trigger] w(sq, None) == 0,
        pieces.len() == 0,
    ensures
        placed(w, pieces, n) == 0,
    decreases n,
{
    if n > 0 {
        lemma_placed_empty(w, pieces, (n - 1) as nat);
    }
}

/// What two placements have and the other has not makes up the difference of
/// what they weigh.
proof fn lemma_difference(
    w: spec_fn(int, Option<Piece>) -> int,
    a: Seq<(u8, Piece)>,
    b: Seq<(u8, Piece)>,
    n: nat,
)
    requires
        forall|sq: int| #[trigger] w(sq, None) == 0,
        n <= 64,
    ensures
        placed(w, a, n) - placed(w, b, n) == listed(w, difference_upto(a, b, n)) - listed(
            w,
            difference_upto(b, a, n),
        ),
    decreases n,
{
    if n > 0 {
        lemma_difference(w, a, b, (n - 1) as nat);
        lemma_difference_step(w, a, b, n);
        lemma_difference_step(w, b, a, n);
    }
}

proof fn lemma_difference_step(
    w: spec_fn(int, Option<Piece>) -> int,
    gone: Seq<(u8, Piece)>,
    kept: Seq<(u8, Piece)>,
    n: nat,
)
    requires
        forall|sq: int| #[trigger] w(sq, None) == 0,
        0 < n <= 64,
    ensures
        listed(w, difference_upto(gone, kept, n)) == listed(
            w,
            difference_upto(gone, kept, (n - 1) as nat),
        ) + if piece_at(gone, n - 1) != piece_at(kept, n - 1) {
            w(n - 1, piece_at(gone, n - 1))
        } else {
            0
        },
{
    let before = difference_upto(gone, kept, (n - 1) as nat);
    assert(w(n - 1, None) == 0);
    if let Some(piece) = piece_at(gone, n - 1) {
        let entry = ((n - 1) as u8, piece);
        assert(before.push(entry).drop_last() =~= before);
    }
}

/// What a piece adds to channel `c` of a perspective.
spec fn weigher(
    net: NetworkModel,
    perspective: Color,
    king_square: u8,
    c: int,
) -> spec_fn(int, Option<Piece>) -> int {
    |sq: int, piece: Option<Piece>|
        match piece {
            Some(p) => if net.arch.counts(p.kind) {
                net.piece_weight(net.arch.feature(perspective, sq, p.code(), king_square), c)
            } else {
                0
            },
            None => 0,
        }
}

/// What one piece counts: a single one.
spec fn counter() -> spec_fn(int, Option<Piece>) -> int {
    |sq: int, piece: Option<Piece>|
        if piece is Some {
            1
        } else {
            0
        }
}

proof fn lemma_pieces_total(
    net: NetworkModel,
    perspective: Color,
    king_square: u8,
    pieces: Seq<(u8, Piece)>,
    c: int,
)
    requires
        king_square < 64,
        forall|i: int| 0 <= i < pieces.len() ==> (#[trigger] pieces[i]).0 < 64,
    ensures
        net.pieces_total(perspective, king_square, pieces, c) == listed(
            weigher(net, perspective, king_square, c),
            pieces,
        ),
    decreases pieces.len(),
{
    if pieces.len() > 0 {
        let before = pieces.drop_last();
        let (sq, piece) = pieces.last();
        assert(pieces[pieces.len() - 1] == (sq, piece));
        assert forall|i: int| 0 <= i < before.len() implies (#[trigger] before[i]).0 < 64 by {
            assert(before[i] == pieces[i]);
        }
        lemma_pieces_total(net, perspective, king_square, before, c);
        feature_in_range(net.arch, perspective, sq as int, piece.code(), king_square);
        let rows = net.arch.rows(perspective, king_square, before);
        let feature = net.arch.feature(perspective, sq as int, piece.code(), king_square) as usize;
        assert(rows.push(feature).drop_last() =~= rows);
    }
}

proof fn lemma_squares_total(
    net: NetworkModel,
    perspective: Color,
    king_square: u8,
    pieces: Seq<(u8, Piece)>,
    n: nat,
    c: int,
)
    requires
        net.arch != Arch::HalfKP,
        n <= 64,
    ensures
        net.squares_total(perspective, king_square, board_codes(pieces), n, c) == placed(
            weigher(net, perspective, king_square, c),
            pieces,
            n,
        ),
    decreases n,
{
    if n > 0 {
        lemma_squares_total(net, perspective, king_square, pieces, (n - 1) as nat, c);
    }
}

proof fn lemma_occupied(pieces: Seq<(u8, Piece)>, n: nat)
    requires
        n <= 64,
    ensures
        occupied_upto(board_codes(pieces), n) == placed(counter(), pieces, n),
    decreases n,
{
    if n > 0 {
        lemma_occupied(pieces, (n - 1) as nat);
    }
}

proof fn lemma_counted(pieces: Seq<(u8, Piece)>)
    ensures
        listed(counter(), pieces) == pieces.len(),
    decreases pieces.len(),
{
    if pieces.len() > 0 {
        lemma_counted(pieces.drop_last());
    }
}

/// The number of pieces that the accumulators of a position record is the
/// number of pieces that the board lists, where it lists no square twice.
pub proof fn every_piece_is_counted(net: NetworkModel, pos: Position)
    requires
        pos.on_board(),
        pos.distinct(),
    ensures
        net.piece_count(pos) == pos.pieces.len(),
{
    lemma_occupied(pos.pieces, 64);
    lemma_counted(pos.pieces);
    lemma_listed_is_placed(counter(), pos.pieces);
}

/// What a position adds to a channel, as a sum over the squares.
proof fn lemma_position_total(net: NetworkModel, perspective: Color, pos: Position, c: int)
    requires
        pos.valid(),
        net.arch != Arch::Sfnnv10 ==> pos.distinct(),
    ensures
        net.position_total(perspective, pos, c) == placed(
            weigher(net, perspective, pos.king(perspective), c),
            pos.pieces,
            64,
        ) + if net.arch == Arch::Sfnnv10 {
            net.pairs_total(
                perspective,
                pos.king(perspective),
                pair_list(board_codes(pos.pieces)),
                c,
            )
        } else {
            0
        },
{
    let ksq = pos.king(perspective);
    if net.arch == Arch::Sfnnv10 {
        lemma_squares_total(net, perspective, ksq, pos.pieces, 64, c);
    } else {
        lemma_pieces_total(net, perspective, ksq, pos.pieces, c);
        lemma_listed_is_placed(weigher(net, perspective, ksq, c), pos.pieces);
    }
}

/// Whether the step from one position to the next is one that an update takes
/// in full: no more than four pieces leave their squares, and no more than four
/// come to stand on new ones.
pub open spec fn is_step(before: Position, after: Position) -> bool {
    &&& difference_upto(before.pieces, after.pieces, 64).len() <= 4
    &&& difference_upto(after.pieces, before.pieces, 64).len() <= 4
}

/// The number of entries of `squares` that are below `n`.
spec fn below(squares: Seq<int>, n: int) -> nat
    decreases squares.len(),
{
    if squares.len() == 0 {
        0
    } else {
        below(squares.drop_last(), n) + if squares.last() < n {
            1nat
        } else {
            0
        }
    }
}

proof fn lemma_below(squares: Seq<int>, n: int)
    ensures
        below(squares, n) <= below(squares, n + 1) <= squares.len(),
        squares.contains(n) ==> below(squares, n) < below(squares, n + 1),
    decreases squares.len(),
{
    if squares.len() > 0 {
        let before = squares.drop_last();
        lemma_below(before, n);
        if squares.contains(n) && squares.last() != n {
            let i = choose|i: int| 0 <= i < squares.len() && squares[i] == n;
            assert(before[i] == n);
        }
    }
}

proof fn lemma_few_differences(
    gone: Seq<(u8, Piece)>,
    kept: Seq<(u8, Piece)>,
    squares: Seq<int>,
    n: nat,
)
    requires
        n <= 64,
        forall|sq: int|
            0 <= sq < 64 && !squares.contains(sq) ==> #[trigger] piece_at(gone, sq) == piece_at(
                kept,
                sq,
            ),
    ensures
        difference_upto(gone, kept, n).len() <= below(squares, n as int),
    decreases n,
{
    if n > 0 {
        lemma_few_differences(gone, kept, squares, (n - 1) as nat);
        lemma_below(squares, n - 1);
        if !squares.contains(n - 1) {
            assert(piece_at(gone, n - 1) == piece_at(kept, n - 1));
        }
    }
}

/// Every kind of move is a step: whatever changes at most four squares. A move,
/// a capture or a promotion changes two, taking en passant three, castling four.
pub proof fn every_move_is_a_step(before: Position, after: Position, squares: Seq<int>)
    requires
        squares.len() <= 4,
        forall|sq: int|
            0 <= sq < 64 && !squares.contains(sq) ==> #[trigger] before.at(sq) == after.at(sq),
    ensures
        is_step(before, after),
{
    assert forall|sq: int| 0 <= sq < 64 && !squares.contains(sq) implies #[trigger] piece_at(
        before.pieces,
        sq,
    ) == piece_at(after.pieces, sq) by {
        assert(before.at(sq) == after.at(sq));
    }
    lemma_few_differences(before.pieces, after.pieces, squares, 64);
    lemma_few_differences(after.pieces, before.pieces, squares, 64);
    lemma_below(squares, 64);
    lemma_below(squares, 63);
}

/// What stands on a square by a list of differences: the piece that has gone.
proof fn lemma_difference_at(gone: Seq<(u8, Piece)>, kept: Seq<(u8, Piece)>, n: nat, sq: int)
    requires
        n <= 64,
        0 <= sq < 64,
    ensures
        piece_at(difference_upto(gone, kept, n), sq) == if sq < n && piece_at(gone, sq)
            != piece_at(kept, sq) {
            piece_at(gone, sq)
        } else {
            None
        },
    decreases n,
{
    if n > 0 {
        lemma_difference_at(gone, kept, (n - 1) as nat, sq);
        let before = difference_upto(gone, kept, (n - 1) as nat);
        if let Some(piece) = piece_at(gone, n - 1) {
            assert(before.push(((n - 1) as u8, piece)).drop_last() =~= before);
        }
    }
}

/// Every difference is a piece that the one placement has and the other has not.
proof fn lemma_difference_entries(gone: Seq<(u8, Piece)>, kept: Seq<(u8, Piece)>, n: nat)
    requires
        n <= 64,
    ensures
        forall|k: int|
            0 <= k < difference_upto(gone, kept, n).len() ==> {
                let (sq, piece) = #[trigger] difference_upto(gone, kept, n)[k];
                sq < n && piece_at(gone, sq as int) == Some(piece) && piece_at(kept, sq as int)
                    != Some(piece)
            },
        distinct_squares(difference_upto(gone, kept, n)),
    decreases n,
{
    if n > 0 {
        lemma_difference_entries(gone, kept, (n - 1) as nat);
        let before = difference_upto(gone, kept, (n - 1) as nat);
        let all = difference_upto(gone, kept, n);
        assert forall|k: int| 0 <= k < all.len() implies {
            let (sq, piece) = #[trigger] all[k];
            sq < n && piece_at(gone, sq as int) == Some(piece) && piece_at(kept, sq as int) != Some(
                piece,
            )
        } by {
            if k < before.len() {
                assert(all[k] == before[k]);
            }
        }
        assert forall|i: int, j: int| 0 <= i < j < all.len() implies (#[trigger] all[i]).0 != (
        #[trigger] all[j]).0 by {
            assert(all[i] == before[i]);
            if j < before.len() {
                assert(all[j] == before[j]);
            }
        }
    }
}

/// The differences of two placements lead from the one to the other: taking off
/// what leaves, which was there, and putting on what comes gives the second
/// placement. Nothing both leaves and comes, no square is listed twice, 64
/// places are always enough, and comparing the other way round exchanges the
/// two lists.
pub proof fn differences_lead_over(before: Seq<(u8, Piece)>, after: Seq<(u8, Piece)>)
    ensures
        ({
            let (removed, added) = board_difference(before, after);
            &&& forall|sq: int|
                0 <= sq < 64 ==> #[trigger] piece_at(after, sq) == at_after_exchange(
                    before,
                    removed,
                    added,
                    sq,
                )
            &&& forall|k: int|
                0 <= k < removed.len() ==> piece_at(before, (#[trigger] removed[k]).0 as int)
                    == Some(removed[k].1)
            &&& forall|entry: (u8, Piece)|
                #[trigger] removed.contains(entry) ==> !added.contains(entry)
            &&& distinct_squares(removed)
            &&& distinct_squares(added)
            &&& removed.len() <= 64
            &&& added.len() <= 64
            &&& board_difference(after, before) == (added, removed)
        }),
{
    let (removed, added) = board_difference(before, after);
    lemma_difference_entries(before, after, 64);
    lemma_difference_entries(after, before, 64);
    differences_on_board(before, after, 64);
    differences_on_board(after, before, 64);
    assert forall|sq: int| 0 <= sq < 64 implies #[trigger] piece_at(after, sq)
        == at_after_exchange(before, removed, added, sq) by {
        lemma_difference_at(before, after, 64, sq);
        lemma_difference_at(after, before, 64, sq);
    }
    assert forall|entry: (u8, Piece)| #[trigger] removed.contains(entry) implies !added.contains(
        entry,
    ) by {
        let i = choose|i: int| 0 <= i < removed.len() && removed[i] == entry;
        if added.contains(entry) {
            let j = choose|j: int| 0 <= j < added.len() && added[j] == entry;
            assert(removed[i] == added[j]);
        }
    }
}

/// The differences account for the numbers of pieces, where neither board lists
/// a square twice.
pub proof fn differences_count(before: Position, after: Position)
    requires
        before.on_board(),
        before.distinct(),
        after.on_board(),
        after.distinct(),
    ensures
        ({
            let (removed, added) = board_difference(before.pieces, after.pieces);
            after.pieces.len() == before.pieces.len() + added.len() - removed.len()
        }),
{
    lemma_counted(before.pieces);
    lemma_counted(after.pieces);
    lemma_listed_is_placed(counter(), before.pieces);
    lemma_listed_is_placed(counter(), after.pieces);
    lemma_difference(counter(), after.pieces, before.pieces, 64);
    lemma_counted(difference_upto(before.pieces, after.pieces, 64));
    lemma_counted(difference_upto(after.pieces, before.pieces, 64));
}

/// Whether the accumulators of a network for `pos` are sums over the squares of
/// the board: a network without attack features sums over the listed pieces.
pub open spec fn sums_squares(net: NetworkModel, pos: Position) -> bool {
    &&& pos.valid()
    &&& net.arch != Arch::Sfnnv10 ==> pos.distinct()
}

proof fn lemma_step_total(
    net: NetworkModel,
    perspective: Color,
    before: Position,
    after: Position,
    pairs: Seq<u32>,
    c: int,
)
    requires
        sums_squares(net, before),
        sums_squares(net, after),
        is_step(before, after),
        before.king(perspective) == after.king(perspective),
        net.arch == Arch::Sfnnv10 ==> pairs == pair_list(board_codes(before.pieces)),
    ensures
        net.position_total(perspective, after, c) == net.position_total(perspective, before, c)
            + net.step_total(perspective, before, after, pairs, c),
{
    let ksq = after.king(perspective);
    let w = weigher(net, perspective, ksq, c);
    lemma_position_total(net, perspective, before, c);
    lemma_position_total(net, perspective, after, c);
    lemma_difference(w, after.pieces, before.pieces, 64);
    differences_on_board(after.pieces, before.pieces, 64);
    differences_on_board(before.pieces, after.pieces, 64);
    lemma_pieces_total(net, perspective, ksq, changed(after.pieces, before.pieces), c);
    lemma_pieces_total(net, perspective, ksq, changed(before.pieces, after.pieces), c);
}

proof fn lemma_side_step(
    net: NetworkModel,
    perspective: Color,
    before: Position,
    after: Position,
    parent: AccumulatorModel,
)
    requires
        sums_squares(net, before),
        sums_squares(net, after),
        is_step(before, after),
        parent.acc(perspective) == net.fresh_acc(perspective, before),
        parent.psqt(perspective) == net.fresh_psqt(perspective, before),
        net.arch == Arch::Sfnnv10 ==> parent.threat_pairs == pair_list(board_codes(before.pieces)),
    ensures
        net.stepped_acc(perspective, before, after, parent) == net.fresh_acc(perspective, after),
        net.stepped_psqt(perspective, before, after, parent) == net.fresh_psqt(perspective, after),
{
    if before.king(perspective) == after.king(perspective) {
        let first = |c: int| net.position_total(perspective, before, c);
        let second = |c: int|
            net.step_total(perspective, before, after, parent.threat_pairs, c);
        let both = |c: int| net.position_total(perspective, after, c);
        assert forall|c: int| #[trigger] both(c) == first(c) + second(c) by {
            lemma_step_total(net, perspective, before, after, parent.threat_pairs, c);
        }
        shifts_add_up(net.ft_bias, no_psqt(), net.l1, first, second, both);
    }
}

/// An update gives the accumulators that a full computation gives: taking the
/// step from `before` to `after`, from the accumulators of `before`, leads to
/// the accumulators of `after`, bit for bit.
pub proof fn update_is_refresh(
    net: NetworkModel,
    before: Position,
    after: Position,
    before_pairs: Seq<u32>,
    old_pairs: Seq<u32>,
)
    requires
        sums_squares(net, before),
        sums_squares(net, after),
        is_step(before, after),
    ensures
        net.stepped(before, after, net.fresh(before, before_pairs), old_pairs) == net.fresh(
            after,
            old_pairs,
        ),
{
    let parent = net.fresh(before, before_pairs);
    lemma_side_step(net, Color::White, before, after, parent);
    lemma_side_step(net, Color::Black, before, after, parent);
    if net.arch != Arch::Sfnnv10 {
        lemma_counted(before.pieces);
        lemma_counted(after.pieces);
        lemma_listed_is_placed(counter(), before.pieces);
        lemma_listed_is_placed(counter(), after.pieces);
        lemma_difference(counter(), after.pieces, before.pieces, 64);
        lemma_counted(changed(before.pieces, after.pieces));
        lemma_counted(changed(after.pieces, before.pieces));
    }
}

proof fn lemma_count_bound(pieces: Seq<(u8, Piece)>, n: nat)
    ensures
        0 <= placed(counter(), pieces, n) <= n,
    decreases n,
{
    if n > 0 {
        lemma_count_bound(pieces, (n - 1) as nat);
    }
}

proof fn lemma_valid_codes(pieces: Seq<(u8, Piece)>)
    ensures
        valid_codes(board_codes(pieces)),
{
    let codes = board_codes(pieces);
    assert forall|sq: int| 0 <= sq < 64 implies #[trigger] codes[sq] == 0 || is_piece(
        codes[sq] as int,
    ) by {
        assert(codes[sq] == code_of(piece_at(pieces, sq)));
    }
}

/// Accumulators that were computed in full can be updated: they meet all that
/// an update asks of them.
pub proof fn refreshed_can_step(
    net: NetworkModel,
    before: Position,
    after: Position,
    before_pairs: Seq<u32>,
)
    requires
        net.wf(),
        sums_squares(net, before),
        sums_squares(net, after),
        forall|i: int| 0 <= i < before_pairs.len() ==> valid_pair(#[trigger] before_pairs[i]),
    ensures
        net.can_step(before, after, net.fresh(before, before_pairs)),
{
    lemma_valid_codes(before.pieces);
    pairs_valid_and_sorted(board_codes(before.pieces), 4096);
    lemma_occupied(before.pieces, 64);
    lemma_count_bound(before.pieces, 64);
    if net.arch != Arch::Sfnnv10 {
        every_piece_is_counted(net, before);
        every_piece_is_counted(net, after);
        lemma_counted(before.pieces);
        lemma_counted(after.pieces);
        lemma_listed_is_placed(counter(), before.pieces);
        lemma_listed_is_placed(counter(), after.pieces);
        lemma_difference(counter(), after.pieces, before.pieces, 64);
        let gone = difference_upto(before.pieces, after.pieces, 64);
        let come = difference_upto(after.pieces, before.pieces, 64);
        lemma_counted(gone);
        lemma_counted(come);
        lemma_gone_bound(before.pieces, after.pieces, 64);
    }
}

/// No more pieces can leave than there are.
proof fn lemma_gone_bound(gone: Seq<(u8, Piece)>, kept: Seq<(u8, Piece)>, n: nat)
    requires
        n <= 64,
    ensures
        difference_upto(gone, kept, n).len() <= placed(counter(), gone, n),
    decreases n,
{
    if n > 0 {
        lemma_gone_bound(gone, kept, (n - 1) as nat);
    }
}

/// Scoring updated accumulators gives the score of the new position.
pub proof fn update_keeps_score(
    net: NetworkModel,
    before: Position,
    after: Position,
    before_pairs: Seq<u32>,
    old_pairs: Seq<u32>,
)
    requires
        sums_squares(net, before),
        sums_squares(net, after),
        is_step(before, after),
    ensures
        net.score(
            net.stepped(before, after, net.fresh(before, before_pairs), old_pairs),
            after.stm,
        ) == net.score(net.fresh(after, Seq::empty()), after.stm),
{
    update_is_refresh(net, before, after, before_pairs, old_pairs);
}

/// The accumulators at the end of a line of positions: computed in full for
/// the first one, and updated from each position to the next.
pub open spec fn walked(net: NetworkModel, line: Seq<Position>) -> AccumulatorModel
    decreases line.len(),
{
    if line.len() <= 1 {
        net.fresh(line[0], Seq::empty())
    } else {
        net.stepped(
            line[line.len() - 2],
            line[line.len() - 1],
            walked(net, line.drop_last()),
            Seq::empty(),
        )
    }
}

/// However many updates are made in a row, the accumulators are those of the
/// last position: nothing drifts.
pub proof fn updates_do_not_drift(net: NetworkModel, line: Seq<Position>)
    requires
        line.len() > 0,
        forall|i: int| 0 <= i < line.len() ==> sums_squares(net, #[trigger] line[i]),
        forall|i: int, j: int|
            0 <= i < line.len() && j == i + 1 && j < line.len() ==> is_step(
                #[trigger] line[i],
                #[trigger] line[j],
            ),
    ensures
        walked(net, line) == net.fresh(line.last(), Seq::empty()),
    decreases line.len(),
{
    if line.len() > 1 {
        let before = line.drop_last();
        assert forall|i: int| 0 <= i < before.len() implies sums_squares(
            net,
            #[trigger] before[i],
        ) by {
            assert(before[i] == line[i]);
        }
        assert forall|i: int, j: int|
            0 <= i < before.len() && j == i + 1 && j < before.len() implies is_step(
            #[trigger] before[i],
            #[trigger] before[j],
        ) by {
            assert(before[i] == line[i] && before[j] == line[j]);
        }
        updates_do_not_drift(net, before);
        assert(before.last() == line[line.len() - 2]);
        assert(is_step(line[line.len() - 2], line[line.len() - 1]));
        update_is_refresh(
            net,
            line[line.len() - 2],
            line[line.len() - 1],
            Seq::empty(),
            Seq::empty(),
        );
    }
}

/// Taking a move back leads back to the accumulators before the move.
pub proof fn taking_back(
    net: NetworkModel,
    before: Position,
    after: Position,
    before_pairs: Seq<u32>,
    after_pairs: Seq<u32>,
    old_pairs: Seq<u32>,
)
    requires
        sums_squares(net, before),
        sums_squares(net, after),
        is_step(before, after),
    ensures
        net.stepped(
            after,
            before,
            net.stepped(before, after, net.fresh(before, before_pairs), after_pairs),
            old_pairs,
        ) == net.fresh(before, old_pairs),
{
    update_is_refresh(net, before, after, before_pairs, after_pairs);
    update_is_refresh(net, after, before, after_pairs, old_pairs);
}

/// Taking pieces off and putting others on, and then the other way round, leads
/// back to any accumulator, for any two lists, even where sums wrap around.
pub proof fn exchanging_back(
    net: NetworkModel,
    perspective: Color,
    king_square: u8,
    acc: Seq<i16>,
    psqt: Seq<i32>,
    removed: Seq<(u8, Piece)>,
    added: Seq<(u8, Piece)>,
)
    ensures
        net.exchanged_acc(
            net.exchanged_acc(acc, perspective, king_square, removed, added),
            perspective,
            king_square,
            added,
            removed,
        ) == acc,
        net.exchanged_psqt(
            net.exchanged_psqt(psqt, perspective, king_square, removed, added),
            perspective,
            king_square,
            added,
            removed,
        ) == psqt,
{
    lemma_shifts_cancel(
        acc,
        psqt,
        net.l1,
        |c: int| net.exchange_total(perspective, king_square, removed, added, c),
        |c: int| net.exchange_total(perspective, king_square, added, removed, c),
    );
}

proof fn lemma_shifts_cancel(
    acc: Seq<i16>,
    psqt: Seq<i32>,
    l1: nat,
    first: spec_fn(int) -> int,
    second: spec_fn(int) -> int,
)
    requires
        forall|c: int| first(c) + #[trigger] second(c) == 0,
    ensures
        shifted16(shifted16(acc, first), second) == acc,
        shifted32(shifted32(psqt, l1, first), l1, second) == psqt,
{
    let none = |c: int| 0int;
    assert forall|c: int| #[trigger] none(c) == first(c) + second(c) by {
        assert(first(c) + second(c) == 0);
    }
    shifts_add_up(acc, psqt, l1, first, second, none);
    assert(shifted16(acc, none) =~= acc);
    assert(shifted32(psqt, l1, none) =~= psqt);
}

/// Stepping to another position and back leads back to any accumulators at all,
/// where no king moves: they need not be those of the position. Where there are
/// attack features, the recorded attacks and the number of pieces must be those
/// of the position, because a step records both anew; else a step leaves the
/// list of attacks as it was.
pub proof fn stepping_back(
    net: NetworkModel,
    before: Position,
    after: Position,
    parent: AccumulatorModel,
    after_pairs: Seq<u32>,
    old_pairs: Seq<u32>,
)
    requires
        changed(before.pieces, after.pieces).len() <= parent.piece_count + changed(
            after.pieces,
            before.pieces,
        ).len(),
        before.white_king == after.white_king,
        before.black_king == after.black_king,
        net.arch == Arch::Sfnnv10 ==> parent.threat_pairs == pair_list(board_codes(before.pieces))
            && parent.piece_count == net.piece_count(before),
    ensures
        net.stepped(
            after,
            before,
            net.stepped(before, after, parent, after_pairs),
            old_pairs,
        ) == (AccumulatorModel {
            threat_pairs: if net.arch == Arch::Sfnnv10 {
                parent.threat_pairs
            } else {
                old_pairs
            },
            ..parent
        }),
{
    let middle = net.stepped(before, after, parent, after_pairs);
    assert forall|perspective: Color|
        #![trigger net.stepped_acc(perspective, after, before, middle)]
        #![trigger net.stepped_psqt(perspective, after, before, middle)]
        net.stepped_acc(perspective, after, before, middle) == parent.acc(perspective)
            && net.stepped_psqt(perspective, after, before, middle) == parent.psqt(
            perspective,
        ) by {
        lemma_shifts_cancel(
            parent.acc(perspective),
            parent.psqt(perspective),
            net.l1,
            |c: int| net.step_total(perspective, before, after, parent.threat_pairs, c),
            |c: int| net.step_total(perspective, after, before, middle.threat_pairs, c),
        );
    }
}

/// Whose turn it is does not enter the accumulators: passing the turn leaves
/// them as they are.
pub proof fn passing_keeps_accumulators(net: NetworkModel, pos: Position, old_pairs: Seq<u32>)
    ensures
        net.fresh((Position { stm: pos.stm.flipped(), ..pos }), old_pairs) == net.fresh(
            pos,
            old_pairs,
        ),
{
    let passed = Position { stm: pos.stm.flipped(), ..pos };
    assert forall|perspective: Color|
        #![trigger net.fresh_acc(perspective, passed)]
        #![trigger net.fresh_psqt(perspective, passed)]
        net.fresh_acc(perspective, passed) == net.fresh_acc(perspective, pos) && net.fresh_psqt(
            perspective,
            passed,
        ) == net.fresh_psqt(perspective, pos) by {
        assert(net.fresh_acc(perspective, passed) =~= net.fresh_acc(perspective, pos));
        assert(net.fresh_psqt(perspective, passed) =~= net.fresh_psqt(perspective, pos));
    }
}

/// Whether two positions have the same pieces on the same squares, in whatever
/// order their boards list them, and the same kings.
pub open spec fn same_board(a: Position, b: Position) -> bool {
    &&& a.white_king == b.white_king
    &&& a.black_king == b.black_king
    &&& forall|sq: int| 0 <= sq < 64 ==> #[trigger] a.at(sq) == b.at(sq)
}

proof fn lemma_same_placed(
    w: spec_fn(int, Option<Piece>) -> int,
    a: Position,
    b: Position,
    n: nat,
)
    requires
        same_board(a, b),
        n <= 64,
    ensures
        placed(w, a.pieces, n) == placed(w, b.pieces, n),
    decreases n,
{
    if n > 0 {
        lemma_same_placed(w, a, b, (n - 1) as nat);
        assert(a.at(n - 1) == b.at(n - 1));
    }
}

/// The order in which a board lists its pieces makes no difference.
pub proof fn order_makes_no_difference(
    net: NetworkModel,
    a: Position,
    b: Position,
    old_pairs: Seq<u32>,
)
    requires
        sums_squares(net, a),
        sums_squares(net, b),
        same_board(a, b),
    ensures
        net.fresh(a, old_pairs) == net.fresh(b, old_pairs),
{
    assert(board_codes(a.pieces) =~= board_codes(b.pieces)) by {
        assert forall|sq: int| 0 <= sq < 64 implies board_codes(a.pieces)[sq] == board_codes(
            b.pieces,
        )[sq] by {
            assert(a.at(sq) == b.at(sq));
        }
    }
    assert forall|perspective: Color|
        #![trigger net.fresh_acc(perspective, a)]
        #![trigger net.fresh_psqt(perspective, a)]
        net.fresh_acc(perspective, a) == net.fresh_acc(perspective, b) && net.fresh_psqt(
            perspective,
            a,
        ) == net.fresh_psqt(perspective, b) by {
        assert forall|c: int|
            #[trigger] net.position_total(perspective, a, c) == net.position_total(
                perspective,
                b,
                c,
            ) by {
            lemma_position_total(net, perspective, a, c);
            lemma_position_total(net, perspective, b, c);
            lemma_same_placed(weigher(net, perspective, a.king(perspective), c), a, b, 64);
        }
        assert(net.fresh_acc(perspective, a) =~= net.fresh_acc(perspective, b));
        assert(net.fresh_psqt(perspective, a) =~= net.fresh_psqt(perspective, b));
    }
    if net.arch != Arch::Sfnnv10 {
        lemma_counted(a.pieces);
        lemma_counted(b.pieces);
        lemma_listed_is_placed(counter(), a.pieces);
        lemma_listed_is_placed(counter(), b.pieces);
        lemma_same_placed(counter(), a, b, 64);
    }
}

impl AccumulatorModel {
    /// The accumulators with the players exchanged.
    pub open spec fn swapped(self) -> AccumulatorModel {
        AccumulatorModel {
            white: self.black,
            black: self.white,
            psqt_white: self.psqt_black,
            psqt_black: self.psqt_white,
            piece_count: self.piece_count,
            threat_pairs: self.threat_pairs,
        }
    }
}

/// Whether no piece-square weight exceeds `bound` in size.
pub open spec fn psqt_within(net: NetworkModel, bound: int) -> bool {
    &&& forall|i: int| 0 <= i < net.ft_psqt.len() ==> -bound <= #[trigger] net.ft_psqt[i] <= bound
    &&& forall|i: int|
        0 <= i < net.threat_psqt.len() ==> -bound <= #[trigger] net.threat_psqt[i] <= bound
}

/// The number of features that a position switches on, or a bound on it.
pub open spec fn feature_count(net: NetworkModel, pos: Position) -> nat {
    if net.arch == Arch::Sfnnv10 {
        64 + pair_list(board_codes(pos.pieces)).len()
    } else {
        pos.pieces.len()
    }
}

proof fn lemma_weight_bound(
    net: NetworkModel,
    perspective: Color,
    king_square: u8,
    sq: int,
    code: int,
    bound: int,
    c: int,
)
    requires
        net.wf(),
        psqt_within(net, bound),
        0 <= bound,
        king_square < 64,
        0 <= sq < 64,
        0 <= code < 16,
        net.l1 <= c < net.l1 + 8,
    ensures
        -bound <= net.piece_weight(
            net.arch.feature(perspective, sq, code, king_square),
            c,
        ) <= bound,
{
    feature_in_range(net.arch, perspective, sq, code, king_square);
}

proof fn lemma_listed_bound(
    w: spec_fn(int, Option<Piece>) -> int,
    pieces: Seq<(u8, Piece)>,
    bound: int,
)
    requires
        forall|i: int| 0 <= i < pieces.len() ==> (#[trigger] pieces[i]).0 < 64,
        forall|sq: int, piece: Option<Piece>|
            0 <= sq < 64 ==> -bound <= #[trigger] w(sq, piece) <= bound,
    ensures
        -(pieces.len() * bound) <= listed(w, pieces) <= pieces.len() * bound,
    decreases pieces.len(),
{
    let n = pieces.len() as int;
    if n == 0 {
        assert(n * bound == 0) by (nonlinear_arith)
            requires
                n == 0,
        ;
    } else {
        let before = pieces.drop_last();
        assert(pieces.last() == pieces[n - 1]);
        assert forall|i: int| 0 <= i < before.len() implies (#[trigger] before[i]).0 < 64 by {
            assert(before[i] == pieces[i]);
        }
        lemma_listed_bound(w, before, bound);
        assert(n * bound == (n - 1) * bound + bound) by (nonlinear_arith);
    }
}

proof fn lemma_placed_bound(
    w: spec_fn(int, Option<Piece>) -> int,
    pieces: Seq<(u8, Piece)>,
    n: nat,
    bound: int,
)
    requires
        n <= 64,
        forall|sq: int, piece: Option<Piece>|
            0 <= sq < 64 ==> -bound <= #[trigger] w(sq, piece) <= bound,
    ensures
        -(n * bound) <= placed(w, pieces, n) <= n * bound,
    decreases n,
{
    if n == 0 {
        assert(n * bound == 0) by (nonlinear_arith)
            requires
                n == 0,
        ;
    } else {
        lemma_placed_bound(w, pieces, (n - 1) as nat, bound);
        assert(n * bound == (n - 1) * bound + bound) by (nonlinear_arith);
    }
}

proof fn lemma_pairs_bound(
    net: NetworkModel,
    perspective: Color,
    king_square: u8,
    pairs: Seq<u32>,
    bound: int,
    c: int,
)
    requires
        net.wf(),
        net.arch == Arch::Sfnnv10,
        psqt_within(net, bound),
        0 <= bound,
        net.l1 <= c < net.l1 + 8,
        forall|i: int| 0 <= i < pairs.len() ==> valid_pair(#[trigger] pairs[i]),
    ensures
        -(pairs.len() * bound) <= net.pairs_total(perspective, king_square, pairs, c)
            <= pairs.len() * bound,
    decreases pairs.len(),
{
    let n = pairs.len() as int;
    if n == 0 {
        assert(n * bound == 0) by (nonlinear_arith)
            requires
                n == 0,
        ;
    } else {
        let before = pairs.drop_last();
        assert(pairs.last() == pairs[n - 1]);
        assert forall|i: int| 0 <= i < before.len() implies valid_pair(#[trigger] before[i]) by {
            assert(before[i] == pairs[i]);
        }
        lemma_pairs_bound(net, perspective, king_square, before, bound, c);
        let (from, to, attacker, attacked) = unpacked(pairs.last());
        attack_feature_in_range(perspective, attacker, from, to, attacked, king_square);
        let feature = threat_feature(perspective, attacker, from, to, attacked, king_square);
        if feature < EXCLUDED {
            assert(0 <= feature * 8 + (c - net.l1) < net.threat_psqt.len());
        }
        assert(n * bound == (n - 1) * bound + bound) by (nonlinear_arith);
    }
}

proof fn lemma_weigher_bound(
    net: NetworkModel,
    perspective: Color,
    king_square: u8,
    bound: int,
    c: int,
)
    requires
        net.wf(),
        psqt_within(net, bound),
        0 <= bound,
        king_square < 64,
        net.l1 <= c < net.l1 + 8,
    ensures
        forall|sq: int, piece: Option<Piece>|
            0 <= sq < 64 ==> -bound <= #[trigger] weigher(net, perspective, king_square, c)(
                sq,
                piece,
            ) <= bound,
{
    let w = weigher(net, perspective, king_square, c);
    assert forall|sq: int, piece: Option<Piece>| 0 <= sq < 64 implies -bound <= #[trigger] w(
        sq,
        piece,
    ) <= bound by {
        if let Some(p) = piece {
            lemma_weight_bound(net, perspective, king_square, sq, p.code(), bound, c);
        }
    }
}

proof fn lemma_total_bound(
    net: NetworkModel,
    perspective: Color,
    pos: Position,
    bound: int,
    c: int,
)
    requires
        net.arch != Arch::Sfnnv10,
        pos.valid(),
        forall|sq: int, piece: Option<Piece>|
            0 <= sq < 64 ==> -bound <= #[trigger] weigher(
                net,
                perspective,
                pos.king(perspective),
                c,
            )(sq, piece) <= bound,
    ensures
        -(feature_count(net, pos) * bound) <= net.position_total(perspective, pos, c)
            <= feature_count(net, pos) * bound,
{
    let ksq = pos.king(perspective);
    lemma_pieces_total(net, perspective, ksq, pos.pieces, c);
    lemma_listed_bound(weigher(net, perspective, ksq, c), pos.pieces, bound);
}

proof fn lemma_total_bound_v10(
    net: NetworkModel,
    perspective: Color,
    pos: Position,
    bound: int,
    c: int,
)
    requires
        net.wf(),
        net.arch == Arch::Sfnnv10,
        pos.valid(),
        psqt_within(net, bound),
        0 <= bound,
        net.l1 <= c < net.l1 + 8,
        forall|sq: int, piece: Option<Piece>|
            0 <= sq < 64 ==> -bound <= #[trigger] weigher(
                net,
                perspective,
                pos.king(perspective),
                c,
            )(sq, piece) <= bound,
    ensures
        -(feature_count(net, pos) * bound) <= net.position_total(perspective, pos, c)
            <= feature_count(net, pos) * bound,
{
    let ksq = pos.king(perspective);
    let codes = board_codes(pos.pieces);
    let pairs = pair_list(codes);
    lemma_valid_codes(pos.pieces);
    pairs_valid_and_sorted(codes, 4096);
    lemma_squares_total(net, perspective, ksq, pos.pieces, 64, c);
    lemma_placed_bound(weigher(net, perspective, ksq, c), pos.pieces, 64, bound);
    lemma_pairs_bound(net, perspective, ksq, pairs, bound, c);
    assert((64 + pairs.len()) * bound == 64 * bound + pairs.len() * bound) by (nonlinear_arith);
}

/// Where the piece-square weights are small enough for the number of features,
/// the piece-square sums do not wrap around: they are the mathematical sums.
pub proof fn psqt_sums_are_exact(
    net: NetworkModel,
    perspective: Color,
    pos: Position,
    bound: int,
    b: int,
)
    requires
        net.wf(),
        pos.valid(),
        psqt_within(net, bound),
        0 <= bound,
        feature_count(net, pos) * bound <= i32::MAX,
        0 <= b < 8,
    ensures
        net.fresh_psqt(perspective, pos)[b] == net.position_total(perspective, pos, net.l1 + b),
{
    let c = net.l1 + b;
    assert(-i32::MAX <= net.position_total(perspective, pos, c) <= i32::MAX) by {
        lemma_weigher_bound(net, perspective, pos.king(perspective), bound, c);
        if net.arch == Arch::Sfnnv10 {
            lemma_total_bound_v10(net, perspective, pos, bound, c);
        } else {
            lemma_total_bound(net, perspective, pos, bound, c);
        }
    }
    lemma_psqt_unwrapped(net, perspective, pos, b);
}

/// A piece-square sum that fits 32 bits is the mathematical sum.
proof fn lemma_psqt_unwrapped(net: NetworkModel, perspective: Color, pos: Position, b: int)
    requires
        -i32::MAX <= net.position_total(perspective, pos, net.l1 + b) <= i32::MAX,
        0 <= b < 8,
    ensures
        net.fresh_psqt(perspective, pos)[b] == net.position_total(perspective, pos, net.l1 + b),
{
    let total = net.position_total(perspective, pos, net.l1 + b);
    lemma_wrap32_in_range(total);
    assert(net.fresh_psqt(perspective, pos)[b] == wrap32(0 + total));
}

/// A score is relative to the player to move: exchanging the players'
/// accumulators and the turn together leaves the score as it is.
pub proof fn score_is_relative(net: NetworkModel, acc: AccumulatorModel, stm: Color)
    ensures
        net.score(acc.swapped(), stm.flipped()) == net.score(acc, stm),
{
}

/// A HalfKP score depends on the two accumulators and the player to move alone:
/// piece-square sums, the number of pieces, none at all as well, and recorded
/// attacks do not count, and none of them stands in the way of a score.
pub proof fn halfkp_score_reads_accumulators(
    net: NetworkModel,
    acc: AccumulatorModel,
    other: AccumulatorModel,
    stm: Color,
)
    requires
        net.arch == Arch::HalfKP,
        acc.white == other.white,
        acc.black == other.black,
    ensures
        net.score(acc, stm) == net.score(other, stm),
        acc.white.len() == net.l1 && acc.black.len() == net.l1 && other.psqt_white.len() == 8
            && other.psqt_black.len() == 8 ==> net.scorable(other),
{
}

proof fn lemma_dot_prefix_equal(a: Seq<u8>, v: Seq<i8>, w: Seq<i8>, n: nat)
    requires
        forall|i: int| 0 <= i < n ==> #[trigger] v[i] == w[i],
    ensures
        dot_prefix(a, v, n) == dot_prefix(a, w, n),
    decreases n,
{
    if n > 0 {
        lemma_dot_prefix_equal(a, v, w, (n - 1) as nat);
        assert(v[n - 1] == w[n - 1]);
    }
}

/// The two padding weights of each row of the second layer do not count in a
/// stack with squared and clipped outputs, which has 30 of them.
pub proof fn padding_does_not_count(a: BucketModel, b: BucketModel, input: Seq<u8>)
    requires
        a.fc1_weight.len() == 32 * 32,
        a.same_but_padding(b, 30),
    ensures
        a.hm_stack(input) == b.hm_stack(input),
{
    let fc0 = a.fc0(16, input);
    assert(fc0 =~= b.fc0(16, input));
    let middle = Seq::new(
        30,
        |i: int|
            if i < 15 {
                squared_relu(fc0[i])
            } else {
                relu(fc0[i - 15])
            },
    );
    assert forall|o: int| 0 <= o < 32 implies #[trigger] a.fc1(middle)[o] == b.fc1(middle)[o] by {
        let v = row_of(a.fc1_weight, o, 32);
        let w = row_of(b.fc1_weight, o, 32);
        assert forall|i: int| 0 <= i < 30 implies #[trigger] v[i] == w[i] by {
            assert((o * 32 + i) % 32 == i);
            assert(a.fc1_weight[o * 32 + i] == b.fc1_weight[o * 32 + i]);
        }
        lemma_dot_prefix_equal(middle, v, w, 30);
        assert(dot(middle, v) == dot(middle, w));
    }
    assert(a.fc1(middle) =~= b.fc1(middle));
}

proof fn lemma_dot_prefix_padded(a: Seq<u8>, v: Seq<i8>, w: Seq<i8>, used: int, n: nat)
    requires
        forall|i: int| 0 <= i < used && i < n ==> #[trigger] v[i] == w[i],
        forall|i: int| used <= i < n ==> #[trigger] a[i] == 0,
    ensures
        dot_prefix(a, v, n) == dot_prefix(a, w, n),
    decreases n,
{
    if n > 0 {
        lemma_dot_prefix_padded(a, v, w, used, (n - 1) as nat);
        if n - 1 < used {
            assert(v[n - 1] == w[n - 1]);
        } else {
            assert(a[n - 1] * v[n - 1] == 0 && a[n - 1] * w[n - 1] == 0) by (nonlinear_arith)
                requires
                    a[n - 1] == 0,
            ;
        }
    }
}

/// Weights of the second layer past the outputs of the first one do not count in
/// a stack with clipped outputs.
pub proof fn padding_does_not_count_plain(
    a: BucketModel,
    b: BucketModel,
    out: nat,
    input: Seq<u8>,
)
    requires
        out <= 32,
        a.fc1_weight.len() == 32 * 32,
        a.same_but_padding(b, out as int),
    ensures
        a.plain_stack(out, input) == b.plain_stack(out, input),
{
    let fc0 = a.fc0(out, input);
    assert(fc0 =~= b.fc0(out, input));
    let middle = Seq::new(
        32,
        |i: int|
            if i < out {
                relu(fc0[i])
            } else {
                0u8
            },
    );
    assert forall|o: int| 0 <= o < 32 implies #[trigger] a.fc1(middle)[o] == b.fc1(middle)[o] by {
        let v = row_of(a.fc1_weight, o, 32);
        let w = row_of(b.fc1_weight, o, 32);
        assert forall|i: int| 0 <= i < out && i < 32 implies #[trigger] v[i] == w[i] by {
            assert((o * 32 + i) % 32 == i);
            assert(a.fc1_weight[o * 32 + i] == b.fc1_weight[o * 32 + i]);
        }
        lemma_dot_prefix_padded(middle, v, w, out as int, 32);
        assert(dot(middle, v) == dot(middle, w));
    }
    assert(a.fc1(middle) =~= b.fc1(middle));
}

/// A score depends on the two accumulators, the player to move, and, of the
/// piece-square sums, those of the bucket of the number of pieces.
pub proof fn score_reads_one_bucket(
    net: NetworkModel,
    acc: AccumulatorModel,
    other: AccumulatorModel,
    stm: Color,
)
    requires
        acc.white == other.white,
        acc.black == other.black,
        (acc.piece_count - 1) / 4 == (other.piece_count - 1) / 4,
        acc.psqt_white[(acc.piece_count - 1) / 4] == other.psqt_white[(acc.piece_count - 1) / 4],
        acc.psqt_black[(acc.piece_count - 1) / 4] == other.psqt_black[(acc.piece_count - 1) / 4],
    ensures
        net.score(acc, stm) == net.score(other, stm),
{
}

/// The recorded attacks do not enter a score.
pub proof fn score_ignores_recorded_attacks(
    net: NetworkModel,
    acc: AccumulatorModel,
    pairs: Seq<u32>,
    stm: Color,
)
    ensures
        net.score((AccumulatorModel { threat_pairs: pairs, ..acc }), stm) == net.score(acc, stm),
{
}

} // verus!
