//! Which piece attacks which, and how attacks are numbered.

use crate::feature::{from_side, mirrored};
use crate::planes::rank_from;
use crate::threats::{
    attacks_below, board_codes, counted_once, first_attack, first_feature, gap, is_counted,
    is_piece, line_clear, line_len, line_square, packed, pair_list, pairs_upto, reaches, seen_code,
    seen_feature, seen_feature_bound, seen_square, stepped, target_of, threat_feature, threatens,
    EXCLUDED, FIRST_FEATURE, SIDE_FEATURES, TARGET_KINDS,
};
use crate::types::{piece_at, Color, Piece, PieceKind};
use vstd::prelude::*;

verus! {

/// Whether `m` lies strictly between `x` and `y`.
pub open spec fn inside(x: int, m: int, y: int) -> bool {
    x < m < y || y < m < x
}

/// Whether two squares share a rank or a file.
pub open spec fn straight(from: int, to: int) -> bool {
    from != to && (from / 8 == to / 8 || from % 8 == to % 8)
}

/// Whether two squares share a diagonal.
pub open spec fn diagonal(from: int, to: int) -> bool {
    from != to && (from / 8 - to / 8 == from % 8 - to % 8 || from / 8 - to / 8 == to % 8 - from
        % 8)
}

/// Whether square `m` lies strictly between two squares of a rank, a file or a
/// diagonal.
pub open spec fn between(from: int, m: int, to: int) -> bool {
    if from / 8 == to / 8 {
        m / 8 == from / 8 && inside(from % 8, m % 8, to % 8)
    } else if from % 8 == to % 8 {
        m % 8 == from % 8 && inside(from / 8, m / 8, to / 8)
    } else {
        &&& diagonal(from, to)
        &&& diagonal(from, m)
        &&& inside(from / 8, m / 8, to / 8)
        &&& inside(from % 8, m % 8, to % 8)
    }
}

/// What the pieces attack on an empty board. A knight goes the distance of five,
/// squared; a king goes to the squares around it; bishops, rooks and queens go
/// along lines; pawns go one rank forward and one file aside, from the ranks that
/// a pawn can stand on.
pub proof fn moves_of_the_pieces(from: int, to: int, black: bool)
    requires
        0 <= from < 64,
        0 <= to < 64,
    ensures
        ({
            let side = if black {
                8int
            } else {
                0
            };
            let df = to % 8 - from % 8;
            let dr = to / 8 - from / 8;
            &&& reaches(1 + side, from, to) <==> (df == 1 || df == -1) && 1 <= from / 8 <= 6 && dr
                == if black {
                -1int
            } else {
                1
            }
            &&& reaches(2 + side, from, to) <==> df * df + dr * dr == 5
            &&& reaches(3 + side, from, to) <==> diagonal(from, to)
            &&& reaches(4 + side, from, to) <==> straight(from, to)
            &&& reaches(5 + side, from, to) <==> straight(from, to) || diagonal(from, to)
            &&& reaches(6 + side, from, to) <==> from != to && -1 <= df <= 1 && -1 <= dr <= 1
        }),
{
    let side = if black {
        8int
    } else {
        0
    };
    let df = to % 8 - from % 8;
    let dr = to / 8 - from / 8;
    let (x, y) = (gap(from % 8, to % 8), gap(from / 8, to / 8));
    lemma_square_of_gap(from % 8, to % 8);
    lemma_square_of_gap(from / 8, to / 8);
    assert((2 + side) % 8 == 2 && (1 + side) % 8 == 1 && (3 + side) % 8 == 3 && (4 + side) % 8 == 4
        && (5 + side) % 8 == 5 && (6 + side) % 8 == 6);
    assert(reaches(2 + side, from, to) <==> df * df + dr * dr == 5);
}

proof fn lemma_square_of_gap(x: int, y: int)
    requires
        0 <= x < 8,
        0 <= y < 8,
    ensures
        ({
            let d = y - x;
            let g = gap(x, y);
            &&& 0 <= g <= 7
            &&& d == g || d == -g
            &&& g == 0 ==> d * d == 0
            &&& g == 1 ==> d * d == 1
            &&& g == 2 ==> d * d == 4
            &&& g >= 3 ==> d * d >= 9
        }),
{
    let d = y - x;
    let g = gap(x, y);
    assert(d * d == g * g) by (nonlinear_arith)
        requires
            d == g || d == -g,
    ;
    assert((g == 0 ==> g * g == 0) && (g == 1 ==> g * g == 1) && (g == 2 ==> g * g == 4) && (g >= 3
        ==> g * g >= 9)) by (nonlinear_arith);
}

/// The squares on a line are the ones between its ends.
proof fn lemma_line_is_between(from: int, to: int, k: int)
    requires
        0 <= from < 64,
        0 <= to < 64,
        straight(from, to) || diagonal(from, to),
        1 <= k < line_len(from, to),
    ensures
        0 <= line_square(from, to, k) < 64,
        between(from, line_square(from, to, k), to),
{
    let file = stepped(from % 8, to % 8, k);
    let rank = stepped(from / 8, to / 8, k);
    assert(0 <= file < 8 && 0 <= rank < 8);
    let m = line_square(from, to, k);
    assert(m == 8 * rank + file);
    assert(m % 8 == file && m / 8 == rank);
}

proof fn lemma_between_is_line(from: int, m: int, to: int) -> (k: int)
    requires
        0 <= from < 64,
        0 <= to < 64,
        0 <= m < 64,
        straight(from, to) || diagonal(from, to),
        between(from, m, to),
    ensures
        1 <= k < line_len(from, to),
        line_square(from, to, k) == m,
{
    let a = gap(from % 8, m % 8);
    let b = gap(from / 8, m / 8);
    let k = if a >= b {
        a
    } else {
        b
    };
    assert(m == 8 * (m / 8) + m % 8);
    k
}

proof fn lemma_line_clear(codes: Seq<u8>, from: int, to: int)
    requires
        0 <= from < 64,
        0 <= to < 64,
        straight(from, to) || diagonal(from, to),
    ensures
        line_clear(codes, from, to) <==> forall|m: int|
            0 <= m < 64 && #[trigger] between(from, m, to) ==> codes[m] == 0,
{
    if line_clear(codes, from, to) {
        assert forall|m: int| 0 <= m < 64 && #[trigger] between(from, m, to) implies codes[m]
            == 0 by {
            let k = lemma_between_is_line(from, m, to);
            assert(codes[line_square(from, to, k)] == 0);
        }
    }
    if forall|m: int| 0 <= m < 64 && #[trigger] between(from, m, to) ==> codes[m] == 0 {
        assert forall|k: int| 1 <= k < line_len(from, to) implies codes[#[trigger] line_square(
            from,
            to,
            k,
        )] == 0 by {
            lemma_line_is_between(from, to, k);
            assert(between(from, line_square(from, to, k), to));
        }
    }
}

/// Bishops, rooks and queens attack a piece exactly where it stands on one of
/// their lines and every square between is empty.
pub proof fn lines_are_blocked(codes: Seq<u8>, from: int, to: int)
    requires
        0 <= from < 64,
        0 <= to < 64,
        codes[to] != 0,
    ensures
        ({
            let free = forall|m: int|
                0 <= m < 64 && #[trigger] between(from, m, to) ==> codes[m] == 0;
            let code = codes[from];
            &&& code == 3 || code == 11 ==> (threatens(codes, from, to) <==> diagonal(from, to)
                && free)
            &&& code == 4 || code == 12 ==> (threatens(codes, from, to) <==> straight(from, to)
                && free)
            &&& code == 5 || code == 13 ==> (threatens(codes, from, to) <==> (straight(from, to)
                || diagonal(from, to)) && free)
        }),
{
    moves_of_the_pieces(from, to, codes[from] >= 8);
    if straight(from, to) || diagonal(from, to) {
        lemma_line_clear(codes, from, to);
    }
}

/// Pawns, knights and kings attack a piece wherever they can go; what stands
/// elsewhere makes no difference. Nothing attacks or is attacked on an empty
/// square.
pub proof fn short_moves_are_not_blocked(codes: Seq<u8>, from: int, to: int)
    requires
        0 <= from < 64,
        0 <= to < 64,
    ensures
        codes[from] == 0 || codes[to] == 0 ==> !threatens(codes, from, to),
        (codes[from] == 1 || codes[from] == 2 || codes[from] == 6 || codes[from] == 9 || codes[from]
            == 10 || codes[from] == 14) && codes[to] != 0 ==> (threatens(codes, from, to)
            <==> reaches(codes[from] as int, from, to)),
{
}

/// A queen attacks from a square exactly what a rook or a bishop of its side on
/// that square would attack on the same board.
pub proof fn queens_are_rooks_and_bishops(codes: Seq<u8>, from: int, to: int, black: bool)
    requires
        codes.len() == 64,
        0 <= from < 64,
        0 <= to < 64,
    ensures
        ({
            let queen = codes.update(from, if black { 13u8 } else { 5 });
            let rook = codes.update(from, if black { 12u8 } else { 4 });
            let bishop = codes.update(from, if black { 11u8 } else { 3 });
            threatens(queen, from, to) <==> threatens(rook, from, to) || threatens(
                bishop,
                from,
                to,
            )
        }),
{
    let queen = codes.update(from, if black { 13u8 } else { 5 });
    let rook = codes.update(from, if black { 12u8 } else { 4 });
    let bishop = codes.update(from, if black { 11u8 } else { 3 });
    moves_of_the_pieces(from, to, black);
    if straight(from, to) || diagonal(from, to) {
        lemma_line_clear(queen, from, to);
        lemma_line_clear(rook, from, to);
        lemma_line_clear(bishop, from, to);
        assert forall|m: int| 0 <= m < 64 && #[trigger] between(from, m, to) implies queen[m]
            == rook[m] && rook[m] == bishop[m] by {}
    }
}

/// Of the entries of a square the last one counts, and other entries make no
/// difference to it.
pub proof fn last_entry_counts(pieces: Seq<(u8, Piece)>, at: u8, piece: Piece, sq: int)
    ensures
        piece_at(Seq::empty(), sq) is None,
        piece_at(pieces.push((at, piece)), at as int) == Some(piece),
        at != sq ==> piece_at(pieces.push((at, piece)), sq) == piece_at(pieces, sq),
{
    assert(pieces.push((at, piece)).drop_last() =~= pieces);
}

/// The codes on a board are those of the pieces that stand there.
pub proof fn codes_on_the_board(pieces: Seq<(u8, Piece)>, sq: int)
    requires
        0 <= sq < 64,
    ensures
        board_codes(pieces).len() == 64,
        piece_at(pieces, sq) is None ==> board_codes(pieces)[sq] == 0,
        piece_at(pieces, sq) matches Some(piece) ==> board_codes(pieces)[sq] == piece.code(),
{
}

proof fn lemma_listed(codes: Seq<u8>, n: nat, pair: u32)
    ensures
        pairs_upto(codes, n).contains(pair) <==> exists|m: int|
            0 <= m < n && #[trigger] threatens(codes, m / 64, m % 64) && pair == packed(
                m / 64,
                m % 64,
                codes[m / 64] as int,
                codes[m % 64] as int,
            ),
    decreases n,
{
    if n > 0 {
        lemma_listed(codes, (n - 1) as nat, pair);
        let before = pairs_upto(codes, (n - 1) as nat);
        let from = (n - 1) / 64;
        let to = (n - 1) % 64;
        let last = packed(from, to, codes[from] as int, codes[to] as int);
        if threatens(codes, from, to) {
            let all = before.push(last);
            assert(all[before.len() as int] == last);
            if all.contains(pair) && pair != last {
                let i = choose|i: int| 0 <= i < all.len() && all[i] == pair;
                assert(before[i] == pair);
            }
            if before.contains(pair) {
                let i = choose|i: int| 0 <= i < before.len() && before[i] == pair;
                assert(all[i] == pair);
            }
        }
    }
}

/// The list of attacks holds exactly the attacks on the board, each as the
/// number `16384 * from + 256 * to + 16 * attacker + attacked`.
pub proof fn all_attacks_are_listed(codes: Seq<u8>, from: int, to: int)
    requires
        codes.len() == 64,
        forall|sq: int| 0 <= sq < 64 ==> #[trigger] codes[sq] < 16,
        0 <= from < 64,
        0 <= to < 64,
    ensures
        ({
            let pair = (16384 * from + 256 * to + 16 * codes[from] + codes[to]) as u32;
            pair_list(codes).contains(pair) <==> threatens(codes, from, to)
        }),
{
    let pair = (16384 * from + 256 * to + 16 * codes[from] + codes[to]) as u32;
    assert(codes[from] < 16 && codes[to] < 16);
    assert(pair == 16384 * from + 256 * to + 16 * codes[from] + codes[to]);
    assert(pair == packed(from, to, codes[from] as int, codes[to] as int));
    lemma_listed(codes, 4096, pair);
    let n = 64 * from + to;
    assert(n / 64 == from && n % 64 == to);
    if threatens(codes, from, to) {
        assert(threatens(codes, n / 64, n % 64));
    }
    if pair_list(codes).contains(pair) {
        let m = choose|m: int|
            0 <= m < 4096 && #[trigger] threatens(codes, m / 64, m % 64) && pair == packed(
                m / 64,
                m % 64,
                codes[m / 64] as int,
                codes[m % 64] as int,
            );
        assert(0 <= m / 64 < 64 && 0 <= m % 64 < 64);
        assert(codes[m / 64] < 16 && codes[m % 64] < 16);
        crate::threats::packing_is_reversible(
            m / 64,
            m % 64,
            codes[m / 64] as int,
            codes[m % 64] as int,
        );
        crate::threats::packing_is_reversible(from, to, codes[from] as int, codes[to] as int);
    }
}

/// Which attacks are counted at all: pawns on pawns, knights and rooks; knights
/// and queens on everything; bishops and rooks on everything but queens; kings on
/// pawns, knights, bishops and rooks. The players make no difference.
pub proof fn counted_targets(attacker: Piece, target: Piece)
    ensures
        is_counted(attacker.code(), target.code()) <==> match attacker.kind {
            PieceKind::Pawn => target.kind == PieceKind::Pawn || target.kind == PieceKind::Knight
                || target.kind == PieceKind::Rook,
            PieceKind::Knight => true,
            PieceKind::Bishop => target.kind != PieceKind::Queen,
            PieceKind::Rook => target.kind != PieceKind::Queen,
            PieceKind::Queen => true,
            PieceKind::King => target.kind != PieceKind::Queen && target.kind != PieceKind::King,
        },
{
    let (a, b) = (attacker.code(), target.code());
    assert(a % 8 == attacker.kind.code() && b % 8 == target.kind.code());
}

/// An attack has no feature where it is not counted, and, of like pieces that
/// attack each other, where it goes from the lower square to the higher one: all
/// pieces of a kind, but for pawns of one player.
pub proof fn excluded_attacks(attacker: Piece, from: int, to: int, target: Piece)
    requires
        0 <= from < 64,
        0 <= to < 64,
        reaches(attacker.code(), from, to),
    ensures
        seen_feature(attacker.code(), from, to, target.code()) == EXCLUDED <==> !is_counted(
            attacker.code(),
            target.code(),
        ) || attacker.kind == target.kind && from < to && (attacker.kind != PieceKind::Pawn
            || attacker.color != target.color),
{
    let (a, b) = (attacker.code(), target.code());
    assert(a % 8 == attacker.kind.code() && b % 8 == target.kind.code());
    seen_feature_bound(a, from, to, b);
}

/// The number of attacks of a kind of piece from all squares of an empty board.
proof fn lemma_totals(a: int)
    requires
        is_piece(a),
    ensures
        first_attack(a, 64) == if a % 8 == 1 {
            84int
        } else if a % 8 == 2 {
            336
        } else if a % 8 == 3 {
            560
        } else if a % 8 == 4 {
            896
        } else if a % 8 == 5 {
            1456
        } else {
            420
        },
{
    crate::threats::attack_totals(a);
}

/// The attacks of a piece on a target are numbered in a row, by the square that
/// they come from and then by the square that they go to: the first one is
/// `first_feature`, and each one is one more than the one before.
pub proof fn attacks_are_numbered_in_order(a: int, b: int, from: int, to: int, to2: int)
    requires
        is_piece(a),
        is_piece(b),
        0 <= from < 64,
        0 <= to < to2 < 64,
        reaches(a, from, to),
        reaches(a, from, to2),
        forall|t: int| to < t < to2 ==> !#[trigger] reaches(a, from, t),
        seen_feature(a, from, to, b) < EXCLUDED,
        seen_feature(a, from, to2, b) < EXCLUDED,
    ensures
        seen_feature(a, from, to2, b) == seen_feature(a, from, to, b) + 1,
{
    seen_feature_bound(a, from, to, b);
    seen_feature_bound(a, from, to2, b);
    lemma_below_gap(a, from, to, to2);
}

proof fn lemma_below_gap(a: int, from: int, to: int, to2: int)
    requires
        0 <= to < to2,
        reaches(a, from, to),
        forall|t: int| to < t < to2 ==> !#[trigger] reaches(a, from, t),
    ensures
        attacks_below(a, from, to2 as nat) == attacks_below(a, from, to as nat) + 1,
    decreases to2 - to,
{
    if to2 - 1 > to {
        assert(!reaches(a, from, to2 - 1));
        lemma_below_gap(a, from, to, to2 - 1);
    }
}

/// The numbers of the attacks from a square end where those from the next begin.
pub proof fn squares_follow_each_other(a: int, from: int)
    requires
        0 <= from < 64,
    ensures
        first_attack(a, 0) == 0,
        first_attack(a, (from + 1) as nat) == first_attack(a, from as nat) + attacks_below(
            a,
            from,
            64,
        ),
        attacks_below(a, from, 0) == 0,
        forall|to: int|
            0 <= to < 64 ==> #[trigger] attacks_below(a, from, (to + 1) as nat) == attacks_below(
                a,
                from,
                to as nat,
            ) + if reaches(a, from, to) {
                1int
            } else {
                0
            },
        forall|b: int, to: int|
            is_counted(a, b) && !(counted_once(a, b) && from < to) ==> #[trigger] seen_feature(
                a,
                from,
                to,
                b,
            ) == first_feature(a, b) + first_attack(a, from as nat) + attacks_below(
                a,
                from,
                to as nat,
            ),
{
}

/// The groups of attacks follow each other without a gap: for each attacker, by
/// kind, the targets that are counted, by kind, first those of the perspective's
/// own side; first all attackers of that side, and then those of the other.
pub proof fn groups_follow_each_other(a: int, b: int, b2: int)
    requires
        is_piece(a),
        is_piece(b),
        is_piece(b2),
        is_counted(a, b),
        is_counted(a, b2),
        b < b2,
        forall|x: int| b < x < b2 && #[trigger] is_piece(x) ==> !is_counted(a, x),
    ensures
        first_feature(1, 1) == 0,
        first_feature(a, b2) == first_feature(a, b) + first_attack(a, 64),
{
    lemma_totals(a);
    lemma_totals(1);
    lemma_target_step(a, b, b2);
    let total = first_attack(a, 64);
    let t = target_of(a, b);
    assert((t + 1) * total == t * total + total) by (nonlinear_arith);
    assert(target_of(1, 1) * first_attack(1, 64) == 0) by (nonlinear_arith)
        requires
            target_of(1, 1) == 0,
    ;
}

proof fn lemma_target_step(a: int, b: int, b2: int)
    requires
        is_piece(a),
        is_piece(b),
        is_piece(b2),
        is_counted(a, b),
        is_counted(a, b2),
        b < b2,
        forall|x: int| b < x < b2 && #[trigger] is_piece(x) ==> !is_counted(a, x),
    ensures
        target_of(a, b2) == target_of(a, b) + 1,
{
    let k = a % 8;
    assert(k == 1 || k == 2 || k == 3 || k == 4 || k == 5 || k == 6);
    assert(is_piece(1) && is_piece(2) && is_piece(3) && is_piece(4) && is_piece(5) && is_piece(6));
    assert(is_piece(9) && is_piece(10) && is_piece(11) && is_piece(12) && is_piece(13) && is_piece(
        14,
    ));
    assert(b == 1 || b == 2 || b == 3 || b == 4 || b == 5 || b == 6 || b == 9 || b == 10 || b == 11
        || b == 12 || b == 13 || b == 14);
    assert(b2 == 1 || b2 == 2 || b2 == 3 || b2 == 4 || b2 == 5 || b2 == 6 || b2 == 9 || b2 == 10
        || b2 == 11 || b2 == 12 || b2 == 13 || b2 == 14);
}

/// The first group of an attacker begins where the last group of the attacker
/// before it ends, and the last group of all ends with the features.
pub proof fn attackers_follow_each_other(a: int, a2: int, last: int)
    requires
        is_piece(a),
        is_piece(a2),
        a < a2,
        forall|x: int| a < x < a2 ==> !#[trigger] is_piece(x),
        is_piece(last),
        is_counted(a, last),
        forall|x: int| last < x && #[trigger] is_piece(x) ==> !is_counted(a, x),
    ensures
        is_counted(a2, 1),
        first_feature(a2, 1) == first_feature(a, last) + first_attack(a, 64),
{
    lemma_totals(a);
    lemma_totals(a2);
    lemma_last_target(a, last);
    let total = first_attack(a, 64);
    let t = target_of(a, last);
    assert(is_piece(9) && is_piece(2) && is_piece(3) && is_piece(4) && is_piece(5) && is_piece(6));
    assert(is_piece(10) && is_piece(11) && is_piece(12) && is_piece(13) && is_piece(14));
    assert(target_of(a2, 1) * first_attack(a2, 64) == 0) by (nonlinear_arith)
        requires
            target_of(a2, 1) == 0,
    ;
    assert((t + 1) * total == t * total + total) by (nonlinear_arith);
    lemma_block_ends(a, t, total);
}

proof fn lemma_last_target(a: int, last: int)
    requires
        is_piece(a),
        is_piece(last),
        is_counted(a, last),
        forall|x: int| last < x && #[trigger] is_piece(x) ==> !is_counted(a, x),
    ensures
        target_of(a, last) + 1 == 2 * TARGET_KINDS[a % 8 - 1],
{
    let k = a % 8;
    assert(k == 1 || k == 2 || k == 3 || k == 4 || k == 5 || k == 6);
    assert(is_piece(9) && is_piece(10) && is_piece(11) && is_piece(12) && is_piece(13) && is_piece(
        14,
    ));
    assert(last == 1 || last == 2 || last == 3 || last == 4 || last == 5 || last == 6 || last == 9
        || last == 10 || last == 11 || last == 12 || last == 13 || last == 14);
}

proof fn lemma_block_ends(a: int, t: int, total: int)
    requires
        is_piece(a),
        t + 1 == 2 * TARGET_KINDS[a % 8 - 1],
        total == first_attack(a, 64),
    ensures
        FIRST_FEATURE[a % 8 - 1] + (t + 1) * total == if a % 8 == 6 {
            SIDE_FEATURES
        } else {
            FIRST_FEATURE[a % 8]
        },
{
    lemma_totals(a);
    let k = a % 8;
    let n = t + 1;
    assert(k == 1 || k == 2 || k == 3 || k == 4 || k == 5 || k == 6);
    if k == 1 {
        assert(n * total == 6 * 84) by (nonlinear_arith)
            requires
                n == 6,
                total == 84,
        ;
    } else if k == 2 {
        assert(n * total == 12 * 336) by (nonlinear_arith)
            requires
                n == 12,
                total == 336,
        ;
    } else if k == 3 {
        assert(n * total == 10 * 560) by (nonlinear_arith)
            requires
                n == 10,
                total == 560,
        ;
    } else if k == 4 {
        assert(n * total == 10 * 896) by (nonlinear_arith)
            requires
                n == 10,
                total == 896,
        ;
    } else if k == 5 {
        assert(n * total == 12 * 1456) by (nonlinear_arith)
            requires
                n == 12,
                total == 1456,
        ;
    } else {
        assert(n * total == 8 * 420) by (nonlinear_arith)
            requires
                n == 8,
                total == 420,
        ;
    }
}

/// How a player sees an attack: ranks from their side, files as they are where
/// their king is on the left half and reversed where it is on the right, so that
/// their own king is always on the left, and their own pieces as White's.
pub proof fn attacks_are_seen_from_a_side(
    perspective: Color,
    king_square: u8,
    sq: int,
    piece: Piece,
)
    requires
        king_square < 64,
        0 <= sq < 64,
    ensures
        0 <= seen_square(perspective, king_square, sq) < 64,
        seen_square(perspective, king_square, sq) / 8 == rank_from(perspective, sq),
        seen_square(perspective, king_square, sq) % 8 == if king_square % 8 <= 3 {
            sq % 8
        } else {
            7 - sq % 8
        },
        seen_square(perspective, king_square, king_square as int) % 8 <= 3,
        seen_code(perspective, piece.code()) == piece.kind.code() + if piece.color == perspective {
            0int
        } else {
            8
        },
{
    lemma_seen(perspective, king_square, sq);
    lemma_seen(perspective, king_square, king_square as int);
}

proof fn lemma_seen(perspective: Color, king_square: u8, sq: int)
    requires
        0 <= sq < 64,
    ensures
        0 <= seen_square(perspective, king_square, sq) < 64,
        seen_square(perspective, king_square, sq) / 8 == rank_from(perspective, sq),
        seen_square(perspective, king_square, sq) % 8 == if king_square % 8 <= 3 {
            sq % 8
        } else {
            7 - sq % 8
        },
{
    let (f, r) = (sq % 8, sq / 8);
    assert(sq == 8 * r + f && r % 8 == r);
    let x = from_side(perspective, sq);
    let r2 = rank_from(perspective, sq);
    assert(x == 8 * r2 + f);
    assert(x % 8 == f && x / 8 == r2);
    assert(mirrored(x) == 8 * r2 + (7 - f));
    assert((8 * r2 + (7 - f)) % 8 == 7 - f && (8 * r2 + (7 - f)) / 8 == r2);
}

/// A player counts an attack as the attack of the pieces and squares as they see
/// them.
pub proof fn attacks_are_counted_as_seen(
    perspective: Color,
    attacker: Piece,
    from: int,
    to: int,
    target: Piece,
    king_square: u8,
    a: Piece,
    f: int,
    t: int,
    b: Piece,
)
    requires
        king_square < 64,
        0 <= from < 64,
        0 <= to < 64,
        a.kind == attacker.kind,
        b.kind == target.kind,
        a.color == Color::White <==> attacker.color == perspective,
        b.color == Color::White <==> target.color == perspective,
        f / 8 == rank_from(perspective, from),
        t / 8 == rank_from(perspective, to),
        f % 8 == if king_square % 8 <= 3 {
            from % 8
        } else {
            7 - from % 8
        },
        t % 8 == if king_square % 8 <= 3 {
            to % 8
        } else {
            7 - to % 8
        },
    ensures
        threat_feature(perspective, attacker.code(), from, to, target.code(), king_square)
            == seen_feature(a.code(), f, t, b.code()),
{
    attacks_are_seen_from_a_side(perspective, king_square, from, attacker);
    attacks_are_seen_from_a_side(perspective, king_square, to, target);
    let (x, y) = (
        seen_square(perspective, king_square, from),
        seen_square(perspective, king_square, to),
    );
    assert(f == 8 * (f / 8) + f % 8 && x == 8 * (x / 8) + x % 8);
    assert(t == 8 * (t / 8) + t % 8 && y == 8 * (y / 8) + y % 8);
    assert(a.code() == seen_code(perspective, attacker.code()));
    assert(b.code() == seen_code(perspective, target.code()));
}

} // verus!
