//! Turns of the board that leave evaluations as they are.

use crate::feature::{
    from_side, mirrored, Arch, KP_PIECE_INDEX, PIECE_SQUARE_INDEX, WHITE_KING_BUCKET,
};
use crate::laws::{score_ignores_recorded_attacks, score_is_relative};
use crate::model::{occupied_upto, NetworkModel};
use crate::threats::{
    board_codes, code_of, gap, line_clear, line_len, line_square, packed, packing_is_reversible,
    pair_list, pairs_upto, reaches, seen_square, slides, stepped, threat_feature, threatens,
};
use crate::types::{piece_at, Color, Piece, Position};
use vstd::prelude::*;

verus! {

/// A way to turn the board.
pub enum Turn {
    /// The ranks are reversed and the players change sides.
    Flip,
    /// The files are reversed.
    Mirror,
    /// Both are reversed, and the players change sides.
    Rotate,
}

impl Turn {
    /// Where a square comes to lie.
    pub open spec fn square(self, sq: int) -> int {
        let file = if self == Turn::Flip {
            sq % 8
        } else {
            7 - sq % 8
        };
        let rank = if self == Turn::Mirror {
            sq / 8
        } else {
            7 - sq / 8
        };
        8 * rank + file
    }

    /// The player who takes the place of `color`.
    pub open spec fn color(self, color: Color) -> Color {
        if self == Turn::Mirror {
            color
        } else {
            color.flipped()
        }
    }

    /// The piece that takes the place of `piece`.
    pub open spec fn piece(self, piece: Piece) -> Piece {
        Piece { color: self.color(piece.color), kind: piece.kind }
    }

    /// What takes the place of what stands on a square.
    pub open spec fn entry(self, piece: Option<Piece>) -> Option<Piece> {
        match piece {
            Some(p) => Some(self.piece(p)),
            None => None,
        }
    }

    /// The listed pieces after the turn.
    pub open spec fn pieces(self, pieces: Seq<(u8, Piece)>) -> Seq<(u8, Piece)> {
        pieces.map_values(|p: (u8, Piece)| (self.square(p.0 as int) as u8, self.piece(p.1)))
    }

    /// The position after the turn.
    pub open spec fn position(self, pos: Position) -> Position {
        Position {
            pieces: self.pieces(pos.pieces),
            white_king: self.square(pos.king(self.color(Color::White)) as int) as u8,
            black_king: self.square(pos.king(self.color(Color::Black)) as int) as u8,
            stm: self.color(pos.stm),
        }
    }

    /// Whether a feature set does not tell the position from the turned one.
    /// HalfKP sees the board rotated from Black's side, the others see it
    /// flipped; the mirrored feature sets also ignore which wing is which.
    pub open spec fn suits(self, arch: Arch) -> bool {
        match self {
            Turn::Flip => arch != Arch::HalfKP,
            Turn::Mirror => arch == Arch::HalfKAv2Hm || arch == Arch::Sfnnv10,
            Turn::Rotate => arch == Arch::HalfKP,
        }
    }
}

proof fn lemma_square(turn: Turn, sq: int)
    requires
        0 <= sq < 64,
    ensures
        0 <= turn.square(sq) < 64,
        turn.square(turn.square(sq)) == sq,
        turn.square(sq) % 8 == if turn == Turn::Flip {
            sq % 8
        } else {
            7 - sq % 8
        },
        turn.square(sq) / 8 == if turn == Turn::Mirror {
            sq / 8
        } else {
            7 - sq / 8
        },
{
    let (f, r) = (sq % 8, sq / 8);
    assert(sq == 8 * r + f);
}

/// How the squares look that a perspective sees.
proof fn lemma_views(perspective: Color, sq: int)
    requires
        0 <= sq < 64,
    ensures
        from_side(perspective, sq) == match perspective {
            Color::White => sq,
            Color::Black => 8 * (7 - sq / 8) + sq % 8,
        },
        from_side(perspective, sq) % 8 == sq % 8,
        mirrored(from_side(perspective, sq)) == match perspective {
            Color::White => 8 * (sq / 8) + (7 - sq % 8),
            Color::Black => 8 * (7 - sq / 8) + (7 - sq % 8),
        },
{
    let (f, r) = (sq % 8, sq / 8);
    assert(sq == 8 * r + f && r % 8 == r);
    let x = from_side(perspective, sq);
    let r2 = match perspective {
        Color::White => r,
        Color::Black => 7 - r,
    };
    assert(x == 8 * r2 + f);
}

/// The king buckets of mirrored squares are the same.
proof fn lemma_bucket_mirror(f: int, r: int)
    requires
        0 <= f < 8,
        0 <= r < 8,
    ensures
        WHITE_KING_BUCKET[8 * r + f] == WHITE_KING_BUCKET[8 * r + (7 - f)],
{
}

/// A piece is in the same place of its plane from either side.
proof fn lemma_planes(perspective: Color, piece: Piece)
    ensures
        PIECE_SQUARE_INDEX[perspective.ordinal()][piece.code()]
            == PIECE_SQUARE_INDEX[perspective.flipped().ordinal()][piece.recolored().code()],
        KP_PIECE_INDEX[perspective.ordinal()][piece.code()]
            == KP_PIECE_INDEX[perspective.flipped().ordinal()][piece.recolored().code()],
{
}

/// Turning the board keeps the feature of every piece.
pub proof fn turning_keeps_features(
    arch: Arch,
    turn: Turn,
    perspective: Color,
    sq: int,
    piece: Piece,
    king_square: u8,
)
    requires
        turn.suits(arch),
        0 <= sq < 64,
        king_square < 64,
    ensures
        arch.feature(
            turn.color(perspective),
            turn.square(sq),
            turn.piece(piece).code(),
            turn.square(king_square as int) as u8,
        ) == arch.feature(perspective, sq, piece.code(), king_square),
{
    let king = king_square as int;
    lemma_square(turn, sq);
    lemma_square(turn, king);
    lemma_views(perspective, sq);
    lemma_views(perspective, king);
    lemma_views(turn.color(perspective), turn.square(sq));
    lemma_views(turn.color(perspective), turn.square(king));
    lemma_planes(perspective, piece);
    lemma_bucket_mirror(king % 8, king / 8);
    lemma_bucket_mirror(king % 8, 7 - king / 8);
}

proof fn lemma_rows(
    arch: Arch,
    turn: Turn,
    perspective: Color,
    king_square: u8,
    pieces: Seq<(u8, Piece)>,
)
    requires
        turn.suits(arch),
        king_square < 64,
        forall|i: int| 0 <= i < pieces.len() ==> (#[trigger] pieces[i]).0 < 64,
    ensures
        arch.rows(
            turn.color(perspective),
            turn.square(king_square as int) as u8,
            turn.pieces(pieces),
        ) == arch.rows(perspective, king_square, pieces),
    decreases pieces.len(),
{
    if pieces.len() > 0 {
        let before = pieces.drop_last();
        let (sq, piece) = pieces.last();
        assert(pieces[pieces.len() - 1] == (sq, piece));
        assert forall|i: int| 0 <= i < before.len() implies (#[trigger] before[i]).0 < 64 by {
            assert(before[i] == pieces[i]);
        }
        lemma_rows(arch, turn, perspective, king_square, before);
        assert(turn.pieces(pieces).drop_last() =~= turn.pieces(before));
        lemma_square(turn, sq as int);
        turning_keeps_features(arch, turn, perspective, sq as int, piece, king_square);
    }
}

/// What stands on a square, stands on the turned square after the turn.
proof fn lemma_turned_at(turn: Turn, pieces: Seq<(u8, Piece)>, sq: int)
    requires
        forall|i: int| 0 <= i < pieces.len() ==> (#[trigger] pieces[i]).0 < 64,
        0 <= sq < 64,
    ensures
        piece_at(turn.pieces(pieces), turn.square(sq)) == turn.entry(piece_at(pieces, sq)),
    decreases pieces.len(),
{
    if pieces.len() > 0 {
        let before = pieces.drop_last();
        let last = pieces.last();
        assert(pieces[pieces.len() - 1] == last);
        assert forall|i: int| 0 <= i < before.len() implies (#[trigger] before[i]).0 < 64 by {
            assert(before[i] == pieces[i]);
        }
        lemma_turned_at(turn, before, sq);
        assert(turn.pieces(pieces).drop_last() =~= turn.pieces(before));
        lemma_square(turn, sq);
        lemma_square(turn, last.0 as int);
    }
}

/// The sum of `f` over the numbers below `n`.
spec fn total(f: spec_fn(int) -> int, n: nat) -> int
    decreases n,
{
    if n == 0 {
        0
    } else {
        total(f, (n - 1) as nat) + f(n - 1)
    }
}

/// The sum of `f` over the squares of a rank.
spec fn rank_total(f: spec_fn(int) -> int, r: int) -> int {
    f(8 * r) + f(8 * r + 1) + f(8 * r + 2) + f(8 * r + 3) + f(8 * r + 4) + f(8 * r + 5) + f(
        8 * r + 6,
    ) + f(8 * r + 7)
}

proof fn lemma_rank_total(f: spec_fn(int) -> int, r: nat)
    ensures
        total(f, 8 * r + 8) == total(f, 8 * r) + rank_total(f, r as int),
{
    reveal_with_fuel(total, 9);
}

proof fn lemma_board_total(f: spec_fn(int) -> int)
    ensures
        total(f, 64) == rank_total(f, 0) + rank_total(f, 1) + rank_total(f, 2) + rank_total(f, 3)
            + rank_total(f, 4) + rank_total(f, 5) + rank_total(f, 6) + rank_total(f, 7),
{
    lemma_rank_total(f, 0);
    lemma_rank_total(f, 1);
    lemma_rank_total(f, 2);
    lemma_rank_total(f, 3);
    lemma_rank_total(f, 4);
    lemma_rank_total(f, 5);
    lemma_rank_total(f, 6);
    lemma_rank_total(f, 7);
}

proof fn lemma_rank_turned(turn: Turn, f: spec_fn(int) -> int, g: spec_fn(int) -> int, r: int)
    requires
        forall|sq: int| 0 <= sq < 64 ==> #[trigger] g(sq) == f(turn.square(sq)),
        0 <= r < 8,
    ensures
        rank_total(g, r) == rank_total(
            f,
            if turn == Turn::Mirror {
                r
            } else {
                7 - r
            },
        ),
{
    let file = |k: int|
        if turn == Turn::Flip {
            k
        } else {
            7 - k
        };
    let rank = if turn == Turn::Mirror {
        r
    } else {
        7 - r
    };
    assert forall|k: int| 0 <= k < 8 implies #[trigger] turn.square(8 * r + k) == 8 * rank + file(
        k,
    ) by {
        assert((8 * r + k) % 8 == k && (8 * r + k) / 8 == r);
    }
    assert(turn.square(8 * r + 0) == 8 * rank + file(0));
}

/// Summing over the squares in another order makes no difference.
proof fn lemma_total_turned(turn: Turn, f: spec_fn(int) -> int, g: spec_fn(int) -> int)
    requires
        forall|sq: int| 0 <= sq < 64 ==> #[trigger] g(sq) == f(turn.square(sq)),
    ensures
        total(f, 64) == total(g, 64),
{
    lemma_board_total(f);
    lemma_board_total(g);
    lemma_rank_turned(turn, f, g, 0);
    lemma_rank_turned(turn, f, g, 1);
    lemma_rank_turned(turn, f, g, 2);
    lemma_rank_turned(turn, f, g, 3);
    lemma_rank_turned(turn, f, g, 4);
    lemma_rank_turned(turn, f, g, 5);
    lemma_rank_turned(turn, f, g, 6);
    lemma_rank_turned(turn, f, g, 7);
}

proof fn lemma_total_equal(f: spec_fn(int) -> int, g: spec_fn(int) -> int, n: nat)
    requires
        forall|i: int| 0 <= i < n ==> #[trigger] f(i) == g(i),
    ensures
        total(f, n) == total(g, n),
    decreases n,
{
    if n > 0 {
        lemma_total_equal(f, g, (n - 1) as nat);
        assert(f(n - 1) == g(n - 1));
    }
}

/// A sum over pairs of squares is a sum of sums.
proof fn lemma_total_nested(f: spec_fn(int) -> int, k: nat, j: nat)
    requires
        j <= 64,
    ensures
        total(f, 64 * k + j) == total(|from: int| total(|to: int| f(64 * from + to), 64), k)
            + total(|to: int| f(64 * k + to), j),
    decreases k, j,
{
    let outer = |from: int| total(|to: int| f(64 * from + to), 64);
    if j > 0 {
        lemma_total_nested(f, k, (j - 1) as nat);
    } else if k > 0 {
        lemma_total_nested(f, (k - 1) as nat, 64);
        assert(64 * k + j == 64 * (k - 1) + 64);
    }
}

proof fn lemma_turned_codes(turn: Turn, pieces: Seq<(u8, Piece)>, sq: int)
    requires
        forall|i: int| 0 <= i < pieces.len() ==> (#[trigger] pieces[i]).0 < 64,
        0 <= sq < 64,
    ensures
        board_codes(turn.pieces(pieces))[turn.square(sq)] == code_of(
            turn.entry(piece_at(pieces, sq)),
        ),
{
    lemma_square(turn, sq);
    lemma_turned_at(turn, pieces, sq);
}

/// Turning the board keeps what a piece attacks.
proof fn lemma_reaches(turn: Turn, piece: Piece, from: int, to: int)
    requires
        0 <= from < 64,
        0 <= to < 64,
    ensures
        reaches(turn.piece(piece).code(), turn.square(from), turn.square(to)) == reaches(
            piece.code(),
            from,
            to,
        ),
{
    lemma_square(turn, from);
    lemma_square(turn, to);
}

/// Turning the board turns the line between two squares.
proof fn lemma_line(turn: Turn, from: int, to: int, k: int)
    requires
        0 <= from < 64,
        0 <= to < 64,
        1 <= k < line_len(from, to),
        gap(from % 8, to % 8) == 0 || gap(from / 8, to / 8) == 0 || gap(from % 8, to % 8) == gap(
            from / 8,
            to / 8,
        ),
    ensures
        0 <= line_square(from, to, k) < 64,
        line_square(turn.square(from), turn.square(to), k) == turn.square(
            line_square(from, to, k),
        ),
{
    lemma_square(turn, from);
    lemma_square(turn, to);
    let file = stepped(from % 8, to % 8, k);
    let rank = stepped(from / 8, to / 8, k);
    assert(0 <= file < 8 && 0 <= rank < 8);
    let sq = line_square(from, to, k);
    assert(sq == 8 * rank + file);
    assert(sq % 8 == file && sq / 8 == rank);
}

/// Turning the board keeps the attacks on it.
proof fn lemma_threatens(turn: Turn, pieces: Seq<(u8, Piece)>, from: int, to: int)
    requires
        forall|i: int| 0 <= i < pieces.len() ==> (#[trigger] pieces[i]).0 < 64,
        0 <= from < 64,
        0 <= to < 64,
    ensures
        threatens(board_codes(turn.pieces(pieces)), turn.square(from), turn.square(to))
            == threatens(board_codes(pieces), from, to),
{
    let codes = board_codes(pieces);
    let after = board_codes(turn.pieces(pieces));
    lemma_turned_codes(turn, pieces, from);
    lemma_turned_codes(turn, pieces, to);
    assert(codes[from] == code_of(piece_at(pieces, from)));
    assert(codes[to] == code_of(piece_at(pieces, to)));
    if let Some(piece) = piece_at(pieces, from) {
        lemma_reaches(turn, piece, from, to);
        if slides(piece.code()) && reaches(piece.code(), from, to) {
            lemma_square(turn, from);
            lemma_square(turn, to);
            assert(line_len(turn.square(from), turn.square(to)) == line_len(from, to));
            assert forall|k: int| 1 <= k < line_len(from, to) implies (
            after[#[trigger] line_square(turn.square(from), turn.square(to), k)] == 0) == (
            codes[line_square(from, to, k)] == 0) by {
                lemma_line(turn, from, to, k);
                lemma_turned_codes(turn, pieces, line_square(from, to, k));
                assert(codes[line_square(from, to, k)] == code_of(
                    piece_at(pieces, line_square(from, to, k)),
                ));
            }
            assert forall|k: int| 1 <= k < line_len(from, to) implies (
            codes[#[trigger] line_square(from, to, k)] == 0) == (
            after[line_square(turn.square(from), turn.square(to), k)] == 0) by {}
            assert(line_clear(after, turn.square(from), turn.square(to)) == line_clear(
                codes,
                from,
                to,
            ));
        }
    }
}

/// Turning the board keeps the feature of every attack.
pub proof fn turning_keeps_attack_features(
    turn: Turn,
    perspective: Color,
    attacker: Piece,
    from: int,
    to: int,
    attacked: Piece,
    king_square: u8,
)
    requires
        turn.suits(Arch::Sfnnv10),
        0 <= from < 64,
        0 <= to < 64,
        king_square < 64,
    ensures
        threat_feature(
            turn.color(perspective),
            turn.piece(attacker).code(),
            turn.square(from),
            turn.square(to),
            turn.piece(attacked).code(),
            turn.square(king_square as int) as u8,
        ) == threat_feature(
            perspective,
            attacker.code(),
            from,
            to,
            attacked.code(),
            king_square,
        ),
{
    let king = king_square as int;
    lemma_square(turn, king);
    lemma_seen_turned(turn, perspective, king_square, from);
    lemma_seen_turned(turn, perspective, king_square, to);
}

proof fn lemma_seen_turned(turn: Turn, perspective: Color, king_square: u8, sq: int)
    requires
        turn.suits(Arch::Sfnnv10),
        0 <= sq < 64,
        king_square < 64,
    ensures
        seen_square(
            turn.color(perspective),
            turn.square(king_square as int) as u8,
            turn.square(sq),
        ) == seen_square(perspective, king_square, sq),
{
    let king = king_square as int;
    lemma_square(turn, sq);
    lemma_square(turn, king);
    lemma_views(perspective, sq);
    lemma_views(turn.color(perspective), turn.square(sq));
}

proof fn lemma_squares_as_total(
    net: NetworkModel,
    perspective: Color,
    king_square: u8,
    codes: Seq<u8>,
    n: nat,
    c: int,
)
    ensures
        net.squares_total(perspective, king_square, codes, n, c) == total(
            |sq: int| net.square_weight(perspective, king_square, sq, codes[sq], c),
            n,
        ),
    decreases n,
{
    if n > 0 {
        lemma_squares_as_total(net, perspective, king_square, codes, (n - 1) as nat, c);
    }
}

proof fn lemma_occupied_as_total(codes: Seq<u8>, n: nat)
    ensures
        occupied_upto(codes, n) == total(
            |sq: int|
                if codes[sq] != 0 {
                    1
                } else {
                    0
                },
            n,
        ),
    decreases n,
{
    if n > 0 {
        lemma_occupied_as_total(codes, (n - 1) as nat);
    }
}

/// What an attack from `from` on `to`, if there is one, adds to channel `c`.
spec fn attack_weight(
    net: NetworkModel,
    perspective: Color,
    king_square: u8,
    codes: Seq<u8>,
    from: int,
    to: int,
    c: int,
) -> int {
    if threatens(codes, from, to) {
        net.pair_weight(
            perspective,
            king_square,
            packed(from, to, codes[from] as int, codes[to] as int),
            c,
        )
    } else {
        0
    }
}

proof fn lemma_pairs_as_total(
    net: NetworkModel,
    perspective: Color,
    king_square: u8,
    codes: Seq<u8>,
    n: nat,
    c: int,
)
    ensures
        net.pairs_total(perspective, king_square, pairs_upto(codes, n), c) == total(
            |m: int| attack_weight(net, perspective, king_square, codes, m / 64, m % 64, c),
            n,
        ),
    decreases n,
{
    if n > 0 {
        lemma_pairs_as_total(net, perspective, king_square, codes, (n - 1) as nat, c);
        let before = pairs_upto(codes, (n - 1) as nat);
        let from = (n - 1) / 64;
        let to = (n - 1) % 64;
        let pair = packed(from, to, codes[from] as int, codes[to] as int);
        assert(before.push(pair).drop_last() =~= before);
    }
}

/// The attacks of a board as a sum over the squares `from` and `to`.
proof fn lemma_pairs_nested(
    net: NetworkModel,
    perspective: Color,
    king_square: u8,
    codes: Seq<u8>,
    c: int,
)
    ensures
        net.pairs_total(perspective, king_square, pair_list(codes), c) == total(
            |from: int|
                total(
                    |to: int| attack_weight(net, perspective, king_square, codes, from, to, c),
                    64,
                ),
            64,
        ),
{
    let f = |m: int| attack_weight(net, perspective, king_square, codes, m / 64, m % 64, c);
    lemma_pairs_as_total(net, perspective, king_square, codes, 4096, c);
    lemma_total_nested(f, 64, 0);
    let nested = |from: int| total(|to: int| f(64 * from + to), 64);
    let plain = |from: int|
        total(|to: int| attack_weight(net, perspective, king_square, codes, from, to, c), 64);
    assert forall|from: int| 0 <= from < 64 implies #[trigger] nested(from) == plain(from) by {
        let a = |to: int| f(64 * from + to);
        let b = |to: int| attack_weight(net, perspective, king_square, codes, from, to, c);
        assert forall|to: int| 0 <= to < 64 implies #[trigger] a(to) == b(to) by {
            assert((64 * from + to) / 64 == from && (64 * from + to) % 64 == to);
        }
        lemma_total_equal(a, b, 64);
    }
    lemma_total_equal(nested, plain, 64);
}

/// Turning the board keeps what an attack adds.
proof fn lemma_attack_weight(
    net: NetworkModel,
    turn: Turn,
    perspective: Color,
    king_square: u8,
    pieces: Seq<(u8, Piece)>,
    from: int,
    to: int,
    c: int,
)
    requires
        turn.suits(Arch::Sfnnv10),
        forall|i: int| 0 <= i < pieces.len() ==> (#[trigger] pieces[i]).0 < 64,
        king_square < 64,
        0 <= from < 64,
        0 <= to < 64,
    ensures
        attack_weight(
            net,
            turn.color(perspective),
            turn.square(king_square as int) as u8,
            board_codes(turn.pieces(pieces)),
            turn.square(from),
            turn.square(to),
            c,
        ) == attack_weight(net, perspective, king_square, board_codes(pieces), from, to, c),
{
    lemma_threatens(turn, pieces, from, to);
    let codes = board_codes(pieces);
    if threatens(codes, from, to) {
        assert(codes[from] == code_of(piece_at(pieces, from)));
        assert(codes[to] == code_of(piece_at(pieces, to)));
        let attacker = piece_at(pieces, from)->0;
        let attacked = piece_at(pieces, to)->0;
        lemma_turned_codes(turn, pieces, from);
        lemma_turned_codes(turn, pieces, to);
        lemma_square(turn, from);
        lemma_square(turn, to);
        packing_is_reversible(from, to, attacker.code(), attacked.code());
        packing_is_reversible(
            turn.square(from),
            turn.square(to),
            turn.piece(attacker).code(),
            turn.piece(attacked).code(),
        );
        turning_keeps_attack_features(
            turn,
            perspective,
            attacker,
            from,
            to,
            attacked,
            king_square,
        );
    }
}

proof fn lemma_pairs_turned(
    net: NetworkModel,
    turn: Turn,
    perspective: Color,
    king_square: u8,
    pieces: Seq<(u8, Piece)>,
    c: int,
)
    requires
        turn.suits(Arch::Sfnnv10),
        forall|i: int| 0 <= i < pieces.len() ==> (#[trigger] pieces[i]).0 < 64,
        king_square < 64,
    ensures
        net.pairs_total(
            turn.color(perspective),
            turn.square(king_square as int) as u8,
            pair_list(board_codes(turn.pieces(pieces))),
            c,
        ) == net.pairs_total(perspective, king_square, pair_list(board_codes(pieces)), c),
{
    let codes = board_codes(pieces);
    let after = board_codes(turn.pieces(pieces));
    let player = turn.color(perspective);
    let king = turn.square(king_square as int) as u8;
    lemma_pairs_nested(net, perspective, king_square, codes, c);
    lemma_pairs_nested(net, player, king, after, c);
    let g = |from: int|
        total(|to: int| attack_weight(net, perspective, king_square, codes, from, to, c), 64);
    let f = |from: int|
        total(|to: int| attack_weight(net, player, king, after, from, to, c), 64);
    assert forall|from: int| 0 <= from < 64 implies #[trigger] g(from) == f(turn.square(from)) by {
        let b = |to: int| attack_weight(net, perspective, king_square, codes, from, to, c);
        let a = |to: int| attack_weight(net, player, king, after, turn.square(from), to, c);
        assert forall|to: int| 0 <= to < 64 implies #[trigger] b(to) == a(turn.square(to)) by {
            lemma_attack_weight(net, turn, perspective, king_square, pieces, from, to, c);
        }
        lemma_total_turned(turn, a, b);
    }
    lemma_total_turned(turn, f, g);
}

proof fn lemma_squares_turned(
    net: NetworkModel,
    turn: Turn,
    perspective: Color,
    king_square: u8,
    pieces: Seq<(u8, Piece)>,
    c: int,
)
    requires
        turn.suits(net.arch),
        forall|i: int| 0 <= i < pieces.len() ==> (#[trigger] pieces[i]).0 < 64,
        king_square < 64,
    ensures
        net.squares_total(
            turn.color(perspective),
            turn.square(king_square as int) as u8,
            board_codes(turn.pieces(pieces)),
            64,
            c,
        ) == net.squares_total(perspective, king_square, board_codes(pieces), 64, c),
{
    let codes = board_codes(pieces);
    let after = board_codes(turn.pieces(pieces));
    let player = turn.color(perspective);
    let king = turn.square(king_square as int) as u8;
    lemma_squares_as_total(net, perspective, king_square, codes, 64, c);
    lemma_squares_as_total(net, player, king, after, 64, c);
    let g = |sq: int| net.square_weight(perspective, king_square, sq, codes[sq], c);
    let f = |sq: int| net.square_weight(player, king, sq, after[sq], c);
    assert forall|sq: int| 0 <= sq < 64 implies #[trigger] g(sq) == f(turn.square(sq)) by {
        lemma_turned_codes(turn, pieces, sq);
        assert(codes[sq] == code_of(piece_at(pieces, sq)));
        if let Some(piece) = piece_at(pieces, sq) {
            turning_keeps_features(net.arch, turn, perspective, sq, piece, king_square);
        }
    }
    lemma_total_turned(turn, f, g);
}

proof fn lemma_count_turned(turn: Turn, pieces: Seq<(u8, Piece)>)
    requires
        forall|i: int| 0 <= i < pieces.len() ==> (#[trigger] pieces[i]).0 < 64,
    ensures
        occupied_upto(board_codes(turn.pieces(pieces)), 64) == occupied_upto(
            board_codes(pieces),
            64,
        ),
{
    let codes = board_codes(pieces);
    let after = board_codes(turn.pieces(pieces));
    lemma_occupied_as_total(codes, 64);
    lemma_occupied_as_total(after, 64);
    let g = |sq: int|
        if codes[sq] != 0 {
            1
        } else {
            0
        };
    let f = |sq: int|
        if after[sq] != 0 {
            1
        } else {
            0
        };
    assert forall|sq: int| 0 <= sq < 64 implies #[trigger] g(sq) == f(turn.square(sq)) by {
        lemma_turned_codes(turn, pieces, sq);
        assert(codes[sq] == code_of(piece_at(pieces, sq)));
    }
    lemma_total_turned(turn, f, g);
}

/// Turning the board in a way that suits the feature set exchanges the
/// accumulators as it exchanges the players, and changes nothing in them.
pub proof fn turning_keeps_accumulators(
    net: NetworkModel,
    turn: Turn,
    pos: Position,
    perspective: Color,
)
    requires
        pos.valid(),
        turn.suits(net.arch),
    ensures
        turn.position(pos).valid(),
        net.fresh_acc(turn.color(perspective), turn.position(pos)) == net.fresh_acc(
            perspective,
            pos,
        ),
        net.fresh_psqt(turn.color(perspective), turn.position(pos)) == net.fresh_psqt(
            perspective,
            pos,
        ),
        net.piece_count(turn.position(pos)) == net.piece_count(pos),
{
    let after = turn.position(pos);
    let player = turn.color(perspective);
    let ksq = pos.king(perspective);
    lemma_square(turn, pos.white_king as int);
    lemma_square(turn, pos.black_king as int);
    assert forall|i: int| 0 <= i < after.pieces.len() implies (#[trigger] after.pieces[i]).0
        < 64 by {
        assert(pos.pieces[i].0 < 64);
        lemma_square(turn, pos.pieces[i].0 as int);
    }
    assert(after.king(player) == turn.square(ksq as int) as u8);
    assert forall|c: int|
        #[trigger] net.position_total(player, after, c) == net.position_total(
            perspective,
            pos,
            c,
        ) by {
        if net.arch == Arch::Sfnnv10 {
            lemma_squares_turned(net, turn, perspective, ksq, pos.pieces, c);
            lemma_pairs_turned(net, turn, perspective, ksq, pos.pieces, c);
        } else {
            lemma_rows(net.arch, turn, perspective, ksq, pos.pieces);
        }
    }
    assert(net.fresh_acc(player, after) =~= net.fresh_acc(perspective, pos));
    assert(net.fresh_psqt(player, after) =~= net.fresh_psqt(perspective, pos));
    lemma_count_turned(turn, pos.pieces);
}

/// Turning the board in a way that suits the feature set keeps the score.
pub proof fn turning_keeps_score(net: NetworkModel, turn: Turn, pos: Position)
    requires
        pos.valid(),
        turn.suits(net.arch),
    ensures
        net.score(net.fresh(turn.position(pos), Seq::empty()), turn.position(pos).stm)
            == net.score(net.fresh(pos, Seq::empty()), pos.stm),
{
    turning_keeps_accumulators(net, turn, pos, Color::White);
    turning_keeps_accumulators(net, turn, pos, Color::Black);
    let after = net.fresh(turn.position(pos), Seq::empty());
    let before = net.fresh(pos, Seq::empty());
    if turn == Turn::Mirror {
        score_ignores_recorded_attacks(net, before, after.threat_pairs, pos.stm);
    } else {
        score_is_relative(net, before, pos.stm);
        score_ignores_recorded_attacks(
            net,
            before.swapped(),
            after.threat_pairs,
            pos.stm.flipped(),
        );
    }
}

} // verus!
