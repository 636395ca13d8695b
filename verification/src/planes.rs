//! Where the features of the pieces lie.

use crate::feature::{
    feature_index, from_side, mirrored, oriented, turned, Arch, KP_PIECE_INDEX,
    PIECE_SQUARE_INDEX, WHITE_KING_BUCKET,
};
use crate::types::{Color, Piece, PieceKind};
use vstd::prelude::*;

verus! {

/// The rank of a square, counted from the side of a player.
pub open spec fn rank_from(perspective: Color, sq: int) -> int {
    if perspective == Color::White {
        sq / 8
    } else {
        7 - sq / 8
    }
}

/// The plane of a piece: for each kind but the king two planes in a row, the
/// player's own and the opponent's, and one for both kings.
pub open spec fn plane(perspective: Color, piece: Piece) -> int {
    if piece.kind == PieceKind::King {
        10
    } else {
        2 * (piece.kind.code() - 1) + if piece.color == perspective {
            0int
        } else {
            1
        }
    }
}

/// The distance of a file from the nearer edge of the board.
pub open spec fn from_edge(file: int) -> int {
    if file <= 3 {
        file
    } else {
        7 - file
    }
}

/// How a player sees a square in the mirrored feature sets: rank by rank from
/// their side, with the files as they are where their king is on the right half,
/// and reversed where it is on the left.
pub proof fn board_is_oriented(perspective: Color, king_square: u8, sq: int)
    requires
        king_square < 64,
        0 <= sq < 64,
    ensures
        0 <= oriented(perspective, king_square, sq) < 64,
        oriented(perspective, king_square, sq) / 8 == rank_from(perspective, sq),
        oriented(perspective, king_square, sq) % 8 == if king_square % 8 >= 4 {
            sq % 8
        } else {
            7 - sq % 8
        },
{
    let (f, r) = (sq % 8, sq / 8);
    assert(sq == 8 * r + f && r % 8 == r);
    let x = from_side(perspective, sq);
    let r2 = rank_from(perspective, sq);
    assert(x == 8 * r2 + f);
    assert(x % 8 == f && x / 8 == r2);
    assert(mirrored(x) == 8 * r2 + (7 - f));
    assert((8 * r2 + (7 - f)) % 8 == 7 - f && (8 * r2 + (7 - f)) / 8 == r2);
}

/// A player's own king always stands on the right half of the board as they see
/// it.
pub proof fn own_king_is_on_the_right(perspective: Color, king_square: u8)
    requires
        king_square < 64,
    ensures
        4 <= oriented(perspective, king_square, king_square as int) % 8 <= 7,
        oriented(perspective, king_square, king_square as int) / 8 == rank_from(
            perspective,
            king_square as int,
        ),
{
    board_is_oriented(perspective, king_square, king_square as int);
}

proof fn lemma_plane_tables(perspective: Color, piece: Piece)
    ensures
        PIECE_SQUARE_INDEX[perspective.ordinal()][piece.code()] == 64 * plane(perspective, piece),
        piece.kind != PieceKind::King ==> KP_PIECE_INDEX[perspective.ordinal()][piece.code()] == 1
            + 64 * plane(perspective, piece),
{
}

proof fn lemma_bucket_table(x: int)
    requires
        0 <= x < 64,
    ensures
        WHITE_KING_BUCKET[x] == 4 * (7 - x / 8) + from_edge(x % 8),
{
}

proof fn lemma_from_side(perspective: Color, sq: int)
    requires
        0 <= sq < 64,
    ensures
        from_side(perspective, sq) == 8 * rank_from(perspective, sq) + sq % 8,
        0 <= from_side(perspective, sq) < 64,
        from_side(perspective, sq) / 8 == rank_from(perspective, sq),
        from_side(perspective, sq) % 8 == sq % 8,
        turned(perspective, sq) == if perspective == Color::White {
            sq
        } else {
            63 - sq
        },
{
    let (f, r) = (sq % 8, sq / 8);
    assert(sq == 8 * r + f && r % 8 == r);
}

/// The features of the mirrored sets: 704 for each pair of mirrored king squares,
/// from the far end of the board and the edges inwards, in planes of 64 squares
/// as the player sees them.
pub proof fn mirrored_features(perspective: Color, sq: int, piece: Piece, king_square: u8)
    requires
        king_square < 64,
        0 <= sq < 64,
    ensures
        feature_index(perspective, sq, piece.code(), king_square) == 704 * (4 * (7 - rank_from(
            perspective,
            king_square as int,
        )) + from_edge(king_square as int % 8)) + 64 * plane(perspective, piece) + oriented(
            perspective,
            king_square,
            sq,
        ),
        Arch::HalfKAv2Hm.feature(perspective, sq, piece.code(), king_square) == feature_index(
            perspective,
            sq,
            piece.code(),
            king_square,
        ),
        Arch::Sfnnv10.feature(perspective, sq, piece.code(), king_square) == feature_index(
            perspective,
            sq,
            piece.code(),
            king_square,
        ),
{
    lemma_plane_tables(perspective, piece);
    lemma_from_side(perspective, king_square as int);
    lemma_bucket_table(from_side(perspective, king_square as int));
}

/// The features of the unmirrored set: 704 for each king square, in planes of 64
/// squares, all squares rank by rank from the player's side.
pub proof fn unmirrored_features(perspective: Color, sq: int, piece: Piece, king_square: u8)
    requires
        king_square < 64,
        0 <= sq < 64,
    ensures
        Arch::HalfKAv2.feature(perspective, sq, piece.code(), king_square) == 704 * (8 * rank_from(
            perspective,
            king_square as int,
        ) + king_square as int % 8) + 64 * plane(perspective, piece) + 8 * rank_from(
            perspective,
            sq,
        ) + sq % 8,
{
    lemma_plane_tables(perspective, piece);
    lemma_from_side(perspective, king_square as int);
    lemma_from_side(perspective, sq);
}

/// The features of HalfKP: 641 for each king square, the first one unused, then
/// planes of 64 squares without the kings. Black sees the board turned round.
pub proof fn halfkp_features(perspective: Color, sq: int, piece: Piece, king_square: u8)
    requires
        king_square < 64,
        0 <= sq < 64,
        piece.kind != PieceKind::King,
    ensures
        perspective == Color::White ==> Arch::HalfKP.feature(
            perspective,
            sq,
            piece.code(),
            king_square,
        ) == 641 * king_square + 1 + 64 * plane(perspective, piece) + sq,
        perspective == Color::Black ==> Arch::HalfKP.feature(
            perspective,
            sq,
            piece.code(),
            king_square,
        ) == 641 * (63 - king_square) + 1 + 64 * plane(perspective, piece) + (63 - sq),
{
    lemma_plane_tables(perspective, piece);
    lemma_from_side(perspective, king_square as int);
    lemma_from_side(perspective, sq);
}

/// The features of a list of pieces are those of its parts, one for each piece in
/// order; only HalfKP has none for the kings.
pub proof fn features_piece_by_piece(
    arch: Arch,
    perspective: Color,
    king_square: u8,
    pieces: Seq<(u8, Piece)>,
    sq: u8,
    piece: Piece,
)
    requires
        king_square < 64,
        sq < 64,
    ensures
        arch.rows(perspective, king_square, Seq::empty()).len() == 0,
        arch == Arch::HalfKP && piece.kind == PieceKind::King ==> arch.rows(
            perspective,
            king_square,
            pieces.push((sq, piece)),
        ) == arch.rows(perspective, king_square, pieces),
        arch != Arch::HalfKP || piece.kind != PieceKind::King ==> arch.rows(
            perspective,
            king_square,
            pieces.push((sq, piece)),
        ) == arch.rows(perspective, king_square, pieces).push(
            arch.feature(perspective, sq as int, piece.code(), king_square) as usize,
        ),
{
    assert(pieces.push((sq, piece)).drop_last() =~= pieces);
}

/// The codes of the pieces, which number the tables: a kind from pawn to king,
/// and eight more for Black.
pub proof fn codes_of_pieces(color: Color)
    ensures
        (Piece { color: Color::White, kind: PieceKind::Pawn }).code() == 1,
        (Piece { color: Color::White, kind: PieceKind::Knight }).code() == 2,
        (Piece { color: Color::White, kind: PieceKind::Bishop }).code() == 3,
        (Piece { color: Color::White, kind: PieceKind::Rook }).code() == 4,
        (Piece { color: Color::White, kind: PieceKind::Queen }).code() == 5,
        (Piece { color: Color::White, kind: PieceKind::King }).code() == 6,
        forall|kind: PieceKind|
            #![trigger (Piece { color: Color::Black, kind }).code()]
            (Piece { color: Color::Black, kind }).code() == (Piece {
                color: Color::White,
                kind,
            }).code() + 8,
        color.flipped() != color,
        color == Color::White <==> color.ordinal() == 0,
        color == Color::Black <==> color.ordinal() == 1,
{
}

} // verus!
