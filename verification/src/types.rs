//! Colours, pieces, squares and the board interface.
//!
//! Squares are numbered `0..64` with `a1 = 0`, `b1 = 1`, ..., `h8 = 63`.

use vstd::prelude::*;

verus! {

/// The two players, in the order in which tables are indexed.
#[derive(Clone, Copy, PartialEq, Eq, Debug, Structural)]
pub enum Color {
    White,
    Black,
}

impl Color {
    /// The other player.
    pub open spec fn flipped(self) -> Color {
        match self {
            Color::White => Color::Black,
            Color::Black => Color::White,
        }
    }

    /// 0 for White, 1 for Black.
    pub open spec fn ordinal(self) -> int {
        match self {
            Color::White => 0,
            Color::Black => 1,
        }
    }

    /// The other player.
    pub fn flip(self) -> (r: Color)
        ensures
            r == self.flipped(),
    {
        match self {
            Color::White => Color::Black,
            Color::Black => Color::White,
        }
    }

    /// The position of this colour in a table with one entry per player.
    pub fn index(self) -> (r: usize)
        ensures
            r == self.ordinal(),
    {
        match self {
            Color::White => 0,
            Color::Black => 1,
        }
    }
}

/// The six kinds of piece.
#[derive(Clone, Copy, PartialEq, Eq, Debug, Structural)]
pub enum PieceKind {
    Pawn,
    Knight,
    Bishop,
    Rook,
    Queen,
    King,
}

impl PieceKind {
    /// 1 for a pawn up to 6 for a king.
    pub open spec fn code(self) -> int {
        match self {
            PieceKind::Pawn => 1,
            PieceKind::Knight => 2,
            PieceKind::Bishop => 3,
            PieceKind::Rook => 4,
            PieceKind::Queen => 5,
            PieceKind::King => 6,
        }
    }
}

/// A piece of one of the players.
#[derive(Clone, Copy, PartialEq, Eq, Debug, Structural)]
pub struct Piece {
    pub color: Color,
    pub kind: PieceKind,
}

impl Piece {
    /// The number under which the feature tables list this piece: the kind's
    /// code, with 8 added for Black.
    pub open spec fn code(self) -> int {
        self.kind.code() + 8 * self.color.ordinal()
    }

    /// The same kind of piece owned by the other player.
    pub open spec fn recolored(self) -> Piece {
        Piece { color: self.color.flipped(), kind: self.kind }
    }

    pub fn new(color: Color, kind: PieceKind) -> (r: Self)
        ensures
            r == (Piece { color, kind }),
    {
        Self { color, kind }
    }

    /// The number under which the feature tables list this piece.
    pub fn sf_index(self) -> (r: usize)
        ensures
            r == self.code(),
    {
        let base: usize = match self.kind {
            PieceKind::Pawn => 1,
            PieceKind::Knight => 2,
            PieceKind::Bishop => 3,
            PieceKind::Rook => 4,
            PieceKind::Queen => 5,
            PieceKind::King => 6,
        };
        match self.color {
            Color::White => base,
            Color::Black => base + 8,
        }
    }
}

/// Changing sides twice leads back.
pub proof fn flipping_twice(color: Color)
    ensures
        color.flipped() != color,
        color.flipped().flipped() == color,
{
}

/// Different pieces have different codes, and every code fits the tables.
pub proof fn codes_are_distinct(piece: Piece, other: Piece)
    ensures
        piece.code() == other.code() ==> piece == other,
        1 <= piece.code() <= 14,
        piece.code() != 7 && piece.code() != 8,
{
}

/// The file of a square, 0 for the a-file up to 7 for the h-file.
pub fn file_of(square: u8) -> (r: u8)
    ensures
        r == square % 8,
{
    assert(square & 7 == square % 8) by (bit_vector);
    square & 7
}

/// What a board says about the position on it: the pieces in the order in
/// which the board lists them, the square of each king, and whose turn it is.
pub struct Position {
    pub pieces: Seq<(u8, Piece)>,
    pub white_king: u8,
    pub black_king: u8,
    pub stm: Color,
}

impl Position {
    /// The king square that the board reports for `color`.
    pub open spec fn king(self, color: Color) -> u8 {
        match color {
            Color::White => self.white_king,
            Color::Black => self.black_king,
        }
    }

    /// Every reported square is on the board.
    pub open spec fn valid(self) -> bool {
        &&& self.white_king < 64
        &&& self.black_king < 64
        &&& self.on_board()
    }

    /// Every piece stands on a square of the board.
    pub open spec fn on_board(self) -> bool {
        forall|i: int| 0 <= i < self.pieces.len() ==> (#[trigger] self.pieces[i]).0 < 64
    }

    /// No square is listed twice.
    pub open spec fn distinct(self) -> bool {
        distinct_squares(self.pieces)
    }

    /// The piece on `sq`.
    pub open spec fn at(self, sq: int) -> Option<Piece> {
        piece_at(self.pieces, sq)
    }
}

/// No square occurs twice in `pieces`.
pub open spec fn distinct_squares(pieces: Seq<(u8, Piece)>) -> bool {
    forall|i: int, j: int|
        0 <= i < j < pieces.len() ==> (#[trigger] pieces[i]).0 != (#[trigger] pieces[j]).0
}

/// The piece that `pieces` puts on `sq`. Of several entries for one square the
/// last one counts.
pub open spec fn piece_at(pieces: Seq<(u8, Piece)>, sq: int) -> Option<Piece>
    decreases pieces.len(),
{
    if pieces.len() == 0 {
        None
    } else if pieces.last().0 == sq {
        Some(pieces.last().1)
    } else {
        piece_at(pieces.drop_last(), sq)
    }
}

/// A chess position that a network can evaluate.
///
/// Implement it on your own position type to feed positions to a network.
pub trait Board {
    /// The position on the board, which the methods report. A board that proofs
    /// speak of defines it; one that only runs can leave it out.
    open spec fn position(&self) -> Position {
        arbitrary()
    }

    /// The player to move.
    fn side_to_move(&self) -> (r: Color)
        ensures
            r == self.position().stm,
    ;

    /// The square of the king of `color`.
    fn king_square(&self, color: Color) -> (r: u8)
        ensures
            r == self.position().king(color),
    ;

    /// All pieces on the board, kings included, each with its square.
    fn for_each_piece(&self) -> (r: Vec<(u8, Piece)>)
        ensures
            r@ == self.position().pieces,
    ;
}

} // verus!
