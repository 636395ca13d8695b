//! Input features: which rows of the feature transformer a position switches on.

use crate::types::{file_of, Board, Color, Piece, PieceKind};
use vstd::prelude::*;

verus! {

/// The number of input features of the mirrored king-relative feature set.
pub const INPUT_DIMENSIONS: usize = 22528;

/// Features per king bucket of the king-relative feature sets.
pub const PS_NB: usize = 704;

/// Features per king square of the HalfKP feature set.
pub const KP_NB: usize = 641;

/// The king bucket of each square, seen from White. Squares that mirror each
/// other across the middle of the board share a bucket.
pub const WHITE_KING_BUCKET: [usize; 64] = [
    28, 29, 30, 31, 31, 30, 29, 28,
    24, 25, 26, 27, 27, 26, 25, 24,
    20, 21, 22, 23, 23, 22, 21, 20,
    16, 17, 18, 19, 19, 18, 17, 16,
    12, 13, 14, 15, 15, 14, 13, 12,
    8, 9, 10, 11, 11, 10, 9, 8,
    4, 5, 6, 7, 7, 6, 5, 4,
    0, 1, 2, 3, 3, 2, 1, 0,
];

/// The first feature of each piece within a king bucket, by perspective and
/// piece code. Both kings share one plane.
pub const PIECE_SQUARE_INDEX: [[usize; 16]; 2] = [
    [0, 0, 128, 256, 384, 512, 640, 0, 0, 64, 192, 320, 448, 576, 640, 0],
    [0, 64, 192, 320, 448, 576, 640, 0, 0, 0, 128, 256, 384, 512, 640, 0],
];

/// The first HalfKP feature of each piece other than a king, by perspective
/// and piece code.
pub const KP_PIECE_INDEX: [[usize; 16]; 2] = [
    [0, 1, 129, 257, 385, 513, 0, 0, 0, 65, 193, 321, 449, 577, 0, 0],
    [0, 65, 193, 321, 449, 577, 0, 0, 0, 1, 129, 257, 385, 513, 0, 0],
];

/// The square `sq` with its rank counted from the side of `perspective`.
pub open spec fn from_side(perspective: Color, sq: int) -> int {
    match perspective {
        Color::White => sq,
        Color::Black => sq - 8 * (sq / 8 % 8) + 8 * (7 - sq / 8 % 8),
    }
}

/// The square `sq` with its file mirrored.
pub open spec fn mirrored(sq: int) -> int {
    sq - sq % 8 + (7 - sq % 8)
}

/// The square `sq` as a perspective sees it whose king stands on
/// `king_square`: from that player's side, and mirrored if need be so that the
/// king is on the right half of the board.
pub open spec fn oriented(perspective: Color, king_square: u8, sq: int) -> int {
    let seen = from_side(perspective, sq);
    if king_square % 8 <= 3 {
        mirrored(seen)
    } else {
        seen
    }
}

/// The feature of a piece with the given code on `sq`, for a perspective whose
/// king stands on `king_square`.
pub open spec fn feature_index(perspective: Color, sq: int, code: int, king_square: u8) -> int {
    oriented(perspective, king_square, sq) + PIECE_SQUARE_INDEX[perspective.ordinal()][code] + PS_NB
        * WHITE_KING_BUCKET[from_side(perspective, king_square as int)]
}

proof fn lemma_square_masks(sq: u8)
    ensures
        sq ^ 7 == mirrored(sq as int),
        sq ^ 56 == from_side(Color::Black, sq as int),
        sq ^ 63 == mirrored(from_side(Color::Black, sq as int)),
        sq ^ 0 == sq,
        sq < 64 ==> sq ^ 56 < 64 && sq ^ 7 < 64 && sq ^ 63 < 64,
{
    assert(sq ^ 7 == sq - sq % 8 + (7 - sq % 8)) by (bit_vector);
    assert(sq ^ 56 == sq - 8 * (sq / 8 % 8) + 8 * (7 - sq / 8 % 8))
        by (bit_vector);
    assert(sq ^ 63 == (sq ^ 56) ^ 7) by (bit_vector);
    let flipped: u8 = sq ^ 56;
    assert(flipped ^ 7 == flipped - flipped % 8 + (7 - flipped % 8)) by (bit_vector);
    assert(sq ^ 0 == sq) by (bit_vector);
    assert(sq < 64 ==> sq ^ 56 < 64 && sq ^ 7 < 64 && sq ^ 63 < 64) by (bit_vector);
}

/// The mask that turns a square into the one that the perspective sees.
pub fn orient(perspective: Color, king_square: u8) -> (r: u8)
    ensures
        r == (if king_square % 8 <= 3 {
            7int
        } else {
            0
        }) + 56 * perspective.ordinal(),
{
    let base: u8 = if file_of(king_square) <= 3 {
        7
    } else {
        0
    };
    assert(7u8 ^ 56 == 63 && 0u8 ^ 56 == 56) by (bit_vector);
    match perspective {
        Color::White => base,
        Color::Black => base ^ 56,
    }
}

/// The first feature of the bucket that the king's square belongs to.
pub fn king_bucket(perspective: Color, king_square: u8) -> (r: usize)
    requires
        king_square < 64,
    ensures
        r == PS_NB * WHITE_KING_BUCKET[from_side(perspective, king_square as int)],
        r <= 31 * PS_NB,
{
    proof {
        lemma_square_masks(king_square);
    }
    let sq: usize = match perspective {
        Color::White => king_square as usize,
        Color::Black => (king_square ^ 56) as usize,
    };
    assert(WHITE_KING_BUCKET[sq as int] <= 31);
    WHITE_KING_BUCKET[sq] * PS_NB
}

/// The feature of a piece on `square`, for a perspective whose king stands on
/// `king_square`, in the mirrored king-relative feature set.
pub fn make_index(
    perspective: Color,
    square: u8,
    piece_sf_index: usize,
    king_square: u8,
) -> (r: usize)
    requires
        piece_sf_index < 16,
        king_square < 64,
    ensures
        r == feature_index(perspective, square as int, piece_sf_index as int, king_square),
        square < 64 ==> r < INPUT_DIMENSIONS,
{
    let o: u8 = orient(perspective, king_square);
    proof {
        lemma_square_masks(square);
        lemma_piece_square_bound(perspective, piece_sf_index as int);
    }
    (square ^ o) as usize + PIECE_SQUARE_INDEX[perspective.index()][piece_sf_index] + king_bucket(
        perspective,
        king_square,
    )
}

proof fn lemma_piece_square_bound(perspective: Color, code: int)
    requires
        0 <= code < 16,
    ensures
        PIECE_SQUARE_INDEX[perspective.ordinal()][code] <= 640,
        KP_PIECE_INDEX[perspective.ordinal()][code] <= 577,
{
}

/// Collects into `out` the feature of every piece on the board, in the board's
/// order, in the mirrored king-relative feature set.
pub fn active_indices(board: &impl Board, perspective: Color, out: &mut Vec<usize>)
    requires
        board.position().pieces.len() > 0 ==> board.position().king(perspective) < 64,
    ensures
        final(out)@ == board.position().pieces.map_values(
            |p: (u8, Piece)|
                feature_index(
                    perspective,
                    p.0 as int,
                    p.1.code(),
                    board.position().king(perspective),
                ) as usize,
        ),
        board.position().valid() ==> forall|i: int|
            0 <= i < final(out)@.len() ==> final(out)@[i] < INPUT_DIMENSIONS,
        final(out)@ == Arch::HalfKAv2Hm.rows(
            perspective,
            board.position().king(perspective),
            board.position().pieces,
        ),
{
    out.clear();
    let ksq: u8 = board.king_square(perspective);
    let pieces: Vec<(u8, Piece)> = board.for_each_piece();
    let ghost f = |p: (u8, Piece)|
        feature_index(
            perspective,
            p.0 as int,
            p.1.code(),
            board.position().king(perspective),
        ) as usize;
    let mut i: usize = 0;
    while i < pieces.len()
        invariant
            i <= pieces.len(),
            pieces.len() > 0 ==> ksq < 64,
            out@ == pieces@.take(i as int).map_values(f),
            out@ == Arch::HalfKAv2Hm.rows(perspective, ksq, pieces@.take(i as int)),
            pieces@ == board.position().pieces,
            board.position().valid() ==> forall|k: int|
                0 <= k < out@.len() ==> out@[k] < INPUT_DIMENSIONS,
            f == (|p: (u8, Piece)|
                feature_index(perspective, p.0 as int, p.1.code(), ksq) as usize),
        decreases pieces.len() - i,
    {
        let (square, piece) = pieces[i];
        out.push(make_index(perspective, square, piece.sf_index(), ksq));
        assert(pieces@.take(i + 1).drop_last() =~= pieces@.take(i as int));
        i = i + 1;
        assert(out@ =~= pieces@.take(i as int).map_values(f));
    }
    assert(pieces@.take(i as int) =~= pieces@);
}

/// The feature sets that a network file can be built for.
#[derive(Clone, Copy, PartialEq, Eq, Debug, Structural)]
pub enum Arch {
    /// Mirrored king-relative features together with attack features.
    Sfnnv10,
    /// Mirrored king-relative features.
    HalfKAv2Hm,
    /// King-relative features, one bucket per king square.
    HalfKAv2,
    /// Features of the pieces other than the kings, one bucket per king square.
    HalfKP,
}

impl Arch {
    /// The number of piece features.
    pub open spec fn dimensions(self) -> int {
        match self {
            Arch::Sfnnv10 | Arch::HalfKAv2Hm => 22528,
            Arch::HalfKAv2 => 45056,
            Arch::HalfKP => 41024,
        }
    }

    /// Whether a piece of this kind is a feature at all.
    pub open spec fn counts(self, kind: PieceKind) -> bool {
        self != Arch::HalfKP || kind != PieceKind::King
    }

    /// The feature of a piece with the given code on `sq`, for a perspective
    /// whose king stands on `king_square`.
    pub open spec fn feature(
        self,
        perspective: Color,
        sq: int,
        code: int,
        king_square: u8,
    ) -> int {
        match self {
            Arch::Sfnnv10 | Arch::HalfKAv2Hm => feature_index(perspective, sq, code, king_square),
            Arch::HalfKAv2 => from_side(perspective, sq)
                + PIECE_SQUARE_INDEX[perspective.ordinal()][code] + PS_NB * from_side(
                perspective,
                king_square as int,
            ),
            Arch::HalfKP => turned(perspective, sq) + KP_PIECE_INDEX[perspective.ordinal()][code]
                + KP_NB * turned(perspective, king_square as int),
        }
    }

    /// The features of the listed pieces, in order, without the pieces that
    /// are no feature.
    pub open spec fn rows(
        self,
        perspective: Color,
        king_square: u8,
        pieces: Seq<(u8, Piece)>,
    ) -> Seq<usize>
        decreases pieces.len(),
    {
        if pieces.len() == 0 {
            Seq::empty()
        } else {
            let before = self.rows(perspective, king_square, pieces.drop_last());
            let (sq, piece) = pieces.last();
            if self.counts(piece.kind) {
                before.push(
                    self.feature(perspective, sq as int, piece.code(), king_square) as usize,
                )
            } else {
                before
            }
        }
    }

    /// The number of piece features.
    pub fn input_dimensions(self) -> (r: usize)
        ensures
            r == self.dimensions(),
    {
        match self {
            Arch::Sfnnv10 | Arch::HalfKAv2Hm => INPUT_DIMENSIONS,
            Arch::HalfKAv2 => 64 * PS_NB,
            Arch::HalfKP => 64 * KP_NB,
        }
    }

    /// Whether the kings themselves are features.
    pub fn kings_are_features(self) -> (r: bool)
        ensures
            r == self.counts(PieceKind::King),
            forall|kind: PieceKind| self.counts(kind) == (r || kind != PieceKind::King),
    {
        match self {
            Arch::HalfKP => false,
            _ => true,
        }
    }

    /// The feature of a piece on `square`, for a perspective whose king stands
    /// on `king_square`.
    pub fn make_index(
        self,
        perspective: Color,
        square: u8,
        piece_sf_index: usize,
        king_square: u8,
    ) -> (r: usize)
        requires
            square < 64,
            piece_sf_index < 16,
            king_square < 64,
        ensures
            r == self.feature(perspective, square as int, piece_sf_index as int, king_square),
            r < self.dimensions(),
    {
        proof {
            lemma_square_masks(square);
            lemma_square_masks(king_square);
            lemma_piece_square_bound(perspective, piece_sf_index as int);
        }
        match self {
            Arch::Sfnnv10 | Arch::HalfKAv2Hm => make_index(
                perspective,
                square,
                piece_sf_index,
                king_square,
            ),
            Arch::HalfKAv2 => {
                let mask: u8 = match perspective {
                    Color::White => 0,
                    Color::Black => 56,
                };
                (square ^ mask) as usize
                    + PIECE_SQUARE_INDEX[perspective.index()][piece_sf_index] + (king_square ^ mask)
                    as usize * PS_NB
            },
            Arch::HalfKP => {
                let mask: u8 = match perspective {
                    Color::White => 0,
                    Color::Black => 63,
                };
                (square ^ mask) as usize + KP_PIECE_INDEX[perspective.index()][piece_sf_index] + (
                king_square ^ mask) as usize * KP_NB
            },
        }
    }

    /// Collects into `out` the features that the pieces on the board switch on
    /// for one perspective, in the board's order.
    pub fn active_indices(self, board: &impl Board, perspective: Color, out: &mut Vec<usize>)
        requires
            board.position().valid(),
        ensures
            final(out)@ == self.rows(
                perspective,
                board.position().king(perspective),
                board.position().pieces,
            ),
            forall|i: int| 0 <= i < final(out)@.len() ==> final(out)@[i] < self.dimensions(),
    {
        out.clear();
        let ksq: u8 = board.king_square(perspective);
        let pieces: Vec<(u8, Piece)> = board.for_each_piece();
        let kings: bool = self.kings_are_features();
        let mut i: usize = 0;
        while i < pieces.len()
            invariant
                i <= pieces.len(),
                ksq < 64,
                forall|k: int| 0 <= k < pieces@.len() ==> (#[trigger] pieces@[k]).0 < 64,
                forall|kind: PieceKind| self.counts(kind) == (kings || kind != PieceKind::King),
                out@ == self.rows(perspective, ksq, pieces@.take(i as int)),
                forall|k: int| 0 <= k < out@.len() ==> out@[k] < self.dimensions(),
            decreases pieces.len() - i,
        {
            let (square, piece) = pieces[i];
            assert(pieces@.take(i + 1).drop_last() =~= pieces@.take(i as int));
            assert(pieces@.take(i + 1).last() == pieces@[i as int]);
            if kings || piece.kind != PieceKind::King {
                let feature: usize = self.make_index(perspective, square, piece.sf_index(), ksq);
                out.push(feature);
            }
            i = i + 1;
        }
        assert(pieces@.take(i as int) =~= pieces@);
    }
}

/// Every piece on the board is a feature that the tables have a row for.
pub proof fn feature_in_range(arch: Arch, perspective: Color, sq: int, code: int, king_square: u8)
    requires
        0 <= sq < 64,
        0 <= code < 16,
        king_square < 64,
    ensures
        0 <= arch.feature(perspective, sq, code, king_square) < arch.dimensions(),
{
    lemma_piece_square_bound(perspective, code);
    lemma_turns(perspective, sq);
    lemma_turns(perspective, king_square as int);
    lemma_bucket_bound(from_side(perspective, king_square as int));
    let plane = PIECE_SQUARE_INDEX[perspective.ordinal()][code] as int;
    let kp_plane = KP_PIECE_INDEX[perspective.ordinal()][code] as int;
    let bucket = WHITE_KING_BUCKET[from_side(perspective, king_square as int)] as int;
    match arch {
        Arch::Sfnnv10 | Arch::HalfKAv2Hm => {
            assert(0 <= oriented(perspective, king_square, sq) < 64);
            assert(arch.feature(perspective, sq, code, king_square) == oriented(
                perspective,
                king_square,
                sq,
            ) + plane + 704 * bucket);
        },
        Arch::HalfKAv2 => {
            assert(arch.feature(perspective, sq, code, king_square) == from_side(perspective, sq)
                + plane + 704 * from_side(perspective, king_square as int));
        },
        Arch::HalfKP => {
            assert(arch.feature(perspective, sq, code, king_square) == turned(perspective, sq)
                + kp_plane + 641 * turned(perspective, king_square as int));
        },
    }
}

proof fn lemma_bucket_bound(sq: int)
    requires
        0 <= sq < 64,
    ensures
        0 <= WHITE_KING_BUCKET[sq] <= 31,
{
}

/// Two pieces on the board never share a feature, seen by the same player
/// whose king stays where it is, unless both of them are kings.
pub proof fn features_are_distinct(
    arch: Arch,
    perspective: Color,
    king_square: u8,
    sq: int,
    piece: Piece,
    other_sq: int,
    other: Piece,
)
    requires
        king_square < 64,
        0 <= sq < 64,
        0 <= other_sq < 64,
        arch.counts(piece.kind),
        arch.counts(other.kind),
        arch.feature(perspective, sq, piece.code(), king_square) == arch.feature(
            perspective,
            other_sq,
            other.code(),
            king_square,
        ),
    ensures
        sq == other_sq,
        piece == other || piece.kind == PieceKind::King && other.kind == PieceKind::King,
{
    features_of_kings_are_distinct(
        arch,
        perspective,
        king_square,
        sq,
        piece,
        king_square,
        other_sq,
        other,
    );
}

/// Whether a feature set does not tell two king squares apart, wherever the other
/// pieces stand: the mirrored ones see mirror images of each other as one.
pub open spec fn kings_look_alike(arch: Arch, king: int, other: int) -> bool {
    king == other || (arch == Arch::HalfKAv2Hm || arch == Arch::Sfnnv10) && other == mirrored(king)
}

/// Two pieces never share a feature, seen by the same player, whose king may
/// stand on different squares: a shared feature means that the king squares look
/// alike, that the pieces stand on the same square, mirrored if the king squares
/// are mirror images, and that they are the same piece or both of them kings.
pub proof fn features_of_kings_are_distinct(
    arch: Arch,
    perspective: Color,
    king_square: u8,
    sq: int,
    piece: Piece,
    other_king: u8,
    other_sq: int,
    other: Piece,
)
    requires
        king_square < 64,
        other_king < 64,
        0 <= sq < 64,
        0 <= other_sq < 64,
        arch.counts(piece.kind),
        arch.counts(other.kind),
        arch.feature(perspective, sq, piece.code(), king_square) == arch.feature(
            perspective,
            other_sq,
            other.code(),
            other_king,
        ),
    ensures
        kings_look_alike(arch, king_square as int, other_king as int),
        other_sq == if king_square == other_king {
            sq
        } else {
            mirrored(sq)
        },
        piece == other || piece.kind == PieceKind::King && other.kind == PieceKind::King,
{
    let size = bucket_size(arch);
    let x = place_in_bucket(arch, perspective, sq, piece, king_square);
    let y = place_in_bucket(arch, perspective, other_sq, other, other_king);
    let i = bucket_of(arch, perspective, king_square);
    let j = bucket_of(arch, perspective, other_king);
    lemma_place(arch, perspective, sq, piece, king_square);
    lemma_place(arch, perspective, other_sq, other, other_king);
    lemma_same_place(x, i, y, j, size);
    lemma_plane_and_square(arch, perspective, king_square, sq, piece, other_king, other_sq, other);
    match arch {
        Arch::Sfnnv10 | Arch::HalfKAv2Hm => lemma_oriented_apart(
            perspective,
            king_square,
            sq,
            other_king,
            other_sq,
        ),
        _ => {
            lemma_turns_apart(perspective, sq, other_sq);
            lemma_turns_apart(perspective, king_square as int, other_king as int);
        },
    }
}

/// The number of features of a king bucket.
spec fn bucket_size(arch: Arch) -> int {
    if arch == Arch::HalfKP {
        641
    } else {
        704
    }
}

/// The bucket of a king square.
spec fn bucket_of(arch: Arch, perspective: Color, king_square: u8) -> int {
    match arch {
        Arch::Sfnnv10 | Arch::HalfKAv2Hm => WHITE_KING_BUCKET[from_side(
            perspective,
            king_square as int,
        )] as int,
        Arch::HalfKAv2 => from_side(perspective, king_square as int),
        Arch::HalfKP => turned(perspective, king_square as int),
    }
}

/// The square as a feature set sees it.
spec fn square_seen(arch: Arch, perspective: Color, sq: int, king_square: u8) -> int {
    match arch {
        Arch::Sfnnv10 | Arch::HalfKAv2Hm => oriented(perspective, king_square, sq),
        Arch::HalfKAv2 => from_side(perspective, sq),
        Arch::HalfKP => turned(perspective, sq),
    }
}

/// The first place of a piece within a bucket.
spec fn plane_of(arch: Arch, perspective: Color, piece: Piece) -> int {
    if arch == Arch::HalfKP {
        KP_PIECE_INDEX[perspective.ordinal()][piece.code()] as int
    } else {
        PIECE_SQUARE_INDEX[perspective.ordinal()][piece.code()] as int
    }
}

/// The place of a piece on a square within a bucket.
spec fn place_in_bucket(
    arch: Arch,
    perspective: Color,
    sq: int,
    piece: Piece,
    king_square: u8,
) -> int {
    square_seen(arch, perspective, sq, king_square) + plane_of(arch, perspective, piece)
}

/// A feature is a place within a bucket.
proof fn lemma_place(arch: Arch, perspective: Color, sq: int, piece: Piece, king_square: u8)
    requires
        0 <= sq < 64,
    ensures
        0 <= square_seen(arch, perspective, sq, king_square) < 64,
        0 <= place_in_bucket(arch, perspective, sq, piece, king_square) < bucket_size(arch),
        arch.feature(perspective, sq, piece.code(), king_square) == place_in_bucket(
            arch,
            perspective,
            sq,
            piece,
            king_square,
        ) + bucket_size(arch) * bucket_of(arch, perspective, king_square),
{
    lemma_turns(perspective, sq);
    lemma_piece_square_bound(perspective, piece.code());
}

/// Equal places come from the same plane and the same square as it is seen.
proof fn lemma_plane_and_square(
    arch: Arch,
    perspective: Color,
    king_square: u8,
    sq: int,
    piece: Piece,
    other_king: u8,
    other_sq: int,
    other: Piece,
)
    requires
        0 <= sq < 64,
        0 <= other_sq < 64,
        arch.counts(piece.kind),
        arch.counts(other.kind),
        place_in_bucket(arch, perspective, sq, piece, king_square) == place_in_bucket(
            arch,
            perspective,
            other_sq,
            other,
            other_king,
        ),
    ensures
        square_seen(arch, perspective, sq, king_square) == square_seen(
            arch,
            perspective,
            other_sq,
            other_king,
        ),
        piece == other || piece.kind == PieceKind::King && other.kind == PieceKind::King,
{
    lemma_place(arch, perspective, sq, piece, king_square);
    lemma_place(arch, perspective, other_sq, other, other_king);
    lemma_planes_apart(perspective, piece, other);
}

/// Places within buckets of `size` are the same only in the same bucket.
proof fn lemma_same_place(x: int, i: int, y: int, j: int, size: int)
    requires
        0 <= x < size,
        0 <= y < size,
        x + size * i == y + size * j,
    ensures
        x == y,
        i == j,
{
    assert(x == y && i == j) by (nonlinear_arith)
        requires
            0 <= x < size,
            0 <= y < size,
            x + size * i == y + size * j,
    ;
}

/// What looks the same with kings in one bucket is the same or a mirror image.
proof fn lemma_oriented_apart(
    perspective: Color,
    king_square: u8,
    sq: int,
    other_king: u8,
    other_sq: int,
)
    requires
        king_square < 64,
        other_king < 64,
        0 <= sq < 64,
        0 <= other_sq < 64,
        WHITE_KING_BUCKET[from_side(perspective, king_square as int)]
            == WHITE_KING_BUCKET[from_side(perspective, other_king as int)],
    ensures
        other_king == king_square || other_king == mirrored(king_square as int),
        oriented(perspective, king_square, sq) == oriented(perspective, other_king, other_sq)
            ==> other_sq == if king_square == other_king {
            sq
        } else {
            mirrored(sq)
        },
{
    let (king, king2) = (king_square as int, other_king as int);
    lemma_turns(perspective, king);
    lemma_turns(perspective, king2);
    lemma_buckets_apart(from_side(perspective, king), from_side(perspective, king2));
    lemma_mirror(perspective, king);
    lemma_mirror(perspective, king2);
    lemma_mirror(perspective, sq);
    lemma_mirror(perspective, other_sq);
    lemma_turns(perspective, sq);
    lemma_turns(perspective, other_sq);
    lemma_turns_apart(perspective, sq, other_sq);
    lemma_turns_apart(perspective, mirrored(sq), other_sq);
    lemma_turns_apart(perspective, sq, mirrored(other_sq));
    assert(king2 == king || king2 == mirrored(king));
}

/// Squares of one king bucket are the same or mirror images.
proof fn lemma_buckets_apart(x: int, y: int)
    requires
        0 <= x < 64,
        0 <= y < 64,
        WHITE_KING_BUCKET[x] == WHITE_KING_BUCKET[y],
    ensures
        x / 8 == y / 8,
        x % 8 == y % 8 || x % 8 == 7 - y % 8,
{
    lemma_bucket(x);
    lemma_bucket(y);
}

proof fn lemma_bucket(x: int)
    requires
        0 <= x < 64,
    ensures
        WHITE_KING_BUCKET[x] == 28 - 4 * (x / 8) + if x % 8 < 4 {
            x % 8
        } else {
            7 - x % 8
        },
{
}

/// Mirroring a square before or after it is seen from a side is the same.
proof fn lemma_mirror(perspective: Color, sq: int)
    requires
        0 <= sq < 64,
    ensures
        from_side(perspective, mirrored(sq)) == mirrored(from_side(perspective, sq)),
        mirrored(mirrored(sq)) == sq,
        from_side(perspective, sq) % 8 == sq % 8,
        from_side(perspective, sq) / 8 == match perspective {
            Color::White => sq / 8,
            Color::Black => 7 - sq / 8,
        },
{
    let (f, r) = (sq % 8, sq / 8);
    assert(sq == 8 * r + f && r % 8 == r);
    let m = mirrored(sq);
    assert(m == 8 * r + (7 - f));
    assert(m % 8 == 7 - f && m / 8 == r);
}

/// Different squares stay different however the board is turned.
proof fn lemma_turns_apart(perspective: Color, sq: int, other: int)
    requires
        0 <= sq < 64,
        0 <= other < 64,
    ensures
        from_side(perspective, sq) == from_side(perspective, other) ==> sq == other,
        mirrored(from_side(perspective, sq)) == mirrored(from_side(perspective, other)) ==> sq
            == other,
        turned(perspective, sq) == turned(perspective, other) ==> sq == other,
{
    let (f, r) = (sq % 8, sq / 8);
    let (g, q) = (other % 8, other / 8);
    assert(sq == 8 * r + f && r % 8 == r);
    assert(other == 8 * q + g && q % 8 == q);
    let (x, y) = (from_side(perspective, sq), from_side(perspective, other));
    assert(x % 8 == f && y % 8 == g);
}

/// The planes of different pieces do not overlap, but for the kings.
proof fn lemma_planes_apart(perspective: Color, piece: Piece, other: Piece)
    ensures
        ({
            let a = PIECE_SQUARE_INDEX[perspective.ordinal()][piece.code()] as int;
            let b = PIECE_SQUARE_INDEX[perspective.ordinal()][other.code()] as int;
            -64 < a - b < 64 ==> a == b && (piece == other || piece.kind == PieceKind::King
                && other.kind == PieceKind::King)
        }),
        ({
            let a = KP_PIECE_INDEX[perspective.ordinal()][piece.code()] as int;
            let b = KP_PIECE_INDEX[perspective.ordinal()][other.code()] as int;
            piece.kind != PieceKind::King && other.kind != PieceKind::King && -64 < a - b < 64
                ==> a == b && piece == other
        }),
{
}

/// However a board is turned, a square stays on it.
proof fn lemma_turns(perspective: Color, sq: int)
    requires
        0 <= sq < 64,
    ensures
        0 <= from_side(perspective, sq) < 64,
        0 <= mirrored(sq) < 64,
        0 <= mirrored(from_side(perspective, sq)) < 64,
        0 <= turned(perspective, sq) < 64,
{
    let (f, r) = (sq % 8, sq / 8);
    assert(sq == 8 * r + f && r % 8 == r);
    let x = from_side(perspective, sq);
    assert(0 <= x < 64);
    assert(x - x % 8 <= 56 && x - x % 8 >= 0);
    assert(sq - sq % 8 <= 56 && sq - sq % 8 >= 0);
}

/// The square `sq` on a board that is turned round for Black.
pub open spec fn turned(perspective: Color, sq: int) -> int {
    match perspective {
        Color::White => sq,
        Color::Black => mirrored(from_side(Color::Black, sq)),
    }
}

} // verus!
