//! Attack features: which piece attacks which other piece.

use crate::feature::{from_side, mirrored};
use crate::types::{piece_at, Board, Color, Piece};
use vstd::prelude::*;

verus! {

/// The number of attack features.
pub const THREAT_DIMENSIONS: usize = 79856;

/// The index of an attack that is no feature.
pub const EXCLUDED: u32 = 79856;

/// For each kind of piece, the number of attacks on an empty board that start
/// from a square below the given one. The last entry counts them all.
pub const FIRST_ATTACK: [[u16; 65]; 6] = [
    [
        0, 0, 0, 0, 0, 0, 0, 0,
        0, 1, 3, 5, 7, 9, 11, 13,
        14, 15, 17, 19, 21, 23, 25, 27,
        28, 29, 31, 33, 35, 37, 39, 41,
        42, 43, 45, 47, 49, 51, 53, 55,
        56, 57, 59, 61, 63, 65, 67, 69,
        70, 71, 73, 75, 77, 79, 81, 83,
        84, 84, 84, 84, 84, 84, 84, 84,
        84,
    ],
    [
        0, 2, 5, 9, 13, 17, 21, 24,
        26, 29, 33, 39, 45, 51, 57, 61,
        64, 68, 74, 82, 90, 98, 106, 112,
        116, 120, 126, 134, 142, 150, 158, 164,
        168, 172, 178, 186, 194, 202, 210, 216,
        220, 224, 230, 238, 246, 254, 262, 268,
        272, 275, 279, 285, 291, 297, 303, 307,
        310, 312, 315, 319, 323, 327, 331, 334,
        336,
    ],
    [
        0, 7, 14, 21, 28, 35, 42, 49,
        56, 63, 72, 81, 90, 99, 108, 117,
        124, 131, 140, 151, 162, 173, 184, 193,
        200, 207, 216, 227, 240, 253, 264, 273,
        280, 287, 296, 307, 320, 333, 344, 353,
        360, 367, 376, 387, 398, 409, 420, 429,
        436, 443, 452, 461, 470, 479, 488, 497,
        504, 511, 518, 525, 532, 539, 546, 553,
        560,
    ],
    [
        0, 14, 28, 42, 56, 70, 84, 98,
        112, 126, 140, 154, 168, 182, 196, 210,
        224, 238, 252, 266, 280, 294, 308, 322,
        336, 350, 364, 378, 392, 406, 420, 434,
        448, 462, 476, 490, 504, 518, 532, 546,
        560, 574, 588, 602, 616, 630, 644, 658,
        672, 686, 700, 714, 728, 742, 756, 770,
        784, 798, 812, 826, 840, 854, 868, 882,
        896,
    ],
    [
        0, 21, 42, 63, 84, 105, 126, 147,
        168, 189, 212, 235, 258, 281, 304, 327,
        348, 369, 392, 417, 442, 467, 492, 515,
        536, 557, 580, 605, 632, 659, 684, 707,
        728, 749, 772, 797, 824, 851, 876, 899,
        920, 941, 964, 989, 1014, 1039, 1064, 1087,
        1108, 1129, 1152, 1175, 1198, 1221, 1244, 1267,
        1288, 1309, 1330, 1351, 1372, 1393, 1414, 1435,
        1456,
    ],
    [
        0, 3, 8, 13, 18, 23, 28, 33,
        36, 41, 49, 57, 65, 73, 81, 89,
        94, 99, 107, 115, 123, 131, 139, 147,
        152, 157, 165, 173, 181, 189, 197, 205,
        210, 215, 223, 231, 239, 247, 255, 263,
        268, 273, 281, 289, 297, 305, 313, 321,
        326, 331, 339, 347, 355, 363, 371, 379,
        384, 387, 392, 397, 402, 407, 412, 417,
        420,
    ],
];

/// The distance of two coordinates.
pub open spec fn gap(x: int, y: int) -> int {
    if x >= y {
        x - y
    } else {
        y - x
    }
}

/// Whether `code` is the code of a piece.
pub open spec fn is_piece(code: int) -> bool {
    1 <= code <= 6 || 9 <= code <= 14
}

/// Whether a piece with the given code attacks file `tf` of rank `tr` from file
/// `f` of rank `r` on an empty board. A pawn attacks from the six ranks that a
/// pawn can stand on.
pub open spec fn attacks(code: int, f: int, r: int, tf: int, tr: int) -> bool {
    let df = gap(f, tf);
    let dr = gap(r, tr);
    let kind = code % 8;
    if kind == 1 {
        &&& df == 1
        &&& tr - r == if code < 8 {
            1int
        } else {
            -1
        }
        &&& 1 <= r <= 6
    } else if kind == 2 {
        df == 1 && dr == 2 || df == 2 && dr == 1
    } else if kind == 3 {
        df == dr && df != 0
    } else if kind == 4 {
        (df == 0) != (dr == 0)
    } else if kind == 5 {
        df == dr && df != 0 || (df == 0) != (dr == 0)
    } else {
        kind == 6 && df <= 1 && dr <= 1 && df + dr != 0
    }
}

/// Whether a piece with the given code attacks `to` from `from` on an empty
/// board.
pub open spec fn reaches(code: int, from: int, to: int) -> bool {
    attacks(code, from % 8, from / 8, to % 8, to / 8)
}

/// The number of squares below `to` that the piece attacks from `from`.
pub open spec fn attacks_below(code: int, from: int, to: nat) -> int
    decreases to,
{
    if to == 0 {
        0
    } else {
        attacks_below(code, from, (to - 1) as nat) + if reaches(code, from, to - 1) {
            1int
        } else {
            0
        }
    }
}

/// The number of attacks of the piece that start from a square below `from`.
pub open spec fn first_attack(code: int, from: nat) -> int
    decreases from,
{
    if from == 0 {
        0
    } else {
        first_attack(code, (from - 1) as nat) + attacks_below(code, from - 1, 64)
    }
}

/// How many of the files at distance `d` from file `f` are on the board.
spec fn near(f: int, d: int) -> int {
    (if f >= d {
        1int
    } else {
        0
    }) + (if f + d < 8 {
        1int
    } else {
        0
    })
}

/// The number of squares of rank `row` that the piece attacks from file `f` of
/// rank `r`.
spec fn row_attacks(code: int, f: int, r: int, row: int) -> int {
    let d = gap(r, row);
    let kind = code % 8;
    if kind == 1 {
        if row - r == (if code < 8 {
            1int
        } else {
            -1
        }) && 1 <= r <= 6 {
            near(f, 1)
        } else {
            0
        }
    } else if kind == 2 {
        if d == 1 {
            near(f, 2)
        } else if d == 2 {
            near(f, 1)
        } else {
            0
        }
    } else if kind == 3 {
        if d == 0 {
            0
        } else {
            near(f, d)
        }
    } else if kind == 4 {
        if d == 0 {
            7
        } else {
            1
        }
    } else if kind == 5 {
        if d == 0 {
            7
        } else {
            1 + near(f, d)
        }
    } else {
        if d == 0 {
            near(f, 1)
        } else if d == 1 {
            1 + near(f, 1)
        } else {
            0
        }
    }
}

/// 1 for an attack, 0 otherwise.
spec fn hit(code: int, f: int, r: int, tf: int, tr: int) -> int {
    if attacks(code, f, r, tf, tr) {
        1
    } else {
        0
    }
}

proof fn lemma_row_hits(code: int, f: int, r: int, row: int)
    requires
        is_piece(code),
        0 <= f < 8,
        0 <= r < 8,
        0 <= row < 8,
    ensures
        hit(code, f, r, 0, row) + hit(code, f, r, 1, row) + hit(code, f, r, 2, row) + hit(
            code,
            f,
            r,
            3,
            row,
        ) + hit(code, f, r, 4, row) + hit(code, f, r, 5, row) + hit(code, f, r, 6, row) + hit(
            code,
            f,
            r,
            7,
            row,
        ) == row_attacks(code, f, r, row),
{
    assert(f == 0 || f == 1 || f == 2 || f == 3 || f == 4 || f == 5 || f == 6 || f == 7);
    let d = gap(r, row);
    assert(d == 0 || d == 1 || d == 2 || d == 3 || d == 4 || d == 5 || d == 6 || d == 7);
}

proof fn lemma_row(code: int, from: int, row: nat)
    requires
        is_piece(code),
        0 <= from < 64,
        row < 8,
    ensures
        attacks_below(code, from, 8 * row + 8) == attacks_below(code, from, 8 * row) + row_attacks(
            code,
            from % 8,
            from / 8,
            row as int,
        ),
{
    lemma_row_hits(code, from % 8, from / 8, row as int);
    assert forall|i: int| 0 <= i < 8 implies attacks_below(code, from, (8 * row + i + 1) as nat)
        == attacks_below(code, from, (8 * row + i) as nat) + #[trigger] hit(
        code,
        from % 8,
        from / 8,
        i,
        row as int,
    ) by {
        assert((8 * row + i) % 8 == i && (8 * row + i) / 8 == row);
    }
}

/// `m * n` for the counts that `near` gives.
spec fn pairs(m: int, n: int) -> int {
    if m == 0 {
        0
    } else if m == 1 {
        n
    } else {
        2 * n
    }
}

/// The distance to the nearest edge of the board.
spec fn edge(f: int, r: int) -> int {
    let x = if f <= 3 {
        f
    } else {
        7 - f
    };
    let y = if r <= 3 {
        r
    } else {
        7 - r
    };
    if x <= y {
        x
    } else {
        y
    }
}

/// The number of squares that a piece of the kind attacks from file `f` of rank
/// `r`.
spec fn degree(kind: int, f: int, r: int) -> int {
    if kind == 1 {
        if 1 <= r <= 6 {
            near(f, 1)
        } else {
            0
        }
    } else if kind == 2 {
        pairs(near(r, 1), near(f, 2)) + pairs(near(r, 2), near(f, 1))
    } else if kind == 3 {
        7 + 2 * edge(f, r)
    } else if kind == 4 {
        14
    } else if kind == 5 {
        21 + 2 * edge(f, r)
    } else {
        near(f, 1) + pairs(near(r, 1), near(f, 1) + 1)
    }
}

/// The number of squares that the piece attacks, rank by rank.
spec fn row_sum(code: int, f: int, r: int) -> int {
    row_attacks(code, f, r, 0) + row_attacks(code, f, r, 1) + row_attacks(code, f, r, 2)
        + row_attacks(code, f, r, 3) + row_attacks(code, f, r, 4) + row_attacks(code, f, r, 5)
        + row_attacks(code, f, r, 6) + row_attacks(code, f, r, 7)
}

proof fn lemma_pawn_rows(code: int, f: int, r: int)
    requires
        is_piece(code),
        code % 8 == 1,
        0 <= f < 8,
        0 <= r < 8,
    ensures
        row_sum(code, f, r) == degree(1, f, r),
{
}

proof fn lemma_knight_rows(code: int, f: int, r: int)
    requires
        is_piece(code),
        code % 8 == 2,
        0 <= f < 8,
        0 <= r < 8,
    ensures
        row_sum(code, f, r) == degree(2, f, r),
{
}

proof fn lemma_bishop_rows(code: int, f: int, r: int)
    requires
        is_piece(code),
        code % 8 == 3,
        0 <= f < 8,
        0 <= r < 8,
    ensures
        row_sum(code, f, r) == degree(3, f, r),
{
}

proof fn lemma_rook_rows(code: int, f: int, r: int)
    requires
        is_piece(code),
        code % 8 == 4,
        0 <= f < 8,
        0 <= r < 8,
    ensures
        row_sum(code, f, r) == degree(4, f, r),
{
}

proof fn lemma_queen_rows(code: int, f: int, r: int)
    requires
        is_piece(code),
        code % 8 == 5,
        0 <= f < 8,
        0 <= r < 8,
    ensures
        row_sum(code, f, r) == degree(5, f, r),
{
}

proof fn lemma_king_rows(code: int, f: int, r: int)
    requires
        is_piece(code),
        code % 8 == 6,
        0 <= f < 8,
        0 <= r < 8,
    ensures
        row_sum(code, f, r) == degree(6, f, r),
{
}

proof fn lemma_table(kind: int, from: int)
    requires
        1 <= kind <= 6,
        0 <= from < 64,
    ensures
        FIRST_ATTACK[kind - 1][from + 1] - FIRST_ATTACK[kind - 1][from] == degree(
            kind,
            from % 8,
            from / 8,
        ),
{
    if kind == 1 {
    } else if kind == 2 {
    } else if kind == 3 {
    } else if kind == 4 {
    } else if kind == 5 {
    } else {
        assert(kind == 6);
    }
}

proof fn lemma_degree(code: int, from: int)
    requires
        is_piece(code),
        0 <= from < 64,
    ensures
        attacks_below(code, from, 64) == degree(code % 8, from % 8, from / 8),
{
    lemma_row(code, from, 0);
    lemma_row(code, from, 1);
    lemma_row(code, from, 2);
    lemma_row(code, from, 3);
    lemma_row(code, from, 4);
    lemma_row(code, from, 5);
    lemma_row(code, from, 6);
    lemma_row(code, from, 7);
    let (f, r) = (from % 8, from / 8);
    if code % 8 == 1 {
        lemma_pawn_rows(code, f, r);
    } else if code % 8 == 2 {
        lemma_knight_rows(code, f, r);
    } else if code % 8 == 3 {
        lemma_bishop_rows(code, f, r);
    } else if code % 8 == 4 {
        lemma_rook_rows(code, f, r);
    } else if code % 8 == 5 {
        lemma_queen_rows(code, f, r);
    } else {
        assert(code % 8 == 6);
        lemma_king_rows(code, f, r);
    }
}

proof fn lemma_first_attack(code: int, from: nat)
    requires
        is_piece(code),
        from <= 64,
    ensures
        first_attack(code, from) == FIRST_ATTACK[code % 8 - 1][from as int],
    decreases from,
{
    if from > 0 {
        lemma_first_attack(code, (from - 1) as nat);
        lemma_degree(code, from - 1);
        lemma_table(code % 8, from - 1);
    }
}

/// The number of attacks of a kind of piece from all squares of an empty board.
pub proof fn attack_totals(code: int)
    requires
        is_piece(code),
    ensures
        code % 8 == 1 ==> first_attack(code, 64) == 84,
        code % 8 == 2 ==> first_attack(code, 64) == 336,
        code % 8 == 3 ==> first_attack(code, 64) == 560,
        code % 8 == 4 ==> first_attack(code, 64) == 896,
        code % 8 == 5 ==> first_attack(code, 64) == 1456,
        code % 8 == 6 ==> first_attack(code, 64) == 420,
{
    lemma_first_attack(code, 64);
}

/// Which kinds of piece are counted as targets of an attack, by the kinds of
/// attacker and target: the place of the target among the counted ones, or -1.
pub const TARGET_SLOT: [[i32; 6]; 6] = [
    [0, 1, -1, 2, -1, -1],
    [0, 1, 2, 3, 4, 5],
    [0, 1, 2, 3, -1, 4],
    [0, 1, 2, 3, -1, 4],
    [0, 1, 2, 3, 4, 5],
    [0, 1, 2, 3, -1, -1],
];

/// How many kinds of target are counted for each kind of attacker.
pub const TARGET_KINDS: [i32; 6] = [3, 6, 5, 5, 6, 4];

/// The first feature of each kind of attacker on the perspective's own side.
pub const FIRST_FEATURE: [i32; 6] = [0, 504, 4536, 10136, 19096, 36568];

/// The number of features of the attackers of one side.
pub const SIDE_FEATURES: i32 = 39928;

/// The square `sq` as a perspective sees it whose king stands on
/// `king_square`: from that player's side, and mirrored if need be so that the
/// king is on the left half of the board.
pub open spec fn seen_square(perspective: Color, king_square: u8, sq: int) -> int {
    let seen = from_side(perspective, sq);
    if king_square % 8 > 3 {
        mirrored(seen)
    } else {
        seen
    }
}

/// The code of a piece as a perspective sees it: its own pieces count as White.
pub open spec fn seen_code(perspective: Color, code: int) -> int {
    match perspective {
        Color::White => code,
        Color::Black => if code < 8 {
            code + 8
        } else {
            code - 8
        },
    }
}

/// Whether an attack of `a` on `b` is counted only from the higher square to
/// the lower one: the two pieces attack each other.
pub open spec fn counted_once(a: int, b: int) -> bool {
    a % 8 == b % 8 && (a != b || a % 8 != 1)
}

/// The place of the target `b` among the targets of `a`: the targets on the
/// perspective's own side come first.
pub open spec fn target_of(a: int, b: int) -> int {
    TARGET_SLOT[a % 8 - 1][b % 8 - 1] + if b < 8 {
        0
    } else {
        TARGET_KINDS[a % 8 - 1] as int
    }
}

/// The first feature of attacks of `a` on `b`.
pub open spec fn first_feature(a: int, b: int) -> int {
    FIRST_FEATURE[a % 8 - 1] + (if a < 8 {
        0
    } else {
        SIDE_FEATURES as int
    }) + target_of(a, b) * first_attack(a, 64)
}

/// Whether attacks of `a` on `b` are features.
pub open spec fn is_counted(a: int, b: int) -> bool {
    TARGET_SLOT[a % 8 - 1][b % 8 - 1] >= 0
}

/// The feature of an attack, with squares and codes as the perspective sees
/// them: attacks are numbered by attacker, target, and the squares in order.
pub open spec fn seen_feature(a: int, from: int, to: int, b: int) -> int {
    if !is_counted(a, b) || counted_once(a, b) && from < to {
        EXCLUDED as int
    } else {
        first_feature(a, b) + first_attack(a, from as nat) + attacks_below(a, from, to as nat)
    }
}

/// The feature of an attack of `attacker` on `from` against `attacked` on `to`.
pub open spec fn threat_feature(
    perspective: Color,
    attacker: int,
    from: int,
    to: int,
    attacked: int,
    king_square: u8,
) -> int {
    seen_feature(
        seen_code(perspective, attacker),
        seen_square(perspective, king_square, from),
        seen_square(perspective, king_square, to),
        seen_code(perspective, attacked),
    )
}

proof fn lemma_attacks_below_monotone(code: int, from: int, m: nat, n: nat)
    requires
        m <= n,
    ensures
        0 <= attacks_below(code, from, m) <= attacks_below(code, from, n),
    decreases n,
{
    if m < n {
        lemma_attacks_below_monotone(code, from, m, (n - 1) as nat);
    } else if m > 0 {
        lemma_attacks_below_monotone(code, from, (m - 1) as nat, (m - 1) as nat);
    }
}

proof fn lemma_first_attack_monotone(code: int, m: nat, n: nat)
    requires
        m <= n,
    ensures
        0 <= first_attack(code, m) <= first_attack(code, n),
    decreases n,
{
    if m < n {
        lemma_first_attack_monotone(code, m, (n - 1) as nat);
        lemma_attacks_below_monotone(code, n - 1, 0, 64);
    } else if m > 0 {
        lemma_first_attack_monotone(code, (m - 1) as nat, (m - 1) as nat);
        lemma_attacks_below_monotone(code, m - 1, 0, 64);
    }
}

/// The attacks of a piece are numbered below their total.
proof fn lemma_attack_rank(code: int, from: int, to: int)
    requires
        is_piece(code),
        0 <= from < 64,
        0 <= to < 64,
        reaches(code, from, to),
    ensures
        0 <= first_attack(code, from as nat),
        0 <= attacks_below(code, from, to as nat),
        first_attack(code, from as nat) + attacks_below(code, from, to as nat) < first_attack(
            code,
            64,
        ),
{
    lemma_attacks_below_monotone(code, from, (to + 1) as nat, 64);
    lemma_attacks_below_monotone(code, from, 0, to as nat);
    lemma_first_attack_monotone(code, (from + 1) as nat, 64);
    lemma_first_attack_monotone(code, 0, from as nat);
}

/// Where the features of one attacker and target lie.
proof fn lemma_group_bound(a: int, b: int)
    requires
        is_piece(a),
        is_piece(b),
        is_counted(a, b),
    ensures
        0 <= target_of(a, b) < 12,
        0 <= target_of(a, b) * first_attack(a, 64) <= first_feature(a, b),
        first_feature(a, b) + first_attack(a, 64) <= THREAT_DIMENSIONS,
{
    lemma_first_attack(a, 64);
    let total = first_attack(a, 64);
    let k = b % 8;
    assert(k == 1 || k == 2 || k == 3 || k == 4 || k == 5 || k == 6);
    if a % 8 == 1 {
        assert(target_of(a, b) * total == 84 * target_of(a, b)) by (nonlinear_arith)
            requires
                total == 84,
        ;
    } else if a % 8 == 2 {
        assert(target_of(a, b) * total == 336 * target_of(a, b)) by (nonlinear_arith)
            requires
                total == 336,
        ;
    } else if a % 8 == 3 {
        assert(target_of(a, b) * total == 560 * target_of(a, b)) by (nonlinear_arith)
            requires
                total == 560,
        ;
    } else if a % 8 == 4 {
        assert(target_of(a, b) * total == 896 * target_of(a, b)) by (nonlinear_arith)
            requires
                total == 896,
        ;
    } else if a % 8 == 5 {
        assert(target_of(a, b) * total == 1456 * target_of(a, b)) by (nonlinear_arith)
            requires
                total == 1456,
        ;
    } else {
        assert(a % 8 == 6);
        assert(target_of(a, b) * total == 420 * target_of(a, b)) by (nonlinear_arith)
            requires
                total == 420,
        ;
    }
}

/// The feature of an attack lies below the number of features exactly where the
/// attack is counted.
pub proof fn seen_feature_bound(a: int, from: int, to: int, b: int)
    requires
        is_piece(a),
        is_piece(b),
        0 <= from < 64,
        0 <= to < 64,
        reaches(a, from, to),
    ensures
        0 <= seen_feature(a, from, to, b) <= EXCLUDED,
        seen_feature(a, from, to, b) == EXCLUDED <==> !is_counted(a, b) || counted_once(a, b)
            && from < to,
{
    lemma_attack_rank(a, from, to);
    if is_counted(a, b) {
        lemma_group_bound(a, b);
    }
}

/// The first feature of an attacker, and the one after its last.
spec fn block_of(a: int) -> (int, int) {
    let side = if a < 8 {
        0
    } else {
        SIDE_FEATURES as int
    };
    let start = side + FIRST_FEATURE[a % 8 - 1];
    let end = side + if a % 8 == 6 {
        SIDE_FEATURES
    } else {
        FIRST_FEATURE[a % 8]
    };
    (start, end)
}

/// The features of an attacker lie within its block.
proof fn lemma_within_block(a: int, from: int, to: int, b: int)
    requires
        is_piece(a),
        is_piece(b),
        0 <= from < 64,
        0 <= to < 64,
        reaches(a, from, to),
        is_counted(a, b),
    ensures
        ({
            let x = first_feature(a, b) + first_attack(a, from as nat) + attacks_below(
                a,
                from,
                to as nat,
            );
            block_of(a).0 <= x < block_of(a).1
        }),
{
    lemma_attack_rank(a, from, to);
    lemma_group_bound(a, b);
    lemma_first_attack(a, 64);
    let total = first_attack(a, 64);
    let target = target_of(a, b);
    let k = b % 8;
    assert(k == 1 || k == 2 || k == 3 || k == 4 || k == 5 || k == 6);
    assert(target + 1 <= 2 * TARGET_KINDS[a % 8 - 1]);
    assert((target + 1) * total <= 2 * TARGET_KINDS[a % 8 - 1] * total) by (nonlinear_arith)
        requires
            target + 1 <= 2 * TARGET_KINDS[a % 8 - 1],
            total >= 0,
    ;
    assert((target + 1) * total == target * total + total) by (nonlinear_arith);
    lemma_block_size(a);
}

proof fn lemma_block_size(a: int)
    requires
        is_piece(a),
    ensures
        block_of(a).0 + 2 * TARGET_KINDS[a % 8 - 1] * first_attack(a, 64) == block_of(a).1,
{
    lemma_first_attack(a, 64);
    let k = a % 8;
    assert(k == 1 || k == 2 || k == 3 || k == 4 || k == 5 || k == 6);
}

/// The blocks of different attackers do not overlap.
proof fn lemma_blocks_apart(a: int, b: int, x: int)
    requires
        is_piece(a),
        is_piece(b),
        block_of(a).0 <= x < block_of(a).1,
        block_of(b).0 <= x < block_of(b).1,
    ensures
        a == b,
{
    let (j, k) = (a % 8, b % 8);
    assert(j == 1 || j == 2 || j == 3 || j == 4 || j == 5 || j == 6);
    assert(k == 1 || k == 2 || k == 3 || k == 4 || k == 5 || k == 6);
    assert(a == j || a == j + 8);
    assert(b == k || b == k + 8);
}

/// The attacks of a piece are numbered in order.
proof fn lemma_ranks_apart(code: int, from: int, to: int, from2: int, to2: int)
    requires
        0 <= from < 64,
        0 <= to < 64,
        0 <= from2 < 64,
        0 <= to2 < 64,
        reaches(code, from, to),
        reaches(code, from2, to2),
        from < from2 || from == from2 && to < to2,
    ensures
        first_attack(code, from as nat) + attacks_below(code, from, to as nat) < first_attack(
            code,
            from2 as nat,
        ) + attacks_below(code, from2, to2 as nat),
{
    if from < from2 {
        lemma_attacks_below_monotone(code, from, (to + 1) as nat, 64);
        lemma_first_attack_monotone(code, (from + 1) as nat, from2 as nat);
        lemma_attacks_below_monotone(code, from2, 0, to2 as nat);
    } else {
        lemma_attacks_below_monotone(code, from, (to + 1) as nat, to2 as nat);
    }
}

/// Different targets of an attacker have different places.
proof fn lemma_targets_apart(a: int, b: int, b2: int)
    requires
        is_piece(a),
        is_piece(b),
        is_piece(b2),
        is_counted(a, b),
        is_counted(a, b2),
        target_of(a, b) == target_of(a, b2),
    ensures
        b == b2,
{
    let (i, j, k) = (a % 8, b % 8, b2 % 8);
    assert(i == 1 || i == 2 || i == 3 || i == 4 || i == 5 || i == 6);
    assert(j == 1 || j == 2 || j == 3 || j == 4 || j == 5 || j == 6);
    assert(k == 1 || k == 2 || k == 3 || k == 4 || k == 5 || k == 6);
    assert(b == j || b == j + 8);
    assert(b2 == k || b2 == k + 8);
}

/// Different attacks that are counted have different features.
pub proof fn attack_features_are_distinct(
    a: int,
    from: int,
    to: int,
    b: int,
    a2: int,
    from2: int,
    to2: int,
    b2: int,
)
    requires
        is_piece(a),
        is_piece(b),
        is_piece(a2),
        is_piece(b2),
        0 <= from < 64,
        0 <= to < 64,
        0 <= from2 < 64,
        0 <= to2 < 64,
        reaches(a, from, to),
        reaches(a2, from2, to2),
        seen_feature(a, from, to, b) < EXCLUDED,
        seen_feature(a, from, to, b) == seen_feature(a2, from2, to2, b2),
    ensures
        a == a2,
        from == from2,
        to == to2,
        b == b2,
{
    lemma_within_block(a, from, to, b);
    lemma_within_block(a2, from2, to2, b2);
    lemma_blocks_apart(a, a2, seen_feature(a, from, to, b));
    lemma_attack_rank(a, from, to);
    lemma_attack_rank(a2, from2, to2);
    let total = first_attack(a, 64);
    let rank = first_attack(a, from as nat) + attacks_below(a, from, to as nat);
    let rank2 = first_attack(a, from2 as nat) + attacks_below(a, from2, to2 as nat);
    let (t, t2) = (target_of(a, b), target_of(a, b2));
    assert(t == t2 && rank == rank2) by (nonlinear_arith)
        requires
            t * total + rank == t2 * total + rank2,
            0 <= rank < total,
            0 <= rank2 < total,
    ;
    lemma_targets_apart(a, b, b2);
    if from < from2 || from == from2 && to < to2 {
        lemma_ranks_apart(a, from, to, from2, to2);
    }
    if from2 < from || from == from2 && to2 < to {
        lemma_ranks_apart(a, from2, to2, from, to);
    }
}

/// Of two like pieces that attack each other exactly one attack is counted.
pub proof fn mutual_attacks_count_once(a: int, from: int, to: int, b: int)
    requires
        is_piece(a),
        is_piece(b),
        0 <= from < 64,
        0 <= to < 64,
        reaches(a, from, to),
        reaches(b, to, from),
        is_counted(a, b),
        counted_once(a, b),
    ensures
        (seen_feature(a, from, to, b) < EXCLUDED) != (seen_feature(b, to, from, a) < EXCLUDED),
{
    seen_feature_bound(a, from, to, b);
    seen_feature_bound(b, to, from, a);
}

proof fn lemma_seen_square(perspective: Color, king_square: u8, sq: int)
    requires
        0 <= sq < 64,
    ensures
        0 <= seen_square(perspective, king_square, sq) < 64,
        seen_square(perspective, king_square, sq) % 8 == if king_square % 8 > 3 {
            7 - sq % 8
        } else {
            sq % 8
        },
        seen_square(perspective, king_square, sq) / 8 == match perspective {
            Color::White => sq / 8,
            Color::Black => 7 - sq / 8,
        },
{
    let (f, r) = (sq % 8, sq / 8);
    assert(sq == 8 * r + f && r % 8 == r);
    let x = from_side(perspective, sq);
    let r2 = match perspective {
        Color::White => r,
        Color::Black => 7 - r,
    };
    assert(x == 8 * r2 + f);
    assert(mirrored(x) == 8 * r2 + (7 - f));
}

/// An attack is an attack on a board that is turned.
proof fn lemma_attacks_seen(
    perspective: Color,
    mirror: bool,
    code: int,
    f: int,
    r: int,
    tf: int,
    tr: int,
)
    requires
        is_piece(code),
        0 <= r < 8,
        attacks(code, f, r, tf, tr),
    ensures
        is_piece(seen_code(perspective, code)),
        ({
            let (f2, tf2) = if mirror { (7 - f, 7 - tf) } else { (f, tf) };
            let (r2, tr2) = match perspective {
                Color::White => (r, tr),
                Color::Black => (7 - r, 7 - tr),
            };
            attacks(seen_code(perspective, code), f2, r2, tf2, tr2)
        }),
{
}

/// An attack is an attack from either perspective.
proof fn lemma_seen(perspective: Color, king_square: u8, code: int, from: int, to: int)
    requires
        is_piece(code),
        0 <= from < 64,
        0 <= to < 64,
        reaches(code, from, to),
    ensures
        is_piece(seen_code(perspective, code)),
        0 <= seen_square(perspective, king_square, from) < 64,
        0 <= seen_square(perspective, king_square, to) < 64,
        reaches(
            seen_code(perspective, code),
            seen_square(perspective, king_square, from),
            seen_square(perspective, king_square, to),
        ),
{
    lemma_seen_square(perspective, king_square, from);
    lemma_seen_square(perspective, king_square, to);
    lemma_attacks_seen(
        perspective,
        king_square % 8 > 3,
        code,
        from % 8,
        from / 8,
        to % 8,
        to / 8,
    );
}

/// Every attack has a feature that the tables have a row for, or is excluded.
pub proof fn attack_feature_in_range(
    perspective: Color,
    attacker: int,
    from: int,
    to: int,
    attacked: int,
    king_square: u8,
)
    requires
        is_piece(attacker),
        is_piece(attacked),
        0 <= from < 64,
        0 <= to < 64,
        reaches(attacker, from, to),
    ensures
        0 <= threat_feature(perspective, attacker, from, to, attacked, king_square) <= EXCLUDED,
{
    lemma_seen(perspective, king_square, attacker, from, to);
    seen_feature_bound(
        seen_code(perspective, attacker),
        seen_square(perspective, king_square, from),
        seen_square(perspective, king_square, to),
        seen_code(perspective, attacked),
    );
}

/// The code of what stands on a square, 0 for nothing.
pub open spec fn code_of(piece: Option<Piece>) -> u8 {
    match piece {
        Some(p) => p.code() as u8,
        None => 0,
    }
}

/// The code of what stands on each square.
pub open spec fn board_codes(pieces: Seq<(u8, Piece)>) -> Seq<u8> {
    Seq::new(64, |sq: int| code_of(piece_at(pieces, sq)))
}

/// There are 64 squares, and on each one a piece or nothing.
pub open spec fn valid_codes(codes: Seq<u8>) -> bool {
    &&& codes.len() == 64
    &&& forall|sq: int|
        0 <= sq < 64 ==> #[trigger] codes[sq] == 0 || is_piece(codes[sq] as int)
}

/// How far `k` steps from `x` lead in the direction of `y`.
pub open spec fn stepped(x: int, y: int, k: int) -> int {
    if y > x {
        x + k
    } else if y < x {
        x - k
    } else {
        x
    }
}

/// The square `k` steps from `from` on the line to `to`.
pub open spec fn line_square(from: int, to: int, k: int) -> int {
    8 * stepped(from / 8, to / 8, k) + stepped(from % 8, to % 8, k)
}

/// The number of steps from `from` to `to` on a line.
pub open spec fn line_len(from: int, to: int) -> int {
    let df = gap(from % 8, to % 8);
    let dr = gap(from / 8, to / 8);
    if df >= dr {
        df
    } else {
        dr
    }
}

/// Nothing stands between the two squares.
pub open spec fn line_clear(codes: Seq<u8>, from: int, to: int) -> bool {
    forall|k: int|
        1 <= k < line_len(from, to) ==> codes[#[trigger] line_square(from, to, k)] == 0
}

/// Whether the piece moves along lines.
pub open spec fn slides(code: int) -> bool {
    3 <= code % 8 <= 5
}

/// Whether the piece on `from` attacks a piece on `to`.
pub open spec fn threatens(codes: Seq<u8>, from: int, to: int) -> bool {
    &&& codes[from] != 0
    &&& codes[to] != 0
    &&& reaches(codes[from] as int, from, to)
    &&& slides(codes[from] as int) ==> line_clear(codes, from, to)
}

/// An attack as a single number, ordered by the squares `from` and `to`.
pub open spec fn packed(from: int, to: int, attacker: int, attacked: int) -> u32 {
    (from * 16384 + to * 256 + attacker * 16 + attacked) as u32
}

/// The parts of a packed attack: from, to, attacker, attacked.
pub open spec fn unpacked(pair: u32) -> (int, int, int, int) {
    (
        pair as int / 16384 % 64,
        pair as int / 256 % 64,
        pair as int / 16 % 16,
        pair as int % 16,
    )
}

/// A packed attack that is possible on an empty board.
pub open spec fn valid_pair(pair: u32) -> bool {
    let (from, to, attacker, attacked) = unpacked(pair);
    is_piece(attacker) && is_piece(attacked) && reaches(attacker, from, to)
}

/// The attacks among the first `n` pairs of squares, in order.
pub open spec fn pairs_upto(codes: Seq<u8>, n: nat) -> Seq<u32>
    decreases n,
{
    if n == 0 {
        Seq::empty()
    } else {
        let before = pairs_upto(codes, (n - 1) as nat);
        let from = (n - 1) / 64;
        let to = (n - 1) % 64;
        if threatens(codes, from, to) {
            before.push(packed(from, to, codes[from] as int, codes[to] as int))
        } else {
            before
        }
    }
}

/// All attacks on the board, in order.
pub open spec fn pair_list(codes: Seq<u8>) -> Seq<u32> {
    pairs_upto(codes, 4096)
}

/// A packed attack can be taken apart again.
pub proof fn packing_is_reversible(from: int, to: int, attacker: int, attacked: int)
    requires
        0 <= from < 64,
        0 <= to < 64,
        0 <= attacker < 16,
        0 <= attacked < 16,
    ensures
        packed(from, to, attacker, attacked) == from * 16384 + to * 256 + attacker * 16 + attacked,
        unpacked(packed(from, to, attacker, attacked)) == (from, to, attacker, attacked),
{
    let p = from * 16384 + to * 256 + attacker * 16 + attacked;
    assert(p / 16 == from * 1024 + to * 16 + attacker);
    assert(p / 256 == from * 64 + to);
    assert(p / 16384 == from);
}

/// The attacks on a board are valid, and listed in ascending order without
/// repetition.
pub proof fn pairs_valid_and_sorted(codes: Seq<u8>, n: nat)
    requires
        valid_codes(codes),
        n <= 4096,
    ensures
        forall|i: int|
            0 <= i < pairs_upto(codes, n).len() ==> {
                let pair = #[trigger] pairs_upto(codes, n)[i];
                valid_pair(pair) && pair as int / 256 < n
            },
        forall|i: int, j: int|
            0 <= i < j < pairs_upto(codes, n).len() ==> #[trigger] pairs_upto(codes, n)[i]
                < #[trigger] pairs_upto(codes, n)[j],
    decreases n,
{
    if n > 0 {
        pairs_valid_and_sorted(codes, (n - 1) as nat);
        let before = pairs_upto(codes, (n - 1) as nat);
        let from = (n - 1) / 64;
        let to = (n - 1) % 64;
        assert(0 <= from < 64 && 0 <= to < 64);
        if threatens(codes, from, to) {
            let pair = packed(from, to, codes[from] as int, codes[to] as int);
            assert(is_piece(codes[from] as int) && is_piece(codes[to] as int));
            packing_is_reversible(from, to, codes[from] as int, codes[to] as int);
            assert(valid_pair(pair));
            assert(pair as int / 256 == n - 1);
            assert(pairs_upto(codes, n) == before.push(pair));
        }
    }
}

/// What stands where on a board, with the squares of the kings.
pub struct PosInfo {
    pub kings: [u8; 2],
    pub piece_on: [u8; 64],
}

impl PosInfo {
    /// Takes the pieces off a board.
    pub fn from_board(board: &impl Board) -> (r: PosInfo)
        requires
            board.position().on_board(),
        ensures
            r.kings@ == seq![board.position().white_king, board.position().black_king],
            r.piece_on@ == board_codes(board.position().pieces),
            valid_codes(r.piece_on@),
    {
        let pieces: Vec<(u8, Piece)> = board.for_each_piece();
        let mut piece_on: [u8; 64] = [0u8; 64];
        let mut i: usize = 0;
        while i < pieces.len()
            invariant
                i <= pieces.len(),
                forall|k: int| 0 <= k < pieces@.len() ==> (#[trigger] pieces@[k]).0 < 64,
                forall|sq: int|
                    0 <= sq < 64 ==> #[trigger] piece_on@[sq] == code_of(
                        piece_at(pieces@.take(i as int), sq),
                    ),
            decreases pieces.len() - i,
        {
            let (square, piece) = pieces[i];
            proof {
                assert(pieces@.take(i + 1).drop_last() =~= pieces@.take(i as int));
                assert(pieces@.take(i + 1).last() == pieces@[i as int]);
            }
            piece_on[square as usize] = piece.sf_index() as u8;
            i = i + 1;
        }
        assert(pieces@.take(i as int) =~= pieces@);
        assert(piece_on@ =~= board_codes(pieces@));
        let kings: [u8; 2] = [
            board.king_square(Color::White),
            board.king_square(Color::Black),
        ];
        assert(kings@ =~= seq![board.position().white_king, board.position().black_king]);
        PosInfo { kings, piece_on }
    }
}

fn distance(x: u8, y: u8) -> (r: u8)
    ensures
        r == gap(x as int, y as int),
{
    if x >= y {
        x - y
    } else {
        y - x
    }
}

/// Whether a piece attacks `to` from `from` on an empty board.
pub fn can_reach(code: u8, from: u8, to: u8) -> (r: bool)
    ensures
        r == reaches(code as int, from as int, to as int),
{
    let df: u8 = distance(from % 8, to % 8);
    let dr: u8 = distance(from / 8, to / 8);
    match code % 8 {
        1 => {
            let ahead: bool = if code < 8 {
                to / 8 == from / 8 + 1
            } else {
                to / 8 + 1 == from / 8
            };
            df == 1 && ahead && 1 <= from / 8 && from / 8 <= 6
        },
        2 => df == 1 && dr == 2 || df == 2 && dr == 1,
        3 => df == dr && df != 0,
        4 => (df == 0) != (dr == 0),
        5 => df == dr && df != 0 || (df == 0) != (dr == 0),
        6 => df <= 1 && dr <= 1 && df + dr != 0,
        _ => false,
    }
}

fn step_toward(x: u8, y: u8) -> (r: u8)
    requires
        x < 8,
        y < 8,
    ensures
        r == stepped(x as int, y as int, 1),
        r < 8,
{
    if y > x {
        x + 1
    } else if y < x {
        x - 1
    } else {
        x
    }
}

/// Whether nothing stands between two squares on a line.
fn is_line_clear(piece_on: &[u8; 64], from: u8, to: u8) -> (r: bool)
    requires
        from < 64,
        to < 64,
        ({
            let df = gap(from as int % 8, to as int % 8);
            let dr = gap(from as int / 8, to as int / 8);
            df == dr || df == 0 || dr == 0
        }),
    ensures
        r == line_clear(piece_on@, from as int, to as int),
{
    let mut file: u8 = from % 8;
    let mut rank: u8 = from / 8;
    let to_file: u8 = to % 8;
    let to_rank: u8 = to / 8;
    let df: u8 = distance(file, to_file);
    let dr: u8 = distance(rank, to_rank);
    let len: u8 = if df >= dr {
        df
    } else {
        dr
    };
    let mut k: u8 = 1;
    while k < len
        invariant
            1 <= k,
            from < 64,
            to < 64,
            to_file == to % 8,
            to_rank == to / 8,
            len == line_len(from as int, to as int),
            len <= 7,
            gap(from as int % 8, to as int % 8) == len || gap(from as int % 8, to as int % 8) == 0,
            gap(from as int / 8, to as int / 8) == len || gap(from as int / 8, to as int / 8) == 0,
            k <= len || len == 0,
            file == stepped(from as int % 8, to as int % 8, k - 1),
            rank == stepped(from as int / 8, to as int / 8, k - 1),
            file < 8,
            rank < 8,
            forall|m: int|
                1 <= m < k ==> piece_on@[#[trigger] line_square(from as int, to as int, m)] == 0,
        decreases len - k,
    {
        file = step_toward(file, to_file);
        rank = step_toward(rank, to_rank);
        let sq: usize = (8 * rank + file) as usize;
        assert(sq == line_square(from as int, to as int, k as int));
        if piece_on[sq] != 0 {
            return false;
        }
        k = k + 1;
    }
    true
}

/// Whether the piece on `from` attacks a piece on `to`.
fn is_threat(piece_on: &[u8; 64], from: u8, to: u8) -> (r: bool)
    requires
        valid_codes(piece_on@),
        from < 64,
        to < 64,
    ensures
        r == threatens(piece_on@, from as int, to as int),
{
    let code: u8 = piece_on[from as usize];
    if code == 0 || piece_on[to as usize] == 0 || !can_reach(code, from, to) {
        return false;
    }
    let kind: u8 = code % 8;
    if 3 <= kind && kind <= 5 {
        is_line_clear(piece_on, from, to)
    } else {
        true
    }
}

/// Lists all attacks on the board in ascending order.
pub fn threat_pairs(pos: &PosInfo, out: &mut Vec<u32>)
    requires
        valid_codes(pos.piece_on@),
    ensures
        final(out)@ == pair_list(pos.piece_on@),
{
    out.clear();
    let mut n: u32 = 0;
    while n < 4096
        invariant
            n <= 4096,
            valid_codes(pos.piece_on@),
            out@ == pairs_upto(pos.piece_on@, n as nat),
        decreases 4096 - n,
    {
        let from: u32 = n / 64;
        let to: u32 = n % 64;
        if is_threat(&pos.piece_on, from as u8, to as u8) {
            let attacker: u32 = pos.piece_on[from as usize] as u32;
            let attacked: u32 = pos.piece_on[to as usize] as u32;
            out.push(from * 16384 + to * 256 + attacker * 16 + attacked);
        }
        n = n + 1;
    }
}

/// The parts of a packed attack: from, to, attacker, attacked.
pub fn unpack_pair(pair: u32) -> (r: (u8, u8, u8, u8))
    ensures
        (r.0 as int, r.1 as int, r.2 as int, r.3 as int) == unpacked(pair),
{
    (
        (pair / 16384 % 64) as u8,
        (pair / 256 % 64) as u8,
        (pair / 16 % 16) as u8,
        (pair % 16) as u8,
    )
}

fn seen_square_of(perspective: Color, king_square: u8, sq: u8) -> (r: u8)
    requires
        sq < 64,
    ensures
        r == seen_square(perspective, king_square, sq as int),
        r < 64,
{
    let rank: u8 = match perspective {
        Color::White => sq / 8,
        Color::Black => 7 - sq / 8,
    };
    let file: u8 = if king_square % 8 > 3 {
        7 - sq % 8
    } else {
        sq % 8
    };
    proof {
        lemma_seen_square(perspective, king_square, sq as int);
    }
    8 * rank + file
}

fn seen_code_of(perspective: Color, code: u8) -> (r: u8)
    requires
        is_piece(code as int),
    ensures
        r == seen_code(perspective, code as int),
        is_piece(r as int),
{
    match perspective {
        Color::White => code,
        Color::Black => if code < 8 {
            code + 8
        } else {
            code - 8
        },
    }
}

/// The number of squares below `to` that the piece attacks from `from`.
fn count_below(code: u8, from: u8, to: u8) -> (r: i32)
    requires
        from < 64,
        to < 64,
    ensures
        r == attacks_below(code as int, from as int, to as nat),
{
    let mut n: i32 = 0;
    let mut sq: u8 = 0;
    while sq < to
        invariant
            sq <= to < 64,
            from < 64,
            n == attacks_below(code as int, from as int, sq as nat),
            0 <= n <= sq,
        decreases to - sq,
    {
        if can_reach(code, from, sq) {
            n = n + 1;
        }
        sq = sq + 1;
    }
    n
}

/// The first feature of attacks of `a` on `b`.
fn first_feature_of(a: u8, b: u8) -> (r: i32)
    requires
        is_piece(a as int),
        is_piece(b as int),
        is_counted(a as int, b as int),
    ensures
        r == first_feature(a as int, b as int),
        0 <= r <= THREAT_DIMENSIONS,
{
    proof {
        lemma_group_bound(a as int, b as int);
        lemma_first_attack(a as int, 64);
    }
    let kind: usize = (a % 8) as usize - 1;
    let side: i32 = if a < 8 {
        0
    } else {
        SIDE_FEATURES
    };
    let slot: i32 = TARGET_SLOT[kind][(b % 8) as usize - 1];
    let target: i32 = if b < 8 {
        slot
    } else {
        slot + TARGET_KINDS[kind]
    };
    let total: i32 = FIRST_ATTACK[kind][64] as i32;
    assert(target == target_of(a as int, b as int));
    assert(total == first_attack(a as int, 64));
    FIRST_FEATURE[kind] + side + target * total
}

/// The feature of an attack with squares and codes as the perspective sees them.
fn seen_index(a: u8, from: u8, to: u8, b: u8) -> (r: u32)
    requires
        is_piece(a as int),
        is_piece(b as int),
        from < 64,
        to < 64,
        reaches(a as int, from as int, to as int),
    ensures
        r == seen_feature(a as int, from as int, to as int, b as int),
        r <= EXCLUDED,
{
    let kind: usize = (a % 8) as usize - 1;
    if TARGET_SLOT[kind][(b % 8) as usize - 1] < 0 {
        return EXCLUDED;
    }
    if a % 8 == b % 8 && (a != b || a % 8 != 1) && from < to {
        return EXCLUDED;
    }
    proof {
        lemma_attack_rank(a as int, from as int, to as int);
        lemma_group_bound(a as int, b as int);
        lemma_first_attack(a as int, from as nat);
    }
    let start: i32 = first_feature_of(a, b);
    let rank: i32 = FIRST_ATTACK[kind][from as usize] as i32;
    (start + rank + count_below(a, from, to)) as u32
}

/// The feature of an attack of `attacker` on `from` against `attacked` on `to`,
/// for a perspective whose king stands on `king_square`, or [`EXCLUDED`].
pub fn threat_index(
    perspective: Color,
    attacker: u8,
    from: u8,
    to: u8,
    attacked: u8,
    king_square: u8,
) -> (r: u32)
    requires
        is_piece(attacker as int),
        is_piece(attacked as int),
        from < 64,
        to < 64,
        reaches(attacker as int, from as int, to as int),
    ensures
        r == threat_feature(
            perspective,
            attacker as int,
            from as int,
            to as int,
            attacked as int,
            king_square,
        ),
        r <= EXCLUDED,
{
    proof {
        lemma_seen(perspective, king_square, attacker as int, from as int, to as int);
    }
    seen_index(
        seen_code_of(perspective, attacker),
        seen_square_of(perspective, king_square, from),
        seen_square_of(perspective, king_square, to),
        seen_code_of(perspective, attacked),
    )
}

} // verus!
