use std::collections::HashSet;

use nnue_rs::feature::{king_bucket, make_index, orient, Arch, INPUT_DIMENSIONS};
use nnue_rs::threats::{
    can_reach, threat_index, threat_pairs, unpack_pair, PosInfo, EXCLUDED, THREAT_DIMENSIONS,
};
use nnue_rs::{Color, FenBoard};

const CODES: [usize; 12] = [1, 2, 3, 4, 5, 6, 9, 10, 11, 12, 13, 14];

#[test]
fn exact_mirrored_indices() {
    assert_eq!(make_index(Color::White, 8, 1, 4), 21832);
    assert_eq!(make_index(Color::White, 60, 14, 4), 22524);
    assert_eq!(make_index(Color::Black, 48, 9, 60), 21832);
    assert_eq!(make_index(Color::White, 8, 1, 0), 19727);
    assert_eq!(orient(Color::White, 4), 0);
    assert_eq!(orient(Color::White, 3), 7);
    assert_eq!(orient(Color::Black, 60), 56);
    assert_eq!(orient(Color::Black, 57), 63);
    assert_eq!(king_bucket(Color::White, 4), 21824);
    assert_eq!(king_bucket(Color::Black, 4), 3 * 704);
}

#[test]
fn exact_indices_of_other_feature_sets() {
    assert_eq!(Arch::HalfKAv2.make_index(Color::White, 8, 1, 4), 2824);
    assert_eq!(Arch::HalfKAv2.make_index(Color::Black, 48, 9, 60), 2824);
    assert_eq!(Arch::HalfKP.make_index(Color::White, 8, 1, 4), 2573);
    assert_eq!(Arch::HalfKP.make_index(Color::Black, 48, 9, 60), 1939);
    assert_eq!(Arch::Sfnnv10.make_index(Color::White, 8, 1, 4), 21832);
    assert_eq!(Arch::HalfKAv2Hm.input_dimensions(), INPUT_DIMENSIONS);
    assert_eq!(Arch::Sfnnv10.input_dimensions(), 22528);
    assert_eq!(Arch::HalfKAv2.input_dimensions(), 45056);
    assert_eq!(Arch::HalfKP.input_dimensions(), 41024);
    assert!(Arch::HalfKAv2.kings_are_features());
    assert!(!Arch::HalfKP.kings_are_features());
}

#[test]
fn indices_are_distinct_and_in_range() {
    for arch in [Arch::HalfKAv2Hm, Arch::HalfKAv2, Arch::HalfKP] {
        for perspective in [Color::White, Color::Black] {
            for king in [0u8, 4, 27, 36, 63] {
                let mut seen = HashSet::new();
                for code in CODES {
                    if code % 8 == 6 {
                        continue;
                    }
                    for sq in 0..64u8 {
                        let index = arch.make_index(perspective, sq, code, king);
                        assert!(index < arch.input_dimensions());
                        assert!(seen.insert(index));
                    }
                }
            }
        }
    }
}

#[test]
fn kings_share_a_plane() {
    assert_eq!(
        make_index(Color::White, 20, 6, 4),
        make_index(Color::White, 20, 14, 4)
    );
}

#[test]
fn halfkp_leaves_the_kings_out() {
    let board =
        FenBoard::parse("rnbqkbnr/pppppppp/8/8/8/8/PPPPPPPP/RNBQKBNR w KQkq - 0 1").unwrap();
    let mut rows = vec![7; 3];
    Arch::HalfKP.active_indices(&board, Color::White, &mut rows);
    assert_eq!(rows.len(), 30);
    Arch::HalfKAv2.active_indices(&board, Color::White, &mut rows);
    assert_eq!(rows.len(), 32);
}

#[test]
fn attacks_of_the_pieces() {
    // a knight, a bishop, a rook, a queen, a king and both pawns on d4
    let d4 = 27;
    let count = |code: u8| (0..64u8).filter(|&to| can_reach(code, d4, to)).count();
    assert_eq!(count(1), 2);
    assert_eq!(count(2), 8);
    assert_eq!(count(3), 13);
    assert_eq!(count(4), 14);
    assert_eq!(count(5), 27);
    assert_eq!(count(6), 8);
    assert_eq!(count(9), 2);
    assert!(can_reach(1, d4, 36));
    assert!(!can_reach(1, d4, 18));
    assert!(can_reach(9, d4, 18));
}

fn pairs_of(fen: &str) -> Vec<u32> {
    let board = FenBoard::parse(fen).unwrap();
    let mut pairs = vec![1, 2, 3];
    threat_pairs(&PosInfo::from_board(&board), &mut pairs);
    pairs
}

#[test]
fn lists_attacks() {
    assert_eq!(pairs_of("4k3/8/8/8/8/8/8/R3K3 w"), vec![1094]);
    assert_eq!(unpack_pair(1094), (0, 4, 4, 6));
    // a piece in between
    assert_eq!(
        pairs_of("4k3/8/8/8/8/8/8/R1N1K3 w"),
        vec![2 * 256 + 4 * 16 + 2]
    );
    let pairs = pairs_of("r3k2r/p1ppqpb1/bn2pnp1/3PN3/1p2P3/2N2Q1p/PPPBBPPP/R3K2R w KQkq - 0 1");
    assert!(pairs.windows(2).all(|w| w[0] < w[1]));
}

#[test]
fn exact_attack_indices() {
    assert_eq!(threat_index(Color::White, 4, 0, 4, 6, 4), 13821);
    // two pawns that attack each other
    assert_eq!(threat_index(Color::White, 1, 28, 35, 9, 4), EXCLUDED);
    assert_eq!(threat_index(Color::White, 9, 35, 28, 1, 4), 39977);
    // pawns do not count attacks on queens
    assert_eq!(threat_index(Color::White, 1, 28, 35, 13, 4), EXCLUDED);
}

#[test]
fn attack_indices_are_distinct() {
    let mut seen = HashSet::new();
    for attacker in CODES {
        for attacked in CODES {
            for from in 0..64u8 {
                for to in 0..64u8 {
                    if can_reach(attacker as u8, from, to) {
                        let index =
                            threat_index(Color::White, attacker as u8, from, to, attacked as u8, 4);
                        if index < EXCLUDED {
                            assert!((index as usize) < THREAT_DIMENSIONS);
                            assert!(seen.insert(index));
                        }
                    }
                }
            }
        }
    }
}

#[test]
fn mutual_attacks_are_counted_once() {
    // knights on b1 and c3
    let a = threat_index(Color::White, 2, 1, 18, 10, 4);
    let b = threat_index(Color::White, 10, 18, 1, 2, 4);
    assert!((a < EXCLUDED) != (b < EXCLUDED));
}

#[test]
fn king_squares_share_features_only_with_their_mirror_images() {
    for (arch, mirrors) in [
        (Arch::HalfKAv2Hm, true),
        (Arch::Sfnnv10, true),
        (Arch::HalfKAv2, false),
        (Arch::HalfKP, false),
    ] {
        for perspective in [Color::White, Color::Black] {
            let rows = |king: u8| -> HashSet<usize> {
                (0..64u8).map(|sq| arch.make_index(perspective, sq, 2, king)).collect()
            };
            for king in [0u8, 12, 39, 60] {
                let own = rows(king);
                for other in 0..64u8 {
                    let alike = other == king || mirrors && other == king ^ 7;
                    assert_eq!(own == rows(other), alike);
                    assert_eq!(own.is_disjoint(&rows(other)), !alike);
                }
            }
        }
    }
    assert_eq!(
        make_index(Color::White, 20, 2, 12),
        make_index(Color::White, 20 ^ 7, 2, 12 ^ 7)
    );
}
