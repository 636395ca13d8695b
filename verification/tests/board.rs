use nnue_rs::feature;
use nnue_rs::{Board, Color, FenBoard, Piece, PieceKind};

#[test]
fn parses_startpos() {
    let board =
        FenBoard::parse("rnbqkbnr/pppppppp/8/8/8/8/PPPPPPPP/RNBQKBNR w KQkq - 0 1").unwrap();
    assert_eq!(board.side_to_move(), Color::White);
    assert_eq!(board.king_square(Color::White), 4);
    assert_eq!(board.king_square(Color::Black), 60);
}

#[test]
fn collects_active_features() {
    let board =
        FenBoard::parse("rnbqkbnr/pppppppp/8/8/8/8/PPPPPPPP/RNBQKBNR w KQkq - 0 1").unwrap();
    let mut white = Vec::new();
    let mut black = Vec::new();
    feature::active_indices(&board, Color::White, &mut white);
    feature::active_indices(&board, Color::Black, &mut black);
    assert_eq!(white.len(), 32);
    assert_eq!(black.len(), 32);
    for &idx in white.iter().chain(black.iter()) {
        assert!(idx < feature::INPUT_DIMENSIONS);
    }
}

#[test]
fn parses_pieces_and_mover() {
    let board = FenBoard::parse("  4k3/8/8/8/8/8/P7/1N2K3\tb - - 0 1\n").unwrap();
    assert_eq!(board.side_to_move(), Color::Black);
    assert_eq!(
        board.for_each_piece(),
        vec![
            (60, Piece::new(Color::Black, PieceKind::King)),
            (8, Piece::new(Color::White, PieceKind::Pawn)),
            (1, Piece::new(Color::White, PieceKind::Knight)),
            (4, Piece::new(Color::White, PieceKind::King)),
        ]
    );
}

#[test]
fn every_letter_is_a_piece() {
    let board = FenBoard::parse("pnbrqk2/8/8/8/8/8/8/PNBRQK2 w").unwrap();
    let kinds = [
        PieceKind::Pawn,
        PieceKind::Knight,
        PieceKind::Bishop,
        PieceKind::Rook,
        PieceKind::Queen,
        PieceKind::King,
    ];
    let pieces = board.for_each_piece();
    assert_eq!(pieces.len(), 12);
    for (i, kind) in kinds.into_iter().enumerate() {
        assert_eq!(pieces[i], (56 + i as u8, Piece::new(Color::Black, kind)));
        assert_eq!(pieces[6 + i], (i as u8, Piece::new(Color::White, kind)));
    }
}

fn complaint(fen: &str) -> String {
    match FenBoard::parse(fen) {
        Ok(_) => panic!("parsed"),
        Err(e) => e,
    }
}

#[test]
fn refuses_bad_placements() {
    for fen in [
        "",
        "   ",
        "8/8/8/8/8/8/8 w",
        "8/8/8/8/8/8/8/8/8 w",
        "4k3/8/8/8/8/8/8/4K4 w",
        "4k3/8/8/8/8/8/8/4K2 w",
        "4k3/8/8/8/8/8/9/4K3 w",
        "4k3/8/8/8/8/8/0p7/4K3 w",
        "4k3/8/8/8/8/8/x7/4K3 w",
        "4k3/8/8/8/8/8/8/4K3/ w",
        "4k3/8/8/8/8/8/8/\u{212a}7 w",
    ] {
        assert_eq!(complaint(fen), "bad piece placement");
    }
}

#[test]
fn refuses_bad_movers() {
    for fen in [
        "4k3/8/8/8/8/8/8/4K3",
        "4k3/8/8/8/8/8/8/4K3 ",
        "4k3/8/8/8/8/8/8/4K3 x",
        "4k3/8/8/8/8/8/8/4K3 W",
        "4k3/8/8/8/8/8/8/4K3 wb",
    ] {
        assert_eq!(complaint(fen), "bad side to move");
    }
}

#[test]
fn refuses_missing_and_spare_kings() {
    for fen in [
        "8/8/8/8/8/8/8/8 w",
        "4k3/8/8/8/8/8/8/8 w",
        "8/8/8/8/8/8/8/4K3 w",
        "4k3/8/8/8/8/8/8/K3K3 w",
        "k3k3/8/8/8/8/8/8/4K3 b",
    ] {
        assert_eq!(complaint(fen), "each side must have one king");
    }
}

#[test]
fn refuses_more_than_32_pieces() {
    assert_eq!(
        complaint("rnbqkbnr/pppppppp/p7/8/8/8/PPPPPPPP/RNBQKBNR w"),
        "more than 32 pieces"
    );
}

#[test]
fn reads_back_what_was_written() {
    // empty squares one by one
    let board = FenBoard::parse(
        "1111k111/11111111/111p1111/11111111/11111111/11Q11111/11111111/1111K111 w",
    )
    .unwrap();
    let short = FenBoard::parse("4k3/8/3p4/8/8/2Q5/8/4K3 w").unwrap();
    assert_eq!(board.for_each_piece(), short.for_each_piece());
}

#[test]
fn colours_and_codes() {
    assert_eq!(Color::White.flip(), Color::Black);
    assert_eq!(Color::Black.flip().flip(), Color::Black);
    assert_eq!(Color::White.index(), 0);
    assert_eq!(Color::Black.index(), 1);
    assert_eq!(Piece::new(Color::White, PieceKind::Pawn).sf_index(), 1);
    assert_eq!(Piece::new(Color::White, PieceKind::King).sf_index(), 6);
    assert_eq!(Piece::new(Color::Black, PieceKind::Pawn).sf_index(), 9);
    assert_eq!(Piece::new(Color::Black, PieceKind::King).sf_index(), 14);
    assert_eq!(nnue_rs::types::file_of(63), 7);
    assert_eq!(nnue_rs::types::file_of(8), 0);
}
