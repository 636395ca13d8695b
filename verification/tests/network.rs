use nnue_rs::error::Error;
use nnue_rs::feature::Arch;
use nnue_rs::reader::Reader;
use nnue_rs::threats;
use nnue_rs::{Accumulator, Board, Color, FenBoard, Network, Piece, PieceKind};

const STARTPOS: &str = "rnbqkbnr/pppppppp/8/8/8/8/PPPPPPPP/RNBQKBNR w KQkq - 0 1";
const KIWIPETE: &str = "r3k2r/p1ppqpb1/bn2pnp1/3PN3/1p2P3/2N2Q1p/PPPBBPPP/R3K2R w KQkq - 0 1";
const ENDGAME: &str = "8/2p5/3p4/KP5r/1R3p1k/8/4P1P1/8 b - - 0 1";
const FENS: [&str; 4] = [
    STARTPOS,
    KIWIPETE,
    ENDGAME,
    "r4rk1/1pp1qppp/p1np1n2/2b1p1B1/2B1P1b1/P1NP1N2/1PP1QPPP/R4RK1 b - - 0 10",
];

/// A position that lists its pieces in a fixed order.
struct Listing {
    pieces: Vec<(u8, Piece)>,
    kings: [u8; 2],
    stm: Color,
}

impl Board for Listing {
    fn side_to_move(&self) -> Color {
        self.stm
    }

    fn king_square(&self, color: Color) -> u8 {
        self.kings[color.index()]
    }

    fn for_each_piece(&self) -> Vec<(u8, Piece)> {
        self.pieces.clone()
    }
}

struct Random(u64);

impl Random {
    fn next(&mut self) -> u64 {
        self.0 ^= self.0 << 13;
        self.0 ^= self.0 >> 7;
        self.0 ^= self.0 << 17;
        self.0
    }

    fn within(&mut self, limit: i64) -> i64 {
        (self.next() % (2 * limit as u64 + 1)) as i64 - limit
    }
}

struct Stack {
    fc0_bias: Vec<i32>,
    fc0_weight: Vec<i8>,
    fc1_bias: Vec<i32>,
    fc1_weight: Vec<i8>,
    fc2_bias: i32,
    fc2_weight: Vec<i8>,
}

/// A network as plain tables.
struct Tables {
    arch: Arch,
    l1: usize,
    bias: Vec<i16>,
    weight: Vec<i16>,
    psqt: Vec<i32>,
    threat_weight: Vec<i8>,
    threat_psqt: Vec<i32>,
    stacks: Vec<Stack>,
}

fn random_stack(random: &mut Random, fc0_out: usize, fc0_in: usize) -> Stack {
    Stack {
        fc0_bias: (0..fc0_out).map(|_| random.within(2000) as i32).collect(),
        fc0_weight: (0..fc0_out * fc0_in).map(|_| random.within(60) as i8).collect(),
        fc1_bias: (0..32).map(|_| random.within(2000) as i32).collect(),
        fc1_weight: (0..32 * 32).map(|_| random.within(60) as i8).collect(),
        fc2_bias: random.within(3000) as i32,
        fc2_weight: (0..32).map(|_| random.within(120) as i8).collect(),
    }
}

fn random_tables(arch: Arch, seed: u64) -> Tables {
    let mut random = Random(seed);
    let dims = arch.input_dimensions();
    let l1: usize = if arch == Arch::HalfKP { 256 } else { 16 };
    let psqt_rows = if arch == Arch::HalfKP { 0 } else { dims };
    let threat_rows = if arch == Arch::Sfnnv10 { 79856 } else { 0 };
    let (stacks, fc0_out, fc0_in) = match arch {
        Arch::HalfKP => (1, 32, 512),
        Arch::HalfKAv2 => (8, 16, 2 * l1),
        _ => (8, 16, l1),
    };
    Tables {
        arch,
        l1,
        bias: (0..l1).map(|_| random.within(120) as i16).collect(),
        weight: (0..l1 * dims).map(|_| random.within(45) as i16).collect(),
        psqt: (0..8 * psqt_rows).map(|_| random.within(3000) as i32).collect(),
        threat_weight: (0..l1 * threat_rows).map(|_| random.within(30) as i8).collect(),
        threat_psqt: (0..8 * threat_rows).map(|_| random.within(900) as i32).collect(),
        stacks: (0..stacks).map(|_| random_stack(&mut random, fc0_out, fc0_in)).collect(),
    }
}

fn put_u32(out: &mut Vec<u8>, value: u32) {
    out.extend_from_slice(&value.to_le_bytes());
}

fn put_leb(out: &mut Vec<u8>, values: &[i64]) {
    let mut data: Vec<u8> = Vec::new();
    for &value in values {
        let mut rest = value;
        loop {
            let low = (rest & 127) as u8;
            rest >>= 7;
            if (rest == 0 && low < 64) || (rest == -1 && low >= 64) {
                data.push(low);
                break;
            }
            data.push(low | 128);
        }
    }
    out.extend_from_slice(b"COMPRESSED_LEB128");
    put_u32(out, data.len() as u32);
    out.extend_from_slice(&data);
}

fn put_stack(out: &mut Vec<u8>, stack: &Stack) {
    for x in &stack.fc0_bias {
        out.extend_from_slice(&x.to_le_bytes());
    }
    out.extend(stack.fc0_weight.iter().map(|&x| x as u8));
    for x in &stack.fc1_bias {
        out.extend_from_slice(&x.to_le_bytes());
    }
    out.extend(stack.fc1_weight.iter().map(|&x| x as u8));
    out.extend_from_slice(&stack.fc2_bias.to_le_bytes());
    out.extend(stack.fc2_weight.iter().map(|&x| x as u8));
}

fn put_stacks(out: &mut Vec<u8>, stacks: &[Stack]) {
    for stack in stacks {
        put_u32(out, 0x1234_5678);
        put_stack(out, stack);
    }
}

fn header(version: u32) -> Vec<u8> {
    let mut out = Vec::new();
    put_u32(&mut out, version);
    put_u32(&mut out, 0xdead_beef);
    put_u32(&mut out, 5);
    out.extend_from_slice(b"a net");
    out
}

/// The file of a network.
fn file_of(tables: &Tables) -> Vec<u8> {
    let l1 = tables.l1 as u32;
    let half = |xs: &[i16]| xs.iter().map(|&x| x as i64 / 2).collect::<Vec<i64>>();
    let full = |xs: &[i16]| xs.iter().map(|&x| x as i64).collect::<Vec<i64>>();
    let wide = |xs: &[i32]| xs.iter().map(|&x| x as i64).collect::<Vec<i64>>();
    match tables.arch {
        Arch::HalfKAv2Hm => {
            let mut out = header(0x7AF32F20);
            put_u32(&mut out, 0x7f234cb8 ^ (2 * l1));
            put_leb(&mut out, &half(&tables.bias));
            put_leb(&mut out, &half(&tables.weight));
            put_leb(&mut out, &wide(&tables.psqt));
            put_stacks(&mut out, &tables.stacks);
            out
        }
        Arch::Sfnnv10 => {
            let mut out = header(0x7AF32F20);
            put_u32(&mut out, 0x8f234cb8 ^ (2 * l1));
            put_leb(&mut out, &full(&tables.bias));
            out.extend(tables.threat_weight.iter().map(|&x| x as u8));
            put_leb(&mut out, &full(&tables.weight));
            let mut sums = wide(&tables.threat_psqt);
            sums.extend(wide(&tables.psqt));
            put_leb(&mut out, &sums);
            put_stacks(&mut out, &tables.stacks);
            out
        }
        Arch::HalfKAv2 => {
            let mut out = header(0x7AF32F20);
            put_u32(&mut out, 0x5f234cb8 ^ (2 * l1));
            for x in tables.bias.iter().chain(tables.weight.iter()) {
                out.extend_from_slice(&x.to_le_bytes());
            }
            for x in &tables.psqt {
                out.extend_from_slice(&x.to_le_bytes());
            }
            put_stacks(&mut out, &tables.stacks);
            out
        }
        Arch::HalfKP => {
            let mut out = header(0x7AF32F16);
            put_u32(&mut out, 0x5d69d5b9);
            for x in tables.bias.iter().chain(tables.weight.iter()) {
                out.extend_from_slice(&x.to_le_bytes());
            }
            put_u32(&mut out, 0x63337156);
            put_stack(&mut out, &tables.stacks[0]);
            out
        }
    }
}

/// The mirrored architecture stores its tables at half their value.
fn even_tables(arch: Arch, seed: u64) -> Tables {
    let mut tables = random_tables(arch, seed);
    if arch == Arch::HalfKAv2Hm {
        for x in tables.bias.iter_mut().chain(tables.weight.iter_mut()) {
            *x = *x / 2 * 2;
        }
    }
    tables
}

fn loaded(bytes: &[u8]) -> Network {
    match Network::from_bytes(bytes) {
        Ok(network) => network,
        Err(e) => panic!("{:?}", e),
    }
}

fn refused(bytes: &[u8]) -> Error {
    match Network::from_bytes(bytes) {
        Ok(_) => panic!("loaded"),
        Err(e) => e,
    }
}

/// The accumulator and the piece-square sums of one side, summed up directly.
fn summed(tables: &Tables, board: &impl Board, color: Color) -> (Vec<i64>, Vec<i64>) {
    let mut acc: Vec<i64> = tables.bias.iter().map(|&x| x as i64).collect();
    let mut psqt = vec![0i64; 8];
    let mut rows = Vec::new();
    tables.arch.active_indices(board, color, &mut rows);
    for row in rows {
        for j in 0..tables.l1 {
            acc[j] += tables.weight[row * tables.l1 + j] as i64;
        }
        if !tables.psqt.is_empty() {
            for b in 0..8 {
                psqt[b] += tables.psqt[row * 8 + b] as i64;
            }
        }
    }
    if tables.arch == Arch::Sfnnv10 {
        let info = threats::PosInfo::from_board(board);
        let mut pairs = Vec::new();
        threats::threat_pairs(&info, &mut pairs);
        for pair in pairs {
            let (from, to, attacker, attacked) = threats::unpack_pair(pair);
            let king = board.king_square(color);
            let row = threats::threat_index(color, attacker, from, to, attacked, king);
            if row < threats::EXCLUDED {
                let row = row as usize;
                for j in 0..tables.l1 {
                    acc[j] += tables.threat_weight[row * tables.l1 + j] as i64;
                }
                for b in 0..8 {
                    psqt[b] += tables.threat_psqt[row * 8 + b] as i64;
                }
            }
        }
    }
    (acc, psqt)
}

fn dense(bias: i32, row: &[i8], input: &[i64]) -> i64 {
    bias as i64 + row.iter().zip(input).map(|(&w, &x)| w as i64 * x).sum::<i64>()
}

fn tail(stack: &Stack, input: &[i64]) -> i64 {
    let middle: Vec<i64> = (0..32)
        .map(|o| {
            (dense(stack.fc1_bias[o], &stack.fc1_weight[32 * o..32 * o + 32], input) >> 6)
                .clamp(0, 127)
        })
        .collect();
    dense(stack.fc2_bias, &stack.fc2_weight, &middle)
}

/// The score of a position, worked out directly from the tables.
fn expected(tables: &Tables, board: &impl Board) -> i32 {
    let stm = board.side_to_move();
    let (own, own_psqt) = summed(tables, board, stm);
    let (other, other_psqt) = summed(tables, board, stm.flip());
    let pieces = board.for_each_piece().len();
    let bucket = if tables.arch == Arch::HalfKP { 0 } else { (pieces - 1) / 4 };
    let stack = &tables.stacks[bucket];
    let psqt = (own_psqt[bucket] - other_psqt[bucket]) / 2;
    let pairwise = tables.arch == Arch::HalfKAv2Hm || tables.arch == Arch::Sfnnv10;
    let mut input: Vec<i64> = Vec::new();
    for side in [&own, &other] {
        if pairwise {
            let hi = if tables.arch == Arch::Sfnnv10 { 255 } else { 254 };
            let half = tables.l1 / 2;
            for j in 0..half {
                input.push((side[j].clamp(0, hi) * side[half + j].clamp(0, hi)) >> 9);
            }
        } else {
            input.extend(side.iter().map(|&x| x.clamp(0, 127)));
        }
    }
    let width = input.len();
    let first: Vec<i64> = (0..stack.fc0_bias.len())
        .map(|o| dense(stack.fc0_bias[o], &stack.fc0_weight[o * width..(o + 1) * width], &input))
        .collect();
    let score = if pairwise {
        let mut middle: Vec<i64> = first[..15].iter().map(|&x| ((x * x) >> 19).min(127)).collect();
        middle.extend(first[..15].iter().map(|&x| (x >> 6).clamp(0, 127)));
        let positional = tail(stack, &middle) + first[15] * 9600 / 8128;
        psqt / 16 + positional / 16
    } else {
        let middle: Vec<i64> = first.iter().map(|&x| (x >> 6).clamp(0, 127)).collect();
        let positional = tail(stack, &middle);
        if tables.arch == Arch::HalfKP {
            positional / 16
        } else {
            (psqt + positional) / 16
        }
    };
    score as i32
}

fn check_scores(arch: Arch) {
    let tables = even_tables(arch, 0x9e37_79b9_7f4a_7c15);
    let network = loaded(&file_of(&tables));
    assert_eq!(network.arch(), arch);
    let mut scores = Vec::new();
    for fen in FENS {
        let board = FenBoard::parse(fen).unwrap();
        let score = network.evaluate(&board);
        assert_eq!(score, expected(&tables, &board));
        assert_eq!(network.evaluate_fen(fen), Ok(score));
        scores.push(score);
    }
    assert!(scores.iter().any(|&s| s != scores[0]));
}

#[test]
fn scores_of_mirrored_networks() {
    check_scores(Arch::HalfKAv2Hm);
}

#[test]
fn scores_of_attack_networks() {
    check_scores(Arch::Sfnnv10);
}

#[test]
fn scores_of_unmirrored_networks() {
    check_scores(Arch::HalfKAv2);
}

#[test]
fn scores_of_halfkp_networks() {
    check_scores(Arch::HalfKP);
}

fn both_scores(network: &Network, acc: &Accumulator) -> (i32, i32) {
    (
        network.evaluate_accumulator(acc, Color::White),
        network.evaluate_accumulator(acc, Color::Black),
    )
}

/// Pairs of positions before and after a move of every type.
const MOVES: [(&str, &str); 7] = [
    // a pawn moves
    (STARTPOS, "rnbqkbnr/pppppppp/8/8/4P3/8/PPPP1PPP/RNBQKBNR b KQkq e3 0 1"),
    // a piece is taken
    (KIWIPETE, "r3k2r/p1ppqpb1/Bn2pnp1/3PN3/1p2P3/2N2Q1p/PPPB1PPP/R3K2R b KQkq - 0 1"),
    // castling
    (KIWIPETE, "r3k2r/p1ppqpb1/bn2pnp1/3PN3/1p2P3/2N2Q1p/PPPBBPPP/R4RK1 b kq - 1 1"),
    // taking en passant
    ("4k3/8/8/3pP3/8/8/8/4K3 w - d6 0 1", "4k3/8/3P4/8/8/8/8/4K3 b - - 0 1"),
    // a promotion that takes a piece
    ("3rk3/4P3/8/8/8/8/8/4K3 w - - 0 1", "3Qk3/8/8/8/8/8/8/4K3 b - - 0 1"),
    // a king moves to the other wing
    ("4k3/8/8/8/8/8/4P3/4K3 w - - 0 1", "4k3/8/8/8/8/8/4P3/3K4 b - - 0 1"),
    // the turn is passed
    (ENDGAME, "8/2p5/3p4/KP5r/1R3p1k/8/4P1P1/8 w - - 0 1"),
];

fn check_updates(arch: Arch) {
    let tables = even_tables(arch, 0x1234_5678_9abc_def1);
    let network = loaded(&file_of(&tables));
    let mut child = network.empty_accumulator();
    for (before, after) in MOVES {
        let parent_board = FenBoard::parse(before).unwrap();
        let child_board = FenBoard::parse(after).unwrap();
        let parent = network.accumulator(&parent_board);
        network.update(&parent_board, &child_board, &parent, &mut child);
        let fresh = network.accumulator(&child_board);
        assert_eq!(both_scores(&network, &child), both_scores(&network, &fresh));
        assert_eq!(
            network.evaluate_accumulator(&child, child_board.side_to_move()),
            network.evaluate(&child_board)
        );
        // and back again
        let mut back = network.empty_accumulator();
        network.update(&child_board, &parent_board, &child, &mut back);
        assert_eq!(both_scores(&network, &back), both_scores(&network, &parent));
        // computing anew overwrites whatever was there
        network.refresh(&child_board, &mut back);
        assert_eq!(both_scores(&network, &back), both_scores(&network, &fresh));
        assert_eq!(both_scores(&network, &fresh.clone()), both_scores(&network, &fresh));
    }
}

#[test]
fn updates_of_mirrored_networks() {
    check_updates(Arch::HalfKAv2Hm);
}

#[test]
fn updates_of_attack_networks() {
    check_updates(Arch::Sfnnv10);
}

#[test]
fn updates_of_unmirrored_networks() {
    check_updates(Arch::HalfKAv2);
}

#[test]
fn updates_of_halfkp_networks() {
    check_updates(Arch::HalfKP);
}

fn listing(fen: &str, turn: impl Fn(u8) -> u8, exchange: bool) -> Listing {
    let board = FenBoard::parse(fen).unwrap();
    let color = |c: Color| if exchange { c.flip() } else { c };
    Listing {
        pieces: board
            .for_each_piece()
            .into_iter()
            .map(|(sq, p)| (turn(sq), Piece::new(color(p.color), p.kind)))
            .collect(),
        kings: [
            turn(board.king_square(color(Color::White))),
            turn(board.king_square(color(Color::Black))),
        ],
        stm: color(board.side_to_move()),
    }
}

#[test]
fn flipped_board_scores_the_same() {
    for arch in [Arch::HalfKAv2Hm, Arch::HalfKAv2, Arch::Sfnnv10] {
        let network = loaded(&file_of(&even_tables(arch, 77)));
        for fen in FENS {
            let flipped = listing(fen, |sq| sq ^ 56, true);
            assert_eq!(Ok(network.evaluate(&flipped)), network.evaluate_fen(fen));
        }
    }
}

#[test]
fn mirrored_board_scores_the_same() {
    for arch in [Arch::HalfKAv2Hm, Arch::Sfnnv10] {
        let network = loaded(&file_of(&even_tables(arch, 78)));
        for fen in FENS {
            let mirrored = listing(fen, |sq| sq ^ 7, false);
            assert_eq!(Ok(network.evaluate(&mirrored)), network.evaluate_fen(fen));
        }
    }
}

#[test]
fn rotated_board_scores_the_same_with_halfkp() {
    let network = loaded(&file_of(&even_tables(Arch::HalfKP, 79)));
    for fen in FENS {
        let rotated = listing(fen, |sq| sq ^ 63, true);
        assert_eq!(Ok(network.evaluate(&rotated)), network.evaluate_fen(fen));
    }
}

#[test]
fn order_of_pieces_does_not_matter() {
    for arch in [Arch::HalfKAv2Hm, Arch::Sfnnv10] {
        let network = loaded(&file_of(&even_tables(arch, 80)));
        for fen in FENS {
            let mut reversed = listing(fen, |sq| sq, false);
            reversed.pieces.reverse();
            assert_eq!(Ok(network.evaluate(&reversed)), network.evaluate_fen(fen));
        }
    }
}

#[test]
fn attack_networks_use_the_last_entry_of_a_square() {
    let network = loaded(&file_of(&even_tables(Arch::Sfnnv10, 81)));
    let mut board = listing(ENDGAME, |sq| sq, false);
    let plain = network.evaluate(&board);
    let (sq, _) = board.pieces[0];
    board.pieces.insert(0, (sq, Piece::new(Color::White, PieceKind::Queen)));
    assert_eq!(network.evaluate(&board), plain);
}

#[test]
fn sums_wrap_around() {
    let mut tables = random_tables(Arch::HalfKAv2, 5);
    for x in tables.bias.iter_mut() {
        *x = 32767;
    }
    for x in tables.weight.iter_mut() {
        *x = 1;
    }
    for x in tables.psqt.iter_mut() {
        *x = 0;
    }
    let wrapped = loaded(&file_of(&tables));
    // 32 pieces lead from the largest number far below zero
    for x in tables.bias.iter_mut() {
        *x = -1;
    }
    for x in tables.weight.iter_mut() {
        *x = 0;
    }
    let negative = loaded(&file_of(&tables));
    assert_eq!(wrapped.evaluate_fen(STARTPOS), negative.evaluate_fen(STARTPOS));
}

#[test]
fn reader_stops_behind_the_network() {
    let mut bytes = file_of(&even_tables(Arch::HalfKAv2Hm, 6));
    let length = bytes.len();
    bytes.extend_from_slice(&[1, 2, 3]);
    let mut reader = Reader::new(&bytes);
    let network = match Network::from_reader(&mut reader) {
        Ok(network) => network,
        Err(e) => panic!("{:?}", e),
    };
    assert_eq!(reader.remaining(), 3);
    assert_eq!(
        network.evaluate_fen(KIWIPETE),
        loaded(&bytes[..length]).evaluate_fen(KIWIPETE)
    );
}

#[test]
fn cut_files_are_refused() {
    for arch in [Arch::HalfKAv2Hm, Arch::HalfKAv2, Arch::HalfKP, Arch::Sfnnv10] {
        let bytes = file_of(&even_tables(arch, 7));
        for n in [0, 3, 11, 16, 20, bytes.len() / 2, bytes.len() - 1] {
            assert!(matches!(refused(&bytes[..n]), Error::UnexpectedEof));
        }
    }
}

#[test]
fn unknown_versions_are_refused() {
    assert!(matches!(refused(&header(0x7AF32F17)), Error::UnsupportedVersion(0x7AF32F17)));
}

#[test]
fn bad_widths_are_refused() {
    for hash in [0x7f234cb8u32, 0x7f234cb8 ^ 24, 0x7f234cb8 ^ 33, 0x7f234cb8 ^ 8224, 0] {
        let mut bytes = header(0x7AF32F20);
        put_u32(&mut bytes, hash);
        assert!(matches!(
            refused(&bytes),
            Error::InvalidData("bad feature-transformer width")
        ));
    }
}

#[test]
fn every_width_is_recognised() {
    for l1 in [16u32, 1024, 3072, 4096] {
        for hash in [0x8f234cb8u32, 0x7f234cb8, 0x5f234cb8] {
            let mut bytes = header(0x7AF32F20);
            put_u32(&mut bytes, hash ^ (2 * l1));
            // the tables are missing, but the width is fine
            assert!(matches!(refused(&bytes), Error::UnexpectedEof));
        }
    }
}

#[test]
fn bad_blocks_are_refused() {
    let mut bytes = header(0x7AF32F20);
    put_u32(&mut bytes, 0x7f234cb8 ^ 32);
    let start = bytes.len();
    put_leb(&mut bytes, &[1; 16]);
    let mut magic = bytes.clone();
    magic[start] = b'c';
    assert!(matches!(refused(&magic), Error::InvalidData("bad LEB128 magic")));
    let mut short = bytes[..start].to_vec();
    put_leb(&mut short, &[1; 15]);
    assert!(matches!(refused(&short), Error::InvalidData("bad LEB128 data")));
    let mut long = bytes[..start].to_vec();
    put_leb(&mut long, &[1; 17]);
    assert!(matches!(refused(&long), Error::InvalidData("bad LEB128 data")));
}

#[test]
fn bad_records_are_not_evaluated() {
    let network = loaded(&file_of(&even_tables(Arch::HalfKAv2Hm, 8)));
    assert_eq!(network.evaluate_fen("8/8"), Err("bad piece placement".to_string()));
}

#[test]
fn file_end_leads_through_the_file() {
    for arch in [Arch::HalfKAv2Hm, Arch::HalfKAv2, Arch::HalfKP, Arch::Sfnnv10] {
        let bytes = file_of(&even_tables(arch, 9));
        let mut have = 0usize;
        let mut steps = 0;
        loop {
            let end = Network::file_end(&bytes[..have]) as usize;
            if end <= have {
                break;
            }
            assert!(end <= bytes.len());
            assert!(matches!(refused(&bytes[..have]), Error::UnexpectedEof));
            have = end;
            steps += 1;
        }
        assert_eq!(have, bytes.len());
        assert!(steps >= 3);
    }
}

#[test]
fn stepping_back_from_foreign_accumulators() {
    for arch in [Arch::HalfKAv2Hm, Arch::HalfKAv2, Arch::HalfKP] {
        let mut tables = even_tables(arch, 10);
        for x in tables.weight.iter_mut() {
            *x = x.wrapping_mul(700);
        }
        let network = loaded(&file_of(&tables));
        let parent = network.accumulator(&FenBoard::parse(KIWIPETE).unwrap());
        for (before, after) in [MOVES[0], MOVES[3], MOVES[4]] {
            let before = FenBoard::parse(before).unwrap();
            let after = FenBoard::parse(after).unwrap();
            let mut there = network.empty_accumulator();
            let mut back = network.empty_accumulator();
            network.update(&before, &after, &parent, &mut there);
            network.update(&after, &before, &there, &mut back);
            assert_ne!(both_scores(&network, &there), both_scores(&network, &parent));
            assert_eq!(both_scores(&network, &back), both_scores(&network, &parent));
        }
    }
}

#[test]
fn padding_weights_do_not_count() {
    for (arch, used) in [(Arch::HalfKAv2Hm, 30), (Arch::Sfnnv10, 30), (Arch::HalfKAv2, 16)] {
        let mut tables = even_tables(arch, 11);
        let plain = loaded(&file_of(&tables));
        for stack in tables.stacks.iter_mut() {
            for (i, w) in stack.fc1_weight.iter_mut().enumerate() {
                if i % 32 >= used {
                    *w = 101;
                }
            }
        }
        let padded = loaded(&file_of(&tables));
        for fen in FENS {
            assert_eq!(padded.evaluate_fen(fen), plain.evaluate_fen(fen));
        }
    }
}

#[test]
fn halfkp_scores_without_pieces() {
    let network = loaded(&file_of(&even_tables(Arch::HalfKP, 12)));
    let empty = network.empty_accumulator();
    let (white, black) = both_scores(&network, &empty);
    assert_eq!(white, black);
}

#[test]
fn changes_beyond_four_are_not_recorded() {
    let network = loaded(&file_of(&even_tables(Arch::HalfKAv2, 13)));
    let before = FenBoard::parse("4k3/8/8/8/8/8/8/4K3 w").unwrap();
    let four = FenBoard::parse("4k3/8/8/8/8/8/PPPP4/4K3 w").unwrap();
    let five = FenBoard::parse("4k3/8/8/8/8/8/PPPPP3/4K3 w").unwrap();
    let parent = network.accumulator(&before);
    let mut child = network.empty_accumulator();
    network.update(&before, &five, &parent, &mut child);
    assert_eq!(both_scores(&network, &child), both_scores(&network, &network.accumulator(&four)));
}

#[test]
fn refusals_leave_the_reader_behind_what_was_read() {
    let check = |bytes: &[u8], consumed: usize| {
        let mut reader = Reader::new(bytes);
        assert!(Network::from_reader(&mut reader).is_err());
        assert_eq!(reader.remaining(), bytes.len() - consumed);
    };
    let mut bytes = header(0x7AF32F17);
    bytes.extend_from_slice(&[0; 40]);
    check(&bytes, 17);
    let mut bytes = header(0x7AF32F20);
    bytes.extend_from_slice(&[0; 40]);
    check(&bytes, 21);
    let mut bytes = header(0x7AF32F20);
    put_u32(&mut bytes, 0x7f234cb8 ^ 32);
    let start = bytes.len();
    put_leb(&mut bytes, &[1; 16]);
    let end = bytes.len();
    bytes.extend_from_slice(&[0; 40]);
    // the opening text of the second block is wrong
    check(&bytes, end + 17);
    // the first block holds a number too few
    let mut short = bytes[..start].to_vec();
    put_leb(&mut short, &[1; 15]);
    let end = short.len();
    short.extend_from_slice(&[0; 40]);
    check(&short, end);
}
