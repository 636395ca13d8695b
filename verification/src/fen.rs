//! Positions in Forsyth-Edwards notation.
//!
//! Of the fields of a record only the first two are read: the placement of the
//! pieces and the side to move.

use crate::laws::every_piece_is_counted;
use crate::model::NetworkModel;
use crate::types::{distinct_squares, piece_at, Board, Color, Piece, PieceKind, Position};
use vstd::prelude::*;

verus! {

/// What separates the fields of a record.
pub open spec fn is_space(c: char) -> bool {
    c == ' ' || c == '\t' || c == '\n' || c == '\r'
}

/// `s` without the spaces at its front.
pub open spec fn trimmed(s: Seq<char>) -> Seq<char>
    decreases s.len(),
{
    if s.len() > 0 && is_space(s[0]) {
        trimmed(s.skip(1))
    } else {
        s
    }
}

/// The number of characters of `s` before the first space.
pub open spec fn word_len(s: Seq<char>) -> nat
    decreases s.len(),
{
    if s.len() == 0 || is_space(s[0]) {
        0
    } else {
        1 + word_len(s.skip(1))
    }
}

/// The first field of `s`.
pub open spec fn first_field(s: Seq<char>) -> Seq<char> {
    trimmed(s).take(word_len(trimmed(s)) as int)
}

/// What follows the first field of `s`.
pub open spec fn other_fields(s: Seq<char>) -> Seq<char> {
    trimmed(s).skip(word_len(trimmed(s)) as int)
}

/// The kind of piece that a capital letter stands for.
pub open spec fn kind_for(c: char) -> Option<PieceKind> {
    if c == 'P' {
        Some(PieceKind::Pawn)
    } else if c == 'N' {
        Some(PieceKind::Knight)
    } else if c == 'B' {
        Some(PieceKind::Bishop)
    } else if c == 'R' {
        Some(PieceKind::Rook)
    } else if c == 'Q' {
        Some(PieceKind::Queen)
    } else if c == 'K' {
        Some(PieceKind::King)
    } else {
        None
    }
}

/// The piece that a letter stands for: capitals are White's.
pub open spec fn piece_for(c: char) -> Option<Piece> {
    match kind_for(c) {
        Some(kind) => Some(Piece { color: Color::White, kind }),
        None => if 'a' <= c <= 'z' {
            match kind_for((c as int - 32) as char) {
                Some(kind) => Some(Piece { color: Color::Black, kind }),
                None => None,
            }
        } else {
            None
        },
    }
}

/// How far a placement has been read: the next square to fill is on `file` of
/// `rank`, and `pieces` have been placed.
pub struct Progress {
    pub rank: int,
    pub file: int,
    pub pieces: Seq<(u8, Piece)>,
}

impl Progress {
    /// Reads one character: a slash ends a full rank, a digit leaves squares
    /// empty, a letter places a piece.
    pub open spec fn read(self, c: char) -> Option<Progress> {
        if c == '/' {
            if self.file == 8 && self.rank > 0 {
                Some(Progress { rank: self.rank - 1, file: 0, pieces: self.pieces })
            } else {
                None
            }
        } else if '1' <= c <= '8' {
            if self.file + (c as int - 48) <= 8 {
                Some(
                    Progress {
                        rank: self.rank,
                        file: self.file + (c as int - 48),
                        pieces: self.pieces,
                    },
                )
            } else {
                None
            }
        } else {
            match piece_for(c) {
                Some(piece) if self.file < 8 => Some(
                    Progress {
                        rank: self.rank,
                        file: self.file + 1,
                        pieces: self.pieces.push(((8 * self.rank + self.file) as u8, piece)),
                    },
                ),
                _ => None,
            }
        }
    }

    /// The next square is on the board or at the end of a rank, and every
    /// piece stands on a square before it.
    pub open spec fn inv(self) -> bool {
        &&& 0 <= self.rank <= 7
        &&& 0 <= self.file <= 8
        &&& distinct_squares(self.pieces)
        &&& forall|i: int|
            0 <= i < self.pieces.len() ==> {
                let sq = (#[trigger] self.pieces[i]).0 as int;
                sq < 64 && (sq / 8 > self.rank || (sq / 8 == self.rank && sq % 8 < self.file))
            }
    }
}

/// How far a placement is read by the characters of `s`, if all can be read.
pub open spec fn progress(s: Seq<char>) -> Option<Progress>
    decreases s.len(),
{
    if s.len() == 0 {
        Some(Progress { rank: 7, file: 0, pieces: Seq::empty() })
    } else {
        match progress(s.drop_last()) {
            Some(before) => before.read(s.last()),
            None => None,
        }
    }
}

/// The pieces that the placement `s` puts on the board: eight ranks from the
/// eighth down, each of them from the a-file on.
pub open spec fn placement(s: Seq<char>) -> Option<Seq<(u8, Piece)>> {
    match progress(s) {
        Some(done) if done.rank == 0 && done.file == 8 => Some(done.pieces),
        _ => None,
    }
}

/// The player that the second field names.
pub open spec fn mover(s: Seq<char>) -> Option<Color> {
    if s == seq!['w'] {
        Some(Color::White)
    } else if s == seq!['b'] {
        Some(Color::Black)
    } else {
        None
    }
}

/// The squares of the kings of one player.
pub open spec fn kings(pieces: Seq<(u8, Piece)>, color: Color) -> Seq<u8>
    decreases pieces.len(),
{
    if pieces.len() == 0 {
        Seq::empty()
    } else {
        let before = kings(pieces.drop_last(), color);
        if pieces.last().1 == (Piece { color, kind: PieceKind::King }) {
            before.push(pieces.last().0)
        } else {
            before
        }
    }
}

/// The position that a record describes, or what is wrong with it.
pub open spec fn parsed(s: Seq<char>) -> Result<Position, Seq<char>> {
    match placement(first_field(s)) {
        None => Err("bad piece placement"@),
        Some(pieces) => match mover(first_field(other_fields(s))) {
            None => Err("bad side to move"@),
            Some(stm) => {
                let white = kings(pieces, Color::White);
                let black = kings(pieces, Color::Black);
                if white.len() != 1 || black.len() != 1 {
                    Err("each side must have one king"@)
                } else if pieces.len() > 32 {
                    Err("more than 32 pieces"@)
                } else {
                    Ok(Position { pieces, white_king: white[0], black_king: black[0], stm })
                }
            },
        },
    }
}

proof fn lemma_progress(s: Seq<char>)
    ensures
        progress(s) matches Some(p) ==> p.inv(),
    decreases s.len(),
{
    if s.len() > 0 {
        lemma_progress(s.drop_last());
    }
}

proof fn lemma_kings(pieces: Seq<(u8, Piece)>, color: Color)
    ensures
        forall|i: int|
            0 <= i < kings(pieces, color).len() ==> pieces.contains(
                (#[trigger] kings(pieces, color)[i], Piece { color, kind: PieceKind::King }),
            ),
    decreases pieces.len(),
{
    let king = Piece { color, kind: PieceKind::King };
    if pieces.len() > 0 {
        lemma_kings(pieces.drop_last(), color);
        assert forall|i: int| 0 <= i < kings(pieces, color).len() implies pieces.contains(
            (#[trigger] kings(pieces, color)[i], king),
        ) by {
            let before = kings(pieces.drop_last(), color);
            if i < before.len() {
                assert(pieces.drop_last().contains((before[i], king)));
                let k = choose|k: int|
                    0 <= k < pieces.len() - 1 && pieces.drop_last()[k] == (before[i], king);
                assert(pieces[k] == (before[i], king));
            } else {
                assert(pieces[pieces.len() - 1] == (kings(pieces, color)[i], king));
            }
        }
    }
}

/// A position that is read from a record is one that every network can score:
/// its squares are on the board, no square is used twice, each king stands
/// where the position says, and there are 2 to 32 pieces.
pub proof fn parsed_is_playable(s: Seq<char>)
    ensures
        parsed(s) matches Ok(pos) ==> {
            &&& pos.valid()
            &&& pos.distinct()
            &&& 2 <= pos.pieces.len() <= 32
            &&& pos.pieces.contains(
                (pos.white_king, Piece { color: Color::White, kind: PieceKind::King }),
            )
            &&& pos.pieces.contains(
                (pos.black_king, Piece { color: Color::Black, kind: PieceKind::King }),
            )
        },
{
    lemma_progress(first_field(s));
    if let Ok(pos) = parsed(s) {
        lemma_kings(pos.pieces, Color::White);
        lemma_kings(pos.pieces, Color::Black);
        let white = (pos.white_king, Piece { color: Color::White, kind: PieceKind::King });
        let black = (pos.black_king, Piece { color: Color::Black, kind: PieceKind::King });
        assert(kings(pos.pieces, Color::White)[0] == pos.white_king);
        assert(kings(pos.pieces, Color::Black)[0] == pos.black_king);
        assert(pos.pieces.contains(white));
        assert(pos.pieces.contains(black));
        let i = choose|i: int| 0 <= i < pos.pieces.len() && pos.pieces[i] == white;
        let j = choose|j: int| 0 <= j < pos.pieces.len() && pos.pieces[j] == black;
        assert(i != j);
    }
}

/// The letter of a kind of piece.
pub open spec fn kind_letter(kind: PieceKind) -> char {
    match kind {
        PieceKind::Pawn => 'P',
        PieceKind::Knight => 'N',
        PieceKind::Bishop => 'B',
        PieceKind::Rook => 'R',
        PieceKind::Queen => 'Q',
        PieceKind::King => 'K',
    }
}

/// What stands for a square in a placement: a letter for a piece, and `1` where
/// there is none.
pub open spec fn square_text(piece: Option<Piece>) -> char {
    match piece {
        Some(p) => match p.color {
            Color::White => kind_letter(p.kind),
            Color::Black => (kind_letter(p.kind) as int + 32) as char,
        },
        None => '1',
    }
}

/// The text of the ranks above `rank` and of the first `files` squares of it.
pub open spec fn board_text(
    board: spec_fn(int) -> Option<Piece>,
    rank: int,
    files: nat,
) -> Seq<char>
    decreases 7 - rank, files,
    when rank <= 7
{
    if files > 0 {
        board_text(board, rank, (files - 1) as nat).push(square_text(board(8 * rank + files - 1)))
    } else if rank == 7 {
        Seq::empty()
    } else {
        board_text(board, rank + 1, 8).push('/')
    }
}

/// The pieces placed so far are those of the board, square by square.
spec fn agrees(board: spec_fn(int) -> Option<Piece>, p: Progress) -> bool {
    forall|sq: int|
        0 <= sq < 64 ==> #[trigger] piece_at(p.pieces, sq) == if sq / 8 > p.rank || sq / 8 == p.rank
            && sq % 8 < p.file {
            board(sq)
        } else {
            None
        }
}

proof fn lemma_square_text(piece: Option<Piece>)
    ensures
        piece_for(square_text(piece)) == piece,
        square_text(piece) != '/',
        '1' <= square_text(piece) <= '8' ==> piece is None,
        piece is None ==> square_text(piece) == '1',
{
}

proof fn lemma_board_text(board: spec_fn(int) -> Option<Piece>, rank: int, files: nat)
    requires
        0 <= rank <= 7,
        files <= 8,
    ensures
        progress(board_text(board, rank, files)) matches Some(p) && p.rank == rank && p.file
            == files && agrees(board, p),
    decreases 7 - rank, files,
{
    let text = board_text(board, rank, files);
    if files > 0 {
        let sq = 8 * rank + files - 1;
        let before = board_text(board, rank, (files - 1) as nat);
        lemma_board_text(board, rank, (files - 1) as nat);
        assert(text.drop_last() =~= before);
        lemma_square_text(board(sq));
        let p = progress(before)->0;
        let q = p.read(square_text(board(sq)))->0;
        assert forall|x: int| 0 <= x < 64 implies #[trigger] piece_at(q.pieces, x) == if x / 8
            > rank || x / 8 == rank && x % 8 < files {
            board(x)
        } else {
            None
        } by {
            assert(piece_at(p.pieces, x) == if x / 8 > rank || x / 8 == rank && x % 8 < files - 1 {
                board(x)
            } else {
                None
            });
            if let Some(piece) = board(sq) {
                assert(q.pieces.drop_last() =~= p.pieces);
                assert(q.pieces.last() == (sq as u8, piece));
            }
        }
    } else if rank < 7 {
        let before = board_text(board, rank + 1, 8);
        lemma_board_text(board, rank + 1, 8);
        assert(text.drop_last() =~= before);
        let p = progress(before)->0;
        let q = p.read('/')->0;
        assert forall|x: int| 0 <= x < 64 implies #[trigger] piece_at(q.pieces, x) == if x / 8
            > rank {
            board(x)
        } else {
            None
        } by {
            assert(q.pieces == p.pieces);
        }
    }
}

/// Every arrangement of pieces can be written down, and reading it gives the
/// arrangement back.
pub proof fn written_board_is_read_back(board: spec_fn(int) -> Option<Piece>)
    ensures
        placement(board_text(board, 0, 8)) matches Some(pieces) && forall|sq: int|
            0 <= sq < 64 ==> #[trigger] piece_at(pieces, sq) == board(sq),
{
    lemma_board_text(board, 0, 8);
    let p = progress(board_text(board, 0, 8))->0;
    assert forall|sq: int| 0 <= sq < 64 implies #[trigger] piece_at(p.pieces, sq) == board(
        sq,
    ) by {}
}

/// The characters of a string.
fn characters(text: &str) -> (r: Vec<char>)
    ensures
        r@ == text@,
{
    let mut out: Vec<char> = Vec::new();
    for c in it: text.chars()
        invariant
            it.seq() == text@,
            out@ == it.seq().take(it.index() as int),
    {
        out.push(c);
        assert(out@ =~= it.seq().take(it.index() + 1));
    }
    assert(out@ =~= text@);
    out
}

fn space(c: char) -> (r: bool)
    ensures
        r == is_space(c),
{
    c == ' ' || c == '\t' || c == '\n' || c == '\r'
}

/// Finds the first field from place `from` on: its first place and the place
/// after its last one.
fn find_field(chars: &Vec<char>, from: usize) -> (r: (usize, usize))
    requires
        from <= chars@.len(),
    ensures
        r.0 <= r.1 <= chars@.len(),
        chars@.subrange(r.0 as int, r.1 as int) == first_field(chars@.skip(from as int)),
        chars@.skip(r.1 as int) == other_fields(chars@.skip(from as int)),
{
    let ghost s = chars@;
    let mut start: usize = from;
    while start < chars.len() && space(chars[start])
        invariant
            s == chars@,
            from <= start <= s.len(),
            trimmed(s.skip(from as int)) == trimmed(s.skip(start as int)),
        decreases chars.len() - start,
    {
        assert(s.skip(start as int).skip(1) =~= s.skip(start + 1));
        start = start + 1;
    }
    let ghost word = s.skip(start as int);
    assert(trimmed(s.skip(from as int)) == word);
    let mut end: usize = start;
    while end < chars.len() && !space(chars[end])
        invariant
            s == chars@,
            word == s.skip(start as int),
            start <= end <= s.len(),
            word_len(word) == end - start + word_len(s.skip(end as int)),
        decreases chars.len() - end,
    {
        assert(s.skip(end as int).skip(1) =~= s.skip(end + 1));
        end = end + 1;
    }
    assert(word_len(word) == end - start);
    assert(s.subrange(start as int, end as int) =~= word.take(end - start));
    assert(s.skip(end as int) =~= word.skip(end - start));
    (start, end)
}

/// The piece that a letter stands for.
fn letter(c: char) -> (r: Option<Piece>)
    ensures
        r == piece_for(c),
{
    match c {
        'P' => Some(Piece::new(Color::White, PieceKind::Pawn)),
        'N' => Some(Piece::new(Color::White, PieceKind::Knight)),
        'B' => Some(Piece::new(Color::White, PieceKind::Bishop)),
        'R' => Some(Piece::new(Color::White, PieceKind::Rook)),
        'Q' => Some(Piece::new(Color::White, PieceKind::Queen)),
        'K' => Some(Piece::new(Color::White, PieceKind::King)),
        'p' => Some(Piece::new(Color::Black, PieceKind::Pawn)),
        'n' => Some(Piece::new(Color::Black, PieceKind::Knight)),
        'b' => Some(Piece::new(Color::Black, PieceKind::Bishop)),
        'r' => Some(Piece::new(Color::Black, PieceKind::Rook)),
        'q' => Some(Piece::new(Color::Black, PieceKind::Queen)),
        'k' => Some(Piece::new(Color::Black, PieceKind::King)),
        _ => None,
    }
}

/// The pieces that the placement between two places puts on the board.
fn read_placement(chars: &Vec<char>, start: usize, end: usize) -> (r: Option<Vec<(u8, Piece)>>)
    requires
        start <= end <= chars@.len(),
    ensures
        match placement(chars@.subrange(start as int, end as int)) {
            Some(pieces) => r matches Some(v) && v@ == pieces,
            None => r is None,
        },
{
    let ghost s = chars@.subrange(start as int, end as int);
    let mut rank: u8 = 7;
    let mut file: u8 = 0;
    let mut pieces: Vec<(u8, Piece)> = Vec::new();
    let mut i: usize = start;
    assert(s.take(0) =~= Seq::empty());
    while i < end
        invariant
            start <= i <= end <= chars@.len(),
            s == chars@.subrange(start as int, end as int),
            rank <= 7,
            file <= 8,
            progress(s.take(i - start)) == Some(
                (Progress { rank: rank as int, file: file as int, pieces: pieces@ }),
            ),
        decreases end - i,
    {
        let c: char = chars[i];
        let ghost before = Progress { rank: rank as int, file: file as int, pieces: pieces@ };
        proof {
            let n = i - start;
            assert(s.take(n + 1).drop_last() =~= s.take(n));
            assert(s.take(n + 1).last() == c);
            if before.read(c) is None {
                lemma_stuck(s, (n + 1) as nat);
            }
        }
        if c == '/' {
            if file != 8 || rank == 0 {
                return None;
            }
            rank = rank - 1;
            file = 0;
        } else if '1' <= c && c <= '8' {
            let gap: u8 = (c as u32 - 48) as u8;
            if file + gap > 8 {
                return None;
            }
            file = file + gap;
        } else {
            match letter(c) {
                Some(piece) => {
                    if file >= 8 {
                        return None;
                    }
                    pieces.push((8 * rank + file, piece));
                    file = file + 1;
                },
                None => {
                    return None;
                },
            }
        }
        i = i + 1;
    }
    assert(s.take(end - start) =~= s);
    if rank == 0 && file == 8 {
        Some(pieces)
    } else {
        None
    }
}

/// A placement of which the first `n` characters cannot be read is no placement.
proof fn lemma_stuck(s: Seq<char>, n: nat)
    requires
        n <= s.len(),
        progress(s.take(n as int)) is None,
    ensures
        progress(s) is None,
    decreases s.len() - n,
{
    if n < s.len() {
        assert(s.take((n + 1) as int).drop_last() =~= s.take(n as int));
        lemma_stuck(s, n + 1);
    } else {
        assert(s.take(n as int) =~= s);
    }
}

/// The player that the field between two places names.
fn read_mover(chars: &Vec<char>, start: usize, end: usize) -> (r: Option<Color>)
    requires
        start <= end <= chars@.len(),
    ensures
        r == mover(chars@.subrange(start as int, end as int)),
{
    let ghost s = chars@.subrange(start as int, end as int);
    assert(seq!['w'].len() == 1 && seq!['b'].len() == 1);
    if end - start != 1 {
        return None;
    }
    assert(s =~= seq![chars@[start as int]]);
    assert(seq!['w'][0] == 'w' && seq!['b'][0] == 'b');
    match chars[start] {
        'w' => Some(Color::White),
        'b' => Some(Color::Black),
        _ => {
            assert(s[0] != 'w' && s[0] != 'b');
            None
        },
    }
}

/// The square of the only king of one player, if there is exactly one.
fn only_king(pieces: &Vec<(u8, Piece)>, color: Color) -> (r: Option<u8>)
    ensures
        match r {
            Some(sq) => kings(pieces@, color).len() == 1 && kings(pieces@, color)[0] == sq,
            None => kings(pieces@, color).len() != 1,
        },
{
    let mut found: usize = 0;
    let mut square: u8 = 0;
    let mut i: usize = 0;
    while i < pieces.len()
        invariant
            i <= pieces@.len(),
            found <= i,
            found == kings(pieces@.take(i as int), color).len(),
            found >= 1 ==> square == kings(pieces@.take(i as int), color).last(),
        decreases pieces.len() - i,
    {
        assert(pieces@.take(i + 1).drop_last() =~= pieces@.take(i as int));
        let (sq, piece) = pieces[i];
        if piece.color == color && piece.kind == PieceKind::King {
            found = found + 1;
            square = sq;
        }
        i = i + 1;
    }
    assert(pieces@.take(i as int) =~= pieces@);
    if found == 1 {
        Some(square)
    } else {
        None
    }
}

/// A position read from a FEN record.
pub struct FenBoard {
    pieces: Vec<(u8, Piece)>,
    white_king: u8,
    black_king: u8,
    stm: Color,
}

impl FenBoard {
    /// Reads a position from a FEN record. The error says what is wrong with it.
    ///
    /// Every position that is read can be evaluated by every network.
    pub fn parse(fen: &str) -> (r: Result<Self, String>)
        ensures
            match parsed(fen@) {
                Ok(position) => {
                    &&& r matches Ok(board) && board.position() == position
                    &&& position.valid()
                    &&& position.distinct()
                    &&& forall|net: NetworkModel| 1 <= #[trigger] net.piece_count(position) <= 32
                },
                Err(message) => r matches Err(e) && e@ == message,
            },
    {
        proof {
            parsed_is_playable(fen@);
            if let Ok(position) = parsed(fen@) {
                assert forall|net: NetworkModel|
                    1 <= #[trigger] net.piece_count(position) <= 32 by {
                    every_piece_is_counted(net, position);
                }
            }
        }
        let chars: Vec<char> = characters(fen);
        assert(chars@.skip(0) =~= chars@);
        let (start, end): (usize, usize) = find_field(&chars, 0);
        let pieces: Vec<(u8, Piece)> = match read_placement(&chars, start, end) {
            Some(pieces) => pieces,
            None => {
                return Err("bad piece placement".to_owned());
            },
        };
        let (start, end): (usize, usize) = find_field(&chars, end);
        let stm: Color = match read_mover(&chars, start, end) {
            Some(stm) => stm,
            None => {
                return Err("bad side to move".to_owned());
            },
        };
        let white: Option<u8> = only_king(&pieces, Color::White);
        let black: Option<u8> = only_king(&pieces, Color::Black);
        match (white, black) {
            (Some(white_king), Some(black_king)) => {
                if pieces.len() > 32 {
                    return Err("more than 32 pieces".to_owned());
                }
                Ok(FenBoard { pieces, white_king, black_king, stm })
            },
            _ => Err("each side must have one king".to_owned()),
        }
    }
}

impl Board for FenBoard {
    closed spec fn position(&self) -> Position {
        Position {
            pieces: self.pieces@,
            white_king: self.white_king,
            black_king: self.black_king,
            stm: self.stm,
        }
    }

    fn side_to_move(&self) -> Color {
        self.stm
    }

    fn king_square(&self, color: Color) -> u8 {
        match color {
            Color::White => self.white_king,
            Color::Black => self.black_king,
        }
    }

    fn for_each_piece(&self) -> Vec<(u8, Piece)> {
        let mut out: Vec<(u8, Piece)> = Vec::with_capacity(self.pieces.len());
        let mut i: usize = 0;
        while i < self.pieces.len()
            invariant
                i <= self.pieces@.len(),
                out@ == self.pieces@.take(i as int),
            decreases self.pieces.len() - i,
        {
            out.push(self.pieces[i]);
            i = i + 1;
            assert(out@ =~= self.pieces@.take(i as int));
        }
        assert(out@ =~= self.pieces@);
        out
    }
}

} // verus!
