//! What FEN records say, text by text.

use crate::fen::{
    first_field, kings, other_fields, parsed, piece_for, placement, progress, trimmed, word_len,
    Progress,
};
use crate::types::{piece_at, Color, Piece, PieceKind};
use vstd::prelude::*;

verus! {

/// Reading a text character by character, from `p` on.
pub open spec fn read_on(p: Option<Progress>, text: Seq<char>) -> Option<Progress>
    decreases text.len(),
{
    if text.len() == 0 {
        p
    } else {
        match p {
            Some(q) => read_on(q.read(text[0]), text.skip(1)),
            None => None,
        }
    }
}

/// A text is read part by part.
proof fn lemma_read_on(text: Seq<char>, more: Seq<char>)
    ensures
        progress(text + more) == read_on(progress(text), more),
    decreases more.len(),
{
    if more.len() == 0 {
        assert(text + more =~= text);
    } else {
        let next = text.push(more[0]);
        lemma_read_on(next, more.skip(1));
        assert(next + more.skip(1) =~= text + more);
        assert(next.drop_last() =~= text);
        if progress(text) is None {
            lemma_read_none(more.skip(1));
        }
    }
}

proof fn lemma_read_none(text: Seq<char>)
    ensures
        read_on(None, text) is None,
{
}

/// Some ones.
pub open spec fn ones(n: nat) -> Seq<char> {
    Seq::new(n, |i: int| '1')
}

/// A digit leaves as many squares of the rank empty as it says, just as so many
/// ones would, and nothing more than the rank holds.
pub proof fn digits_are_runs(p: Progress, d: nat)
    requires
        1 <= d <= 8,
    ensures
        p.file + d <= 8 ==> p.read((48 + d) as char) == Some(
            (Progress { rank: p.rank, file: p.file + d, pieces: p.pieces }),
        ),
        p.file + d > 8 ==> p.read((48 + d) as char) is None,
        p.read((48 + d) as char) == read_on(Some(p), ones(d)),
    decreases d,
{
    let c = (48 + d) as char;
    assert('1' <= c <= '8' && c as int == 48 + d);
    if d == 1 {
        assert(ones(1)[0] == '1');
        assert(ones(1).skip(1) =~= Seq::empty());
        assert(read_on(p.read('1'), ones(1).skip(1)) == p.read('1'));
    } else {
        let next = Progress { rank: p.rank, file: p.file + 1, pieces: p.pieces };
        assert(ones(d)[0] == '1');
        assert(ones(d).skip(1) =~= ones((d - 1) as nat));
        if p.file + 1 <= 8 {
            digits_are_runs(next, (d - 1) as nat);
            assert(p.read('1') == Some(next));
        } else {
            lemma_read_none(ones((d - 1) as nat));
        }
    }
}

/// The letters of the pieces: capitals are White's, small letters Black's, and
/// no other character is a piece.
pub proof fn letters_are_pieces(c: char)
    ensures
        piece_for('P') == Some((Piece { color: Color::White, kind: PieceKind::Pawn })),
        piece_for('N') == Some((Piece { color: Color::White, kind: PieceKind::Knight })),
        piece_for('B') == Some((Piece { color: Color::White, kind: PieceKind::Bishop })),
        piece_for('R') == Some((Piece { color: Color::White, kind: PieceKind::Rook })),
        piece_for('Q') == Some((Piece { color: Color::White, kind: PieceKind::Queen })),
        piece_for('K') == Some((Piece { color: Color::White, kind: PieceKind::King })),
        piece_for('p') == Some((Piece { color: Color::Black, kind: PieceKind::Pawn })),
        piece_for('n') == Some((Piece { color: Color::Black, kind: PieceKind::Knight })),
        piece_for('b') == Some((Piece { color: Color::Black, kind: PieceKind::Bishop })),
        piece_for('r') == Some((Piece { color: Color::Black, kind: PieceKind::Rook })),
        piece_for('q') == Some((Piece { color: Color::Black, kind: PieceKind::Queen })),
        piece_for('k') == Some((Piece { color: Color::Black, kind: PieceKind::King })),
        piece_for(c) is Some ==> c == 'P' || c == 'N' || c == 'B' || c == 'R' || c == 'Q' || c
            == 'K' || c == 'p' || c == 'n' || c == 'b' || c == 'r' || c == 'q' || c == 'k',
{
}

/// The letter of a piece.
pub open spec fn piece_letter(piece: Piece) -> char {
    match (piece.color, piece.kind) {
        (Color::White, PieceKind::Pawn) => 'P',
        (Color::White, PieceKind::Knight) => 'N',
        (Color::White, PieceKind::Bishop) => 'B',
        (Color::White, PieceKind::Rook) => 'R',
        (Color::White, PieceKind::Queen) => 'Q',
        (Color::White, PieceKind::King) => 'K',
        (Color::Black, PieceKind::Pawn) => 'p',
        (Color::Black, PieceKind::Knight) => 'n',
        (Color::Black, PieceKind::Bishop) => 'b',
        (Color::Black, PieceKind::Rook) => 'r',
        (Color::Black, PieceKind::Queen) => 'q',
        (Color::Black, PieceKind::King) => 'k',
    }
}

/// The number of empty squares of a rank from `file` on, up to the next piece.
pub open spec fn empty_run(board: spec_fn(int) -> Option<Piece>, rank: int, file: int) -> nat
    decreases 8 - file,
{
    if file >= 8 || board(8 * rank + file) is Some {
        0
    } else {
        1 + empty_run(board, rank, file + 1)
    }
}

/// The usual text of a rank from `file` on: a letter for a piece, and a digit
/// for a run of empty squares.
pub open spec fn rank_text(
    board: spec_fn(int) -> Option<Piece>,
    rank: int,
    file: int,
) -> Seq<char>
    decreases 8 - file,
{
    if file >= 8 {
        Seq::empty()
    } else {
        match board(8 * rank + file) {
            Some(piece) => seq![piece_letter(piece)] + rank_text(board, rank, file + 1),
            None => {
                let run = empty_run(board, rank, file);
                if run == 0 || file + run > 8 {
                    Seq::empty()
                } else {
                    seq![(48 + run) as char] + rank_text(board, rank, file + run)
                }
            },
        }
    }
}

/// The usual text of the ranks from the eighth down to `rank`.
pub open spec fn ranks_text(board: spec_fn(int) -> Option<Piece>, rank: int) -> Seq<char>
    decreases 7 - rank,
{
    if rank >= 7 {
        rank_text(board, 7, 0)
    } else {
        ranks_text(board, rank + 1).push('/') + rank_text(board, rank, 0)
    }
}

/// The pieces placed so far are those of the board, square by square.
spec fn agrees(board: spec_fn(int) -> Option<Piece>, p: Progress) -> bool {
    forall|sq: int|
        0 <= sq < 64 ==> #[trigger] piece_at(p.pieces, sq) == if sq / 8 > p.rank || sq / 8 == p.rank
            && sq % 8 < p.file {
            board(sq)
        } else {
            None
        }
}

proof fn lemma_empty_run(board: spec_fn(int) -> Option<Piece>, rank: int, file: int)
    requires
        0 <= file <= 8,
    ensures
        file + empty_run(board, rank, file) <= 8,
        file < 8 && board(8 * rank + file) is None ==> empty_run(board, rank, file) > 0,
        forall|f: int|
            file <= f < file + empty_run(board, rank, file) ==> #[trigger] board(8 * rank + f)
                is None,
    decreases 8 - file,
{
    if file < 8 && board(8 * rank + file) is None {
        lemma_empty_run(board, rank, file + 1);
        let run = empty_run(board, rank, file);
        assert forall|f: int| file <= f < file + run implies #[trigger] board(8 * rank + f) is None
            by {
            if f > file {
                assert(file + 1 <= f < file + 1 + empty_run(board, rank, file + 1));
            }
        }
    }
}

/// Reading the text of a rank from `p.file` on fills the rank.
proof fn lemma_rank_text(board: spec_fn(int) -> Option<Piece>, p: Progress)
    requires
        0 <= p.rank <= 7,
        0 <= p.file <= 8,
        agrees(board, p),
    ensures
        read_on(Some(p), rank_text(board, p.rank, p.file)) matches Some(q) && q.rank == p.rank
            && q.file == 8 && agrees(board, q),
    decreases 8 - p.file,
{
    let text = rank_text(board, p.rank, p.file);
    if p.file < 8 {
        let sq = 8 * p.rank + p.file;
        match board(sq) {
            Some(piece) => {
                let rest = rank_text(board, p.rank, p.file + 1);
                assert(text[0] == piece_letter(piece) && text.skip(1) =~= rest);
                letters_are_pieces(piece_letter(piece));
                let q = Progress {
                    rank: p.rank,
                    file: p.file + 1,
                    pieces: p.pieces.push((sq as u8, piece)),
                };
                assert(p.read(piece_letter(piece)) == Some(q));
                assert forall|x: int| 0 <= x < 64 implies #[trigger] piece_at(q.pieces, x) == if x
                    / 8 > q.rank || x / 8 == q.rank && x % 8 < q.file {
                    board(x)
                } else {
                    None
                } by {
                    assert(q.pieces.drop_last() =~= p.pieces);
                    assert(piece_at(p.pieces, x) == if x / 8 > p.rank || x / 8 == p.rank && x % 8
                        < p.file {
                        board(x)
                    } else {
                        None
                    });
                }
                lemma_rank_text(board, q);
            },
            None => {
                lemma_empty_run(board, p.rank, p.file);
                let run = empty_run(board, p.rank, p.file);
                let rest = rank_text(board, p.rank, p.file + run);
                assert(text[0] == (48 + run) as char && text.skip(1) =~= rest);
                digits_are_runs(p, run);
                let q = Progress { rank: p.rank, file: p.file + run, pieces: p.pieces };
                assert forall|x: int| 0 <= x < 64 implies #[trigger] piece_at(q.pieces, x) == if x
                    / 8 > q.rank || x / 8 == q.rank && x % 8 < q.file {
                    board(x)
                } else {
                    None
                } by {
                    if x / 8 == p.rank && p.file <= x % 8 < p.file + run {
                        assert(x == 8 * p.rank + x % 8);
                        assert(board(8 * p.rank + x % 8) is None);
                    }
                }
                lemma_rank_text(board, q);
            },
        }
    } else {
        assert(text =~= Seq::empty());
    }
}

proof fn lemma_ranks_text(board: spec_fn(int) -> Option<Piece>, rank: int)
    requires
        0 <= rank <= 7,
    ensures
        progress(ranks_text(board, rank)) matches Some(p) && p.rank == rank && p.file == 8
            && agrees(board, p),
    decreases 7 - rank,
{
    let line = rank_text(board, rank, 0);
    if rank == 7 {
        let none = Seq::<char>::empty();
        let start = Progress { rank: 7, file: 0, pieces: Seq::empty() };
        assert(progress(none) == Some(start));
        lemma_rank_text(board, start);
        lemma_read_on(none, line);
        assert(none + line =~= line);
    } else {
        lemma_ranks_text(board, rank + 1);
        let above = ranks_text(board, rank + 1);
        let p = progress(above)->0;
        let q = Progress { rank, file: 0, pieces: p.pieces };
        assert(above.push('/').drop_last() =~= above);
        assert(progress(above.push('/')) == Some(q));
        assert(agrees(board, q));
        lemma_rank_text(board, q);
        lemma_read_on(above.push('/'), line);
    }
}

/// Every arrangement of pieces, in its usual text, with runs of empty squares as
/// digits, is read as that arrangement.
pub proof fn usual_text_is_read_back(board: spec_fn(int) -> Option<Piece>)
    ensures
        placement(ranks_text(board, 0)) matches Some(pieces) && forall|sq: int|
            0 <= sq < 64 ==> #[trigger] piece_at(pieces, sq) == board(sq),
{
    lemma_ranks_text(board, 0);
    let p = progress(ranks_text(board, 0))->0;
    assert forall|sq: int| 0 <= sq < 64 implies #[trigger] piece_at(p.pieces, sq) == board(
        sq,
    ) by {}
}

/// A space, a tab, or the end of a line.
pub open spec fn blank(c: char) -> bool {
    c == ' ' || c == '\t' || c == '\n' || c == '\r'
}

/// Nothing but blanks.
pub open spec fn all_blank(s: Seq<char>) -> bool {
    forall|i: int| 0 <= i < s.len() ==> blank(#[trigger] s[i])
}

/// No blanks at all.
pub open spec fn no_blank(s: Seq<char>) -> bool {
    forall|i: int| 0 <= i < s.len() ==> !blank(#[trigger] s[i])
}

proof fn lemma_trimmed(lead: Seq<char>, s: Seq<char>)
    requires
        all_blank(lead),
        s.len() > 0 ==> !blank(s[0]),
    ensures
        trimmed(lead + s) == s,
    decreases lead.len(),
{
    let all = lead + s;
    if lead.len() == 0 {
        assert(all =~= s);
    } else {
        assert(all[0] == lead[0] && blank(lead[0]));
        assert(all.skip(1) =~= lead.skip(1) + s);
        assert forall|i: int| 0 <= i < lead.skip(1).len() implies blank(
            #[trigger] lead.skip(1)[i],
        ) by {
            assert(lead.skip(1)[i] == lead[i + 1]);
        }
        lemma_trimmed(lead.skip(1), s);
    }
}

proof fn lemma_word_len(word: Seq<char>, tail: Seq<char>)
    requires
        no_blank(word),
        tail.len() > 0 ==> blank(tail[0]),
    ensures
        word_len(word + tail) == word.len(),
    decreases word.len(),
{
    let all = word + tail;
    if word.len() == 0 {
        assert(all =~= tail);
    } else {
        assert(all[0] == word[0] && !blank(word[0]));
        assert(all.skip(1) =~= word.skip(1) + tail);
        assert forall|i: int| 0 <= i < word.skip(1).len() implies !blank(
            #[trigger] word.skip(1)[i],
        ) by {
            assert(word.skip(1)[i] == word[i + 1]);
        }
        lemma_word_len(word.skip(1), tail);
    }
}

/// Fields are what stands between blanks, however many: the first one, and what
/// follows it.
pub proof fn fields_are_between_blanks(lead: Seq<char>, word: Seq<char>, tail: Seq<char>)
    requires
        all_blank(lead),
        no_blank(word),
        word.len() == 0 ==> tail.len() == 0,
        tail.len() > 0 ==> blank(tail[0]),
    ensures
        first_field(lead + word + tail) == word,
        other_fields(lead + word + tail) == tail,
{
    let s = word + tail;
    assert(lead + word + tail =~= lead + s);
    if word.len() > 0 {
        assert(s[0] == word[0]);
    }
    lemma_trimmed(lead, s);
    lemma_word_len(word, tail);
    assert(s.take(word.len() as int) =~= word);
    assert(s.skip(word.len() as int) =~= tail);
}

/// Whether the piece listed at place `i` is a king of `color`.
pub open spec fn king_at(pieces: Seq<(u8, Piece)>, color: Color, i: int) -> bool {
    pieces[i].1.color == color && pieces[i].1.kind == PieceKind::King
}

/// Whether the piece listed at place `i` is the only king of `color`.
pub open spec fn only_king_at(pieces: Seq<(u8, Piece)>, color: Color, i: int) -> bool {
    &&& 0 <= i < pieces.len()
    &&& king_at(pieces, color, i)
    &&& forall|j: int| 0 <= j < pieces.len() && #[trigger] king_at(pieces, color, j) ==> j == i
}

proof fn lemma_no_kings(pieces: Seq<(u8, Piece)>, color: Color)
    ensures
        (forall|j: int| 0 <= j < pieces.len() ==> !#[trigger] king_at(pieces, color, j)) ==> kings(
            pieces,
            color,
        ).len() == 0,
        kings(pieces, color).len() == 0 ==> forall|j: int|
            0 <= j < pieces.len() ==> !#[trigger] king_at(pieces, color, j),
    decreases pieces.len(),
{
    if pieces.len() > 0 {
        let before = pieces.drop_last();
        let n = pieces.len() - 1;
        lemma_no_kings(before, color);
        assert(king_at(pieces, color, n) == (pieces.last().1 == (Piece {
            color,
            kind: PieceKind::King,
        })));
        assert forall|j: int| 0 <= j < n implies #[trigger] king_at(pieces, color, j) == king_at(
            before,
            color,
            j,
        ) by {}
        assert forall|j: int| 0 <= j < n implies #[trigger] king_at(before, color, j) == king_at(
            pieces,
            color,
            j,
        ) by {}
    }
}

/// An only king is found.
pub proof fn only_kings_are_found(pieces: Seq<(u8, Piece)>, color: Color, i: int)
    requires
        only_king_at(pieces, color, i),
    ensures
        kings(pieces, color) == seq![pieces[i].0],
    decreases pieces.len(),
{
    let before = pieces.drop_last();
    let n = pieces.len() - 1;
    assert forall|j: int| 0 <= j < n implies #[trigger] king_at(before, color, j) == king_at(
        pieces,
        color,
        j,
    ) by {}
    if i == n {
        lemma_no_kings(before, color);
        assert(kings(before, color) =~= Seq::empty());
        assert(kings(pieces, color) =~= seq![pieces[i].0]);
    } else {
        assert(!king_at(pieces, color, n));
        only_kings_are_found(before, color, i);
    }
}

/// Where one king is found, there is an only king.
pub proof fn found_kings_are_only_kings(pieces: Seq<(u8, Piece)>, color: Color) -> (i: int)
    requires
        kings(pieces, color).len() == 1,
    ensures
        only_king_at(pieces, color, i),
        kings(pieces, color)[0] == pieces[i].0,
    decreases pieces.len(),
{
    let before = pieces.drop_last();
    let n = pieces.len() - 1;
    assert forall|j: int| 0 <= j < n implies #[trigger] king_at(pieces, color, j) == king_at(
        before,
        color,
        j,
    ) by {}
    if king_at(pieces, color, n) {
        lemma_no_kings(before, color);
        n
    } else {
        found_kings_are_only_kings(before, color)
    }
}

/// The record with the given fields and blanks.
pub open spec fn record(
    lead: Seq<char>,
    board: Seq<char>,
    gap: Seq<char>,
    side: Seq<char>,
    tail: Seq<char>,
) -> Seq<char> {
    lead + board + (gap + side + tail)
}

/// Whether the parts make up a record: blanks or nothing, a placement, blanks, a
/// side to move, and nothing more or a blank and more.
pub open spec fn is_record(
    lead: Seq<char>,
    board: Seq<char>,
    gap: Seq<char>,
    side: Seq<char>,
    tail: Seq<char>,
) -> bool {
    &&& all_blank(lead)
    &&& no_blank(board)
    &&& board.len() > 0
    &&& all_blank(gap)
    &&& gap.len() > 0
    &&& no_blank(side)
    &&& side.len() > 0
    &&& tail.len() > 0 ==> blank(tail[0])
}

/// A record with `w` or `b`, one king a side and at most 32 pieces describes the
/// position with the placed pieces, each king where it stands, and that player to
/// move.
pub proof fn records_describe_positions(
    lead: Seq<char>,
    board: Seq<char>,
    gap: Seq<char>,
    side: char,
    tail: Seq<char>,
    white: int,
    black: int,
)
    requires
        is_record(lead, board, gap, seq![side], tail),
        side == 'w' || side == 'b',
        placement(board) is Some,
        only_king_at(placement(board)->0, Color::White, white),
        only_king_at(placement(board)->0, Color::Black, black),
        (placement(board)->0).len() <= 32,
    ensures
        parsed(record(lead, board, gap, seq![side], tail)) matches Ok(pos) && {
            let pieces = placement(board)->0;
            &&& pos.pieces == pieces
            &&& pos.white_king == pieces[white].0
            &&& pos.black_king == pieces[black].0
            &&& (side == 'w' ==> pos.stm == Color::White)
            &&& (side == 'b' ==> pos.stm == Color::Black)
        },
{
    let rest = gap + seq![side] + tail;
    assert(rest[0] == gap[0]);
    fields_are_between_blanks(lead, board, rest);
    fields_are_between_blanks(gap, seq![side], tail);
    let pieces = placement(board)->0;
    only_kings_are_found(pieces, Color::White, white);
    only_kings_are_found(pieces, Color::Black, black);
    assert(seq![side][0] == side && seq!['w'][0] == 'w' && seq!['b'][0] == 'b');
    if side == 'w' {
        assert(seq![side] =~= seq!['w']);
    } else {
        assert(seq![side] =~= seq!['b']);
    }
}

/// Whatever is read is a record, and each of its conditions is met.
pub proof fn bad_records_are_refused(
    lead: Seq<char>,
    board: Seq<char>,
    gap: Seq<char>,
    side: Seq<char>,
    tail: Seq<char>,
)
    requires
        is_record(lead, board, gap, side, tail),
        parsed(record(lead, board, gap, side, tail)) is Ok,
    ensures
        placement(board) is Some,
        side.len() == 1,
        side[0] == 'w' || side[0] == 'b',
        (placement(board)->0).len() <= 32,
        exists|i: int| only_king_at(placement(board)->0, Color::White, i),
        exists|i: int| only_king_at(placement(board)->0, Color::Black, i),
{
    let rest = gap + side + tail;
    assert(rest[0] == gap[0]);
    fields_are_between_blanks(lead, board, rest);
    fields_are_between_blanks(gap, side, tail);
    assert(seq!['w'].len() == 1 && seq!['w'][0] == 'w' && seq!['b'].len() == 1 && seq!['b'][0]
        == 'b');
    let pieces = placement(board)->0;
    let i = found_kings_are_only_kings(pieces, Color::White);
    let j = found_kings_are_only_kings(pieces, Color::Black);
    assert(only_king_at(pieces, Color::White, i) && only_king_at(pieces, Color::Black, j));
}

} // verus!
