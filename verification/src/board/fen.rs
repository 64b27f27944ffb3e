//! Forsyth–Edwards Notation: reading a board from it and writing one out.
use vstd::prelude::*;
use vstd::string::StringExecFns;

use super::{Board, Position, CASTLE_BK, CASTLE_BQ, CASTLE_WK, CASTLE_WQ};
use crate::text::{
    collect_chars, decimal, digit_char, is_space, lemma_pieces_nonempty, pieces, push_chars, push_decimal,
    split_on, split_words, views, words,
};
use crate::types::{group_bitboard, in_bb, piece_char, piece_of_letter, square_text, square_to_uci, push_char, Color, Piece, PieceType, Square};

verus! {

broadcast use group_bitboard;

/// Why a FEN was refused.
pub enum FenError {
    FieldCount(nat),
    RankCount(nat),
    BadPiece(char),
    RankOverflow(Seq<char>),
    BadSide(Seq<char>),
    BadCastling(char),
    BadEnPassant(Seq<char>),
}

/// The message each refusal is reported with.
pub open spec fn fen_error_text(e: FenError) -> Seq<char> {
    match e {
        FenError::FieldCount(n) => "FEN needs at least placement and side, got "@ + decimal(n),
        FenError::RankCount(n) => "FEN board needs 8 ranks, got "@ + decimal(n),
        FenError::BadPiece(c) => "bad piece letter '"@ + seq![c] + "'"@,
        FenError::RankOverflow(t) => "rank '"@ + t + "' overflows"@,
        FenError::BadSide(t) => "bad side to move '"@ + t + "'"@,
        FenError::BadCastling(c) => "bad castling right '"@ + seq![c] + "'"@,
        FenError::BadEnPassant(t) => "bad ep '"@ + t + "'"@,
    }
}

/// The state of reading the placement field: the file the next symbol lands
/// on and the squares filled so far; or a refusal; or a file counter that no
/// longer fits its byte.
pub enum Scan {
    Going(int, Seq<Option<Piece>>),
    Failed(FenError),
    Overflow,
}

pub open spec fn is_digit(c: char) -> bool {
    48 <= c as u32 <= 57
}

pub open spec fn is_upper(c: char) -> bool {
    65 <= c as u32 <= 90
}

pub open spec fn to_lower(c: char) -> char {
    if is_upper(c) {
        (c as u32 + 32) as char
    } else {
        c
    }
}

/// Read one placement symbol of `text`, on rank `rank`.
pub open spec fn scan_step(st: Scan, c: char, rank: int, text: Seq<char>) -> Scan {
    match st {
        Scan::Going(file, sq) => if is_digit(c) {
            let next = file + (c as u32 - 48);
            if next > 255 {
                Scan::Overflow
            } else {
                Scan::Going(next, sq)
            }
        } else {
            match piece_of_letter(to_lower(c)) {
                None => Scan::Failed(FenError::BadPiece(c)),
                Some(pt) => if file > 7 {
                    Scan::Failed(FenError::RankOverflow(text))
                } else {
                    let color = if is_upper(c) {
                        Color::White
                    } else {
                        Color::Black
                    };
                    Scan::Going(
                        file + 1,
                        sq.update(rank * 8 + file, Some(Piece { color, piece_type: pt })),
                    )
                },
            }
        },
        _ => st,
    }
}

/// The state after reading the first `n` symbols of a rank's text.
pub open spec fn scan_rank(text: Seq<char>, rank: int, start: Scan, n: int) -> Scan
    decreases n,
{
    if n <= 0 {
        start
    } else {
        scan_step(scan_rank(text, rank, start, n - 1), text[n - 1], rank, text)
    }
}

pub open spec fn empty_squares() -> Seq<Option<Piece>> {
    Seq::new(64, |i: int| None)
}

/// The state after reading the first `k` ranks, the eighth rank first.
pub open spec fn scan_board(ranks: Seq<Seq<char>>, k: int) -> Scan
    decreases k,
{
    if k <= 0 {
        Scan::Going(0, empty_squares())
    } else {
        match scan_board(ranks, k - 1) {
            Scan::Going(_, sq) => scan_rank(
                ranks[k - 1],
                7 - (k - 1),
                Scan::Going(0, sq),
                ranks[k - 1].len() as int,
            ),
            other => other,
        }
    }
}

/// The right a castling letter grants.
pub open spec fn castle_bit(c: char) -> Option<u8> {
    if c == 'K' {
        Some(CASTLE_WK)
    } else if c == 'Q' {
        Some(CASTLE_WQ)
    } else if c == 'k' {
        Some(CASTLE_BK)
    } else if c == 'q' {
        Some(CASTLE_BQ)
    } else {
        None
    }
}

/// The rights granted by the first `n` letters, or the first letter that
/// grants none.
pub open spec fn scan_castling(text: Seq<char>, n: int) -> Result<u8, char>
    decreases n,
{
    if n <= 0 {
        Ok(0u8)
    } else {
        match scan_castling(text, n - 1) {
            Ok(rights) => match castle_bit(text[n - 1]) {
                Some(bit) => Ok(rights | bit),
                None => Err(text[n - 1]),
            },
            Err(c) => Err(c),
        }
    }
}

/// The square a two-character name such as `e3` denotes.
pub open spec fn square_of_chars(t: Seq<char>) -> Option<int> {
    if t.len() == 2 && 97 <= t[0] as u32 <= 104 && 49 <= t[1] as u32 <= 56 {
        Some((t[1] as u32 - 49) * 8 + (t[0] as u32 - 97))
    } else {
        None
    }
}

/// The value of a run of decimal digits.
pub open spec fn digits_value(s: Seq<char>) -> int
    decreases s.len(),
{
    if s.len() == 0 {
        0
    } else {
        digits_value(s.drop_last()) * 10 + (s.last() as u32 - 48)
    }
}

/// The digits of an unsigned number: the text after an optional `+`.
pub open spec fn unsigned_digits(s: Seq<char>) -> Seq<char> {
    if s.len() > 0 && s[0] == '+' {
        s.drop_first()
    } else {
        s
    }
}

pub open spec fn all_digits(d: Seq<char>) -> bool {
    forall|i: int| 0 <= i < d.len() ==> is_digit(#[trigger] d[i])
}

/// `str::parse::<u16>`: an optional `+`, then at least one decimal digit,
/// with a value that fits 16 bits.
pub open spec fn parse_u16(s: Seq<char>) -> Option<int> {
    let d = unsigned_digits(s);
    if d.len() > 0 && all_digits(d) && digits_value(d) <= 65535 {
        Some(digits_value(d))
    } else {
        None
    }
}

/// Field `i`, or `default` when the FEN stops before it.
pub open spec fn field_or(f: Seq<Seq<char>>, i: int, default: Seq<char>) -> Seq<char> {
    if i < f.len() {
        f[i]
    } else {
        default
    }
}

/// The result of reading a FEN.
pub enum FenOutcome {
    Parsed(Position),
    Rejected(FenError),
    /// A rank's empty-square counts run past 255 before the reading stops.
    Overflow,
}

/// What reading `s` as a FEN gives. Placement and side to move are required;
/// castling and en passant default to `-`, the clocks to 0 and 1, and a clock
/// that is not a 16-bit number reads as its default.
pub open spec fn fen_outcome(s: Seq<char>) -> FenOutcome {
    let f = words(s);
    if f.len() < 2 {
        FenOutcome::Rejected(FenError::FieldCount(f.len()))
    } else {
        let ranks = pieces(f[0], '/');
        if ranks.len() != 8 {
            FenOutcome::Rejected(FenError::RankCount(ranks.len()))
        } else {
            match scan_board(ranks, 8) {
                Scan::Overflow => FenOutcome::Overflow,
                Scan::Failed(e) => FenOutcome::Rejected(e),
                Scan::Going(_, sq) => if f[1] != seq!['w'] && f[1] != seq!['b'] {
                    FenOutcome::Rejected(FenError::BadSide(f[1]))
                } else {
                    let side = if f[1] == seq!['w'] {
                        Color::White
                    } else {
                        Color::Black
                    };
                    let cf = field_or(f, 2, seq!['-']);
                    let castling = if cf == seq!['-'] {
                        Ok(0u8)
                    } else {
                        scan_castling(cf, cf.len() as int)
                    };
                    match castling {
                        Err(c) => FenOutcome::Rejected(FenError::BadCastling(c)),
                        Ok(rights) => {
                            let ef = field_or(f, 3, seq!['-']);
                            if ef != seq!['-'] && square_of_chars(ef) is None {
                                FenOutcome::Rejected(FenError::BadEnPassant(ef))
                            } else {
                                let ep = if ef == seq!['-'] {
                                    None
                                } else {
                                    Some(square_of_chars(ef)->0 as u8)
                                };
                                let half = if f.len() > 4 {
                                    match parse_u16(f[4]) {
                                        Some(v) => v,
                                        None => 0,
                                    }
                                } else {
                                    0
                                };
                                let full = if f.len() > 5 {
                                    match parse_u16(f[5]) {
                                        Some(v) => v,
                                        None => 1,
                                    }
                                } else {
                                    1
                                };
                                FenOutcome::Parsed(
                                    Position {
                                        squares: sq,
                                        side,
                                        castling: rights,
                                        en_passant: ep,
                                        halfmove: half as u16,
                                        fullmove: full as u16,
                                    },
                                )
                            }
                        },
                    }
                },
            }
        }
    }
}

pub fn is_digit_char(c: char) -> (r: bool)
    ensures
        r == is_digit(c),
{
    let u = c as u32;
    48 <= u && u <= 57
}

pub fn is_upper_char(c: char) -> (r: bool)
    ensures
        r == is_upper(c),
{
    let u = c as u32;
    65 <= u && u <= 90
}

pub fn to_lower_char(c: char) -> (r: char)
    ensures
        r == to_lower(c),
{
    if is_upper_char(c) {
        ((c as u32 + 32) as u8) as char
    } else {
        c
    }
}

proof fn lemma_rank_stuck(text: Seq<char>, rank: int, start: Scan, m: int, n: int)
    requires
        0 <= m <= n,
        !(scan_rank(text, rank, start, m) is Going),
    ensures
        scan_rank(text, rank, start, n) == scan_rank(text, rank, start, m),
    decreases n - m,
{
    if n > m {
        lemma_rank_stuck(text, rank, start, m, n - 1);
    }
}

proof fn lemma_board_stuck(ranks: Seq<Seq<char>>, m: int, n: int)
    requires
        0 <= m <= n,
        !(scan_board(ranks, m) is Going),
    ensures
        scan_board(ranks, n) == scan_board(ranks, m),
    decreases n - m,
{
    if n > m {
        lemma_board_stuck(ranks, m, n - 1);
    }
}

/// Why reading stopped early.
pub enum Stop {
    Refused(String),
    Overflow,
}

fn field_count_message(n: usize) -> (r: String)
    ensures
        r@ == fen_error_text(FenError::FieldCount(n as nat)),
{
    let mut m = String::from_str("FEN needs at least placement and side, got ");
    push_decimal(&mut m, n as u64);
    m
}

fn rank_count_message(n: usize) -> (r: String)
    ensures
        r@ == fen_error_text(FenError::RankCount(n as nat)),
{
    let mut m = String::from_str("FEN board needs 8 ranks, got ");
    push_decimal(&mut m, n as u64);
    m
}

fn bad_piece_message(c: char) -> (r: String)
    ensures
        r@ == fen_error_text(FenError::BadPiece(c)),
{
    let mut m = String::from_str("bad piece letter '");
    push_char(&mut m, c);
    m.append("'");
    m
}

fn rank_overflow_message(text: &Vec<char>) -> (r: String)
    ensures
        r@ == fen_error_text(FenError::RankOverflow(text@)),
{
    let mut m = String::from_str("rank '");
    push_chars(&mut m, text);
    m.append("' overflows");
    m
}

fn bad_side_message(text: &Vec<char>) -> (r: String)
    ensures
        r@ == fen_error_text(FenError::BadSide(text@)),
{
    let mut m = String::from_str("bad side to move '");
    push_chars(&mut m, text);
    m.append("'");
    m
}

fn bad_castling_message(c: char) -> (r: String)
    ensures
        r@ == fen_error_text(FenError::BadCastling(c)),
{
    let mut m = String::from_str("bad castling right '");
    push_char(&mut m, c);
    m.append("'");
    m
}

fn bad_en_passant_message(text: &Vec<char>) -> (r: String)
    ensures
        r@ == fen_error_text(FenError::BadEnPassant(text@)),
{
    let mut m = String::from_str("bad ep '");
    push_chars(&mut m, text);
    m.append("'");
    m
}

impl Board {
    /// Read one rank's placement text onto `rank`, whose squares are empty.
    fn read_rank(&mut self, text: &Vec<char>, rank: u8) -> (r: Result<(), Stop>)
        requires
            old(self).bits_ok(),
            rank < 8,
            forall|s: int| rank * 8 <= s < rank * 8 + 8 ==> (#[trigger] old(self)@.squares[s]) is None,
        ensures
            final(self).bits_ok(),
            final(self)@ == (Position { squares: final(self)@.squares, ..old(self)@ }),
            forall|s: int|
                0 <= s < 64 && !(rank * 8 <= s < rank * 8 + 8) ==> final(self)@.squares[s]
                    == old(self)@.squares[s],
            match scan_rank(
                text@,
                rank as int,
                Scan::Going(0, old(self)@.squares),
                text@.len() as int,
            ) {
                Scan::Going(_, sq) => r is Ok && final(self)@.squares == sq,
                Scan::Failed(e) => r matches Err(Stop::Refused(m)) && m@ == fen_error_text(e),
                Scan::Overflow => r matches Err(Stop::Overflow),
            },
    {
        let ghost sq0 = self@.squares;
        let ghost start = Scan::Going(0, sq0);
        let mut file: u16 = 0;
        let mut i: usize = 0;
        while i < text.len()
            invariant
                i <= text.len(),
                rank < 8,
                self.bits_ok(),
                self@ == (Position { squares: self@.squares, ..old(self)@ }),
                sq0 == old(self)@.squares,
                start == Scan::Going(0, sq0),
                scan_rank(text@, rank as int, start, i as int) == Scan::Going(
                    file as int,
                    self@.squares,
                ),
                file <= 255,
                forall|s: int| rank * 8 + file <= s < rank * 8 + 8 ==> (#[trigger] self@.squares[s]) is None,
                forall|s: int|
                    0 <= s < 64 && !(rank * 8 <= s < rank * 8 + 8) ==> self@.squares[s]
                        == sq0[s],
            decreases text.len() - i,
        {
            let c = text[i];
            let ghost before = scan_rank(text@, rank as int, start, i as int);
            assert(scan_rank(text@, rank as int, start, i + 1) == scan_step(
                before,
                c,
                rank as int,
                text@,
            ));
            if is_digit_char(c) {
                let next = file + ((c as u32 - 48) as u16);
                if next > 255 {
                    proof {
                        lemma_rank_stuck(text@, rank as int, start, i + 1, text@.len() as int);
                    }
                    return Err(Stop::Overflow);
                }
                file = next;
            } else {
                let lower = to_lower_char(c);
                match PieceType::from_char(lower) {
                    None => {
                        proof {
                            lemma_rank_stuck(text@, rank as int, start, i + 1, text@.len() as int);
                        }
                        return Err(Stop::Refused(bad_piece_message(c)));
                    },
                    Some(piece_type) => {
                        if file > 7 {
                            proof {
                                lemma_rank_stuck(
                                    text@,
                                    rank as int,
                                    start,
                                    i + 1,
                                    text@.len() as int,
                                );
                            }
                            return Err(Stop::Refused(rank_overflow_message(text)));
                        }
                        let color = if is_upper_char(c) {
                            Color::White
                        } else {
                            Color::Black
                        };
                        let square: Square = rank * 8 + file as u8;
                        self.add_piece(color, piece_type, square);
                        file = file + 1;
                    },
                }
            }
            i = i + 1;
        }
        Ok(())
    }
}

proof fn lemma_castling_stuck(text: Seq<char>, m: int, n: int)
    requires
        0 <= m <= n,
        scan_castling(text, m) is Err,
    ensures
        scan_castling(text, n) == scan_castling(text, m),
    decreases n - m,
{
    if n > m {
        lemma_castling_stuck(text, m, n - 1);
    }
}

/// Read the letters of a castling field.
fn read_castling(text: &Vec<char>) -> (r: Result<u8, char>)
    ensures
        r == scan_castling(text@, text@.len() as int),
        r matches Ok(rights) ==> rights < 16,
{
    let mut rights: u8 = 0;
    let mut i: usize = 0;
    while i < text.len()
        invariant
            i <= text.len(),
            scan_castling(text@, i as int) == Ok::<u8, char>(rights),
            rights < 16,
        decreases text.len() - i,
    {
        let c = text[i];
        let bit: u8 = if c == 'K' {
            CASTLE_WK
        } else if c == 'Q' {
            CASTLE_WQ
        } else if c == 'k' {
            CASTLE_BK
        } else if c == 'q' {
            CASTLE_BQ
        } else {
            proof {
                lemma_castling_stuck(text@, i + 1, text@.len() as int);
            }
            return Err(c);
        };
        assert(rights < 16 && bit < 16 ==> (rights | bit) < 16) by (bit_vector);
        rights = rights | bit;
        i = i + 1;
    }
    Ok(rights)
}

/// Whether `text` is the single character `c`.
fn is_single(text: &Vec<char>, c: char) -> (r: bool)
    ensures
        r == (text@ == seq![c]),
{
    if text.len() == 1 && text[0] == c {
        assert(text@ =~= seq![c]);
        true
    } else {
        assert(text@.len() != 1 || text@[0] != seq![c][0]);
        false
    }
}

/// The square a two-character name denotes.
fn square_from_chars(text: &Vec<char>) -> (r: Option<Square>)
    ensures
        r matches Some(s) ==> square_of_chars(text@) == Some(s as int) && s < 64,
        r is None ==> square_of_chars(text@) is None,
{
    if text.len() == 2 {
        let f = text[0] as u32;
        let k = text[1] as u32;
        if 97 <= f && f <= 104 && 49 <= k && k <= 56 {
            return Some(((k - 49) * 8 + (f - 97)) as u8);
        }
    }
    None
}

proof fn lemma_digits_grow(d: Seq<char>, k: int)
    requires
        0 <= k <= d.len(),
        all_digits(d),
    ensures
        digits_value(d) >= digits_value(d.take(k)) >= 0,
    decreases d.len(),
{
    if d.len() > 0 {
        if k == d.len() {
            assert(d.take(k) =~= d);
            lemma_digits_grow(d.drop_last(), 0);
        } else {
            lemma_digits_grow(d.drop_last(), k);
            assert(d.drop_last().take(k) =~= d.take(k));
        }
    } else {
        assert(d.take(k) =~= d);
    }
}

/// `str::parse::<u16>` on a field.
fn parse_u16_chars(s: &Vec<char>) -> (r: Option<u16>)
    ensures
        r == (match parse_u16(s@) {
            Some(v) => Some(v as u16),
            None => None::<u16>,
        }),
        r matches Some(v) ==> parse_u16(s@) == Some(v as int),
{
    let mut start: usize = 0;
    if s.len() > 0 && s[0] == '+' {
        start = 1;
    }
    let ghost d = unsigned_digits(s@);
    assert(d =~= s@.subrange(start as int, s@.len() as int));
    if start >= s.len() {
        return None;
    }
    let mut value: u32 = 0;
    let mut i: usize = start;
    while i < s.len()
        invariant
            start <= i <= s.len(),
            d == s@.subrange(start as int, s@.len() as int),
            d == unsigned_digits(s@),
            value <= 65535,
            value == digits_value(d.take(i - start)),
            forall|j: int| 0 <= j < i - start ==> is_digit(#[trigger] d[j]),
        decreases s.len() - i,
    {
        let c = s[i];
        assert(d[i - start] == c);
        if !is_digit_char(c) {
            assert(!is_digit(d[i - start]));
            assert(!all_digits(d));
            return None;
        }
        assert(d.take(i - start + 1).drop_last() =~= d.take(i - start));
        assert(d.take(i - start + 1).last() == c);
        assert(digits_value(d.take(i - start + 1)) == digits_value(d.take(i - start)) * 10 + (c
            as u32 - 48));
        value = value * 10 + (c as u32 - 48);
        if value > 65535 {
            proof {
                if all_digits(d) {
                    lemma_digits_grow(d, i - start + 1);
                }
            }
            return None;
        }
        i = i + 1;
    }
    assert(d.take(d.len() as int) =~= d);
    Some(value as u16)
}

impl Board {
    /// The board with no pieces, White to move, no rights and fresh clocks.
    fn empty() -> (b: Board)
        ensures
            b.bits_ok(),
            b@ == Board::empty_spec(),
    {
        let b = Board {
            pieces: [[0u64; 6]; 2],
            color_occupancy: [0u64; 2],
            squares: [None; 64],
            side_to_move: Color::White,
            castling_rights: 0,
            en_passant: None,
            halfmove_clock: 0,
            fullmove_number: 1,
            zobrist: 0,
        };
        proof {
            assert(b.squares@ =~= empty_squares());
            assert forall|s: int, c: Color, p: PieceType| #[trigger]
                in_bb(b.bb(c, p), s) == (0 <= s < 64 && b@.squares[s] == Some(
                    Piece { color: c, piece_type: p },
                )) by {
                assert(b.pieces[c.idx()]@[p.idx()] == 0);
            }
            assert forall|s: int, c: Color| #[trigger]
                in_bb(b.occ_bb(c), s) == (0 <= s < 64 && b@.squares[s] is Some
                    && b@.squares[s]->0.color == c) by {
                assert(b.color_occupancy@[c.idx()] == 0);
            }
        }
        b
    }
}

impl Board {
    /// Read a FEN; total, and it reports a rank whose counts run past 255.
    fn read_fen(fen: &str) -> (r: Result<Board, Stop>)
        ensures
            match fen_outcome(fen@) {
                FenOutcome::Parsed(p) => r matches Ok(b) && b@ == p && b.wf(),
                FenOutcome::Rejected(e) => r matches Err(Stop::Refused(m)) && m@ == fen_error_text(
                    e,
                ),
                FenOutcome::Overflow => r matches Err(Stop::Overflow),
            },
    {
        let chars = collect_chars(fen);
        let fields = split_words(&chars);
        let ghost f = words(fen@);
        assert(views(fields@) == f);
        if fields.len() < 2 {
            return Err(Stop::Refused(field_count_message(fields.len())));
        }
        assert(fields@[0]@ == f[0]);
        assert(fields@[1]@ == f[1]);
        let ranks = split_on(&fields[0], '/');
        let ghost rv = pieces(f[0], '/');
        if ranks.len() != 8 {
            return Err(Stop::Refused(rank_count_message(ranks.len())));
        }
        let mut board = Board::empty();
        let mut row: usize = 0;
        while row < 8
            invariant
                row <= 8,
                f == words(fen@),
                f.len() >= 2,
                rv == pieces(f[0], '/'),
                ranks@.len() == 8,
                views(ranks@) == rv,
                board.bits_ok(),
                board@ == (Position {
                    squares: board@.squares,
                    side: Color::White,
                    castling: 0,
                    en_passant: None,
                    halfmove: 0,
                    fullmove: 1,
                }),
                scan_board(rv, row as int) matches Scan::Going(_, sq) && sq == board@.squares,
                forall|s: int| 0 <= s < (8 - row) * 8 ==> (#[trigger] board@.squares[s]) is None,
            decreases 8 - row,
        {
            let rank = (7 - row) as u8;
            assert(ranks@[row as int]@ == rv[row as int]);
            let ghost before = board@.squares;
            assert(scan_board(rv, row + 1) == scan_rank(
                rv[row as int],
                rank as int,
                Scan::Going(0, before),
                rv[row as int].len() as int,
            ));
            let result = board.read_rank(&ranks[row], rank);
            match result {
                Ok(()) => {},
                Err(stop) => {
                    proof {
                        assert(!(scan_board(rv, row + 1) is Going));
                        lemma_board_stuck(rv, row + 1, 8);
                        assert(scan_board(rv, 8) == scan_board(rv, row + 1));
                    }
                    return Err(stop);
                },
            }
            row = row + 1;
        }
        let side = if is_single(&fields[1], 'w') {
            Color::White
        } else if is_single(&fields[1], 'b') {
            Color::Black
        } else {
            return Err(Stop::Refused(bad_side_message(&fields[1])));
        };
        let mut rights: u8 = 0;
        if fields.len() > 2 {
            assert(fields@[2]@ == f[2]);
            if !is_single(&fields[2], '-') {
                match read_castling(&fields[2]) {
                    Ok(r) => {
                        rights = r;
                    },
                    Err(c) => {
                        return Err(Stop::Refused(bad_castling_message(c)));
                    },
                }
            }
        }
        let mut en_passant: Option<Square> = None;
        if fields.len() > 3 {
            assert(fields@[3]@ == f[3]);
            if !is_single(&fields[3], '-') {
                match square_from_chars(&fields[3]) {
                    Some(square) => {
                        en_passant = Some(square);
                    },
                    None => {
                        return Err(Stop::Refused(bad_en_passant_message(&fields[3])));
                    },
                }
            }
        }
        let mut halfmove: u16 = 0;
        if fields.len() > 4 {
            assert(fields@[4]@ == f[4]);
            if let Some(v) = parse_u16_chars(&fields[4]) {
                halfmove = v;
            }
        }
        let mut fullmove: u16 = 1;
        if fields.len() > 5 {
            assert(fields@[5]@ == f[5]);
            if let Some(v) = parse_u16_chars(&fields[5]) {
                fullmove = v;
            }
        }
        board.set_state(side, rights, en_passant, halfmove, fullmove);
        Ok(board)
    }
}

impl Board {
    /// Read a position from FEN. Placement and side to move are required;
    /// castling and en passant default to `-`, and the clocks to 0 and 1, a
    /// clock that is no 16-bit number reading as its default. The inputs left
    /// out are those where a rank's empty-square counts run past 255 before the
    /// reading stops, on which the counter would overflow.
    pub fn from_fen(fen: &str) -> (r: Result<Board, String>)
        requires
            !(fen_outcome(fen@) is Overflow),
        ensures
            fen_outcome(fen@) matches FenOutcome::Parsed(p) ==> r matches Ok(b) && b@ == p && b.wf(),
            fen_outcome(fen@) matches FenOutcome::Rejected(e) ==> r matches Err(m) && m@
                == fen_error_text(e),
    {
        match Board::read_fen(fen) {
            Ok(board) => Ok(board),
            Err(Stop::Refused(message)) => Err(message),
            Err(Stop::Overflow) => Err(String::from_str("rank counts overflow")),
        }
    }

    /// Whether reading `fen` would run a rank's empty-square counter past 255:
    /// the inputs `from_fen` leaves out.
    pub fn fen_counts_overflow(fen: &str) -> (r: bool)
        ensures
            r == (fen_outcome(fen@) is Overflow),
    {
        match Board::read_fen(fen) {
            Err(Stop::Overflow) => true,
            _ => false,
        }
    }
}

/// A pending run of empty squares, written as its count.
pub open spec fn flush(empty: int) -> Seq<char> {
    if empty > 0 {
        seq![digit_char(empty)]
    } else {
        seq![]
    }
}

/// The text written for files `0..f` of `rank`, and the empty squares not yet
/// written.
pub open spec fn rank_prefix(sq: Seq<Option<Piece>>, rank: int, f: int) -> (Seq<char>, int)
    decreases f,
{
    if f <= 0 {
        (seq![], 0)
    } else {
        let (t, e) = rank_prefix(sq, rank, f - 1);
        match sq[rank * 8 + f - 1] {
            None => (t, e + 1),
            Some(p) => (t + flush(e) + seq![piece_char(p)], 0),
        }
    }
}

/// One rank of the placement field.
pub open spec fn rank_text(sq: Seq<Option<Piece>>, rank: int) -> Seq<char> {
    rank_prefix(sq, rank, 8).0 + flush(rank_prefix(sq, rank, 8).1)
}

/// The first `rows` ranks of the placement field, the eighth rank first.
pub open spec fn placement_text(sq: Seq<Option<Piece>>, rows: int) -> Seq<char>
    decreases rows,
{
    if rows <= 0 {
        seq![]
    } else {
        placement_text(sq, rows - 1) + rank_text(sq, 7 - (rows - 1)) + if rows - 1 < 7 {
            seq!['/']
        } else {
            seq![]
        }
    }
}

pub open spec fn letter_if(present: bool, c: char) -> Seq<char> {
    if present {
        seq![c]
    } else {
        seq![]
    }
}

/// The castling field: the letters of the rights held, or `-`.
pub open spec fn castling_text(rights: u8) -> Seq<char> {
    let t = letter_if(rights & CASTLE_WK != 0, 'K') + letter_if(rights & CASTLE_WQ != 0, 'Q')
        + letter_if(rights & CASTLE_BK != 0, 'k') + letter_if(rights & CASTLE_BQ != 0, 'q');
    if t.len() == 0 {
        seq!['-']
    } else {
        t
    }
}

/// The FEN of a position: placement, side, castling, en passant and the two
/// clocks, separated by single spaces.
pub open spec fn fen_text(p: Position) -> Seq<char> {
    placement_text(p.squares, 8) + seq![' ', if p.side == Color::White {
        'w'
    } else {
        'b'
    }, ' '] + castling_text(p.castling) + seq![' '] + match p.en_passant {
        Some(s) => square_text(s as int),
        None => seq!['-'],
    } + seq![' '] + decimal(p.halfmove as nat) + seq![' '] + decimal(p.fullmove as nat)
}

fn push_if(text: &mut String, present: bool, c: char)
    ensures
        final(text)@ == old(text)@ + letter_if(present, c),
{
    if present {
        push_char(text, c);
    } else {
        assert(old(text)@ + letter_if(present, c) =~= old(text)@);
    }
}

fn push_castling(text: &mut String, rights: u8)
    ensures
        final(text)@ == old(text)@ + castling_text(rights),
{
    push_if(text, rights & CASTLE_WK != 0, 'K');
    push_if(text, rights & CASTLE_WQ != 0, 'Q');
    push_if(text, rights & CASTLE_BK != 0, 'k');
    push_if(text, rights & CASTLE_BQ != 0, 'q');
    if rights & CASTLE_WK == 0 && rights & CASTLE_WQ == 0 && rights & CASTLE_BK == 0 && rights
        & CASTLE_BQ == 0 {
        push_char(text, '-');
    }
    proof {
        assert(final(text)@ =~= old(text)@ + castling_text(rights));
    }
}

fn push_en_passant(text: &mut String, en_passant: Option<Square>)
    ensures
        final(text)@ == old(text)@ + match en_passant {
            Some(s) => square_text(s as int),
            None => seq!['-'],
        },
{
    match en_passant {
        Some(square) => {
            let name = square_to_uci(square);
            push_chars(text, &collect_chars(name.as_str()));
        },
        None => push_char(text, '-'),
    }
    proof {
        assert(final(text)@ =~= old(text)@ + match en_passant {
            Some(s) => square_text(s as int),
            None => seq!['-'],
        });
    }
}

impl Board {
    /// Append the placement text of `rank`.
    fn push_rank(&self, text: &mut String, rank: u8)
        requires
            rank < 8,
        ensures
            final(text)@ == old(text)@ + rank_text(self@.squares, rank as int),
    {
        let ghost sq = self@.squares;
        let mut empty: u8 = 0;
        let mut file: u8 = 0;
        while file < 8
            invariant
                file <= 8,
                rank < 8,
                sq == self@.squares,
                empty <= file,
                rank_prefix(sq, rank as int, file as int) == (text@.subrange(
                    old(text)@.len() as int,
                    text@.len() as int,
                ), empty as int),
                old(text)@.len() <= text@.len(),
                text@.subrange(0, old(text)@.len() as int) == old(text)@,
            decreases 8 - file,
        {
            let ghost before = text@;
            match self.squares[(rank * 8 + file) as usize] {
                None => {
                    empty = empty + 1;
                },
                Some(piece) => {
                    if empty > 0 {
                        push_char(text, (48 + empty) as char);
                    }
                    push_char(text, piece.to_char());
                    proof {
                        assert(text@.subrange(old(text)@.len() as int, text@.len() as int)
                            =~= before.subrange(old(text)@.len() as int, before.len() as int)
                            + flush(empty as int) + seq![piece_char(piece)]);
                        assert(text@.subrange(0, old(text)@.len() as int) =~= old(text)@);
                    }
                    empty = 0;
                },
            }
            file = file + 1;
        }
        let ghost before = text@;
        if empty > 0 {
            push_char(text, (48 + empty) as char);
        }
        proof {
            assert(text@.subrange(old(text)@.len() as int, text@.len() as int) =~= before.subrange(
                old(text)@.len() as int,
                before.len() as int,
            ) + flush(empty as int));
            assert(text@ =~= text@.subrange(0, old(text)@.len() as int) + text@.subrange(
                old(text)@.len() as int,
                text@.len() as int,
            ));
        }
    }

    /// The position in FEN.
    pub fn to_fen(&self) -> (r: String)
        ensures
            r@ == fen_text(self@),
    {
        let mut text = String::new();
        let mut row: u8 = 0;
        while row < 8
            invariant
                row <= 8,
                text@ == placement_text(self@.squares, row as int),
            decreases 8 - row,
        {
            self.push_rank(&mut text, 7 - row);
            if row < 7 {
                push_char(&mut text, '/');
            }
            proof {
                assert(text@ =~= placement_text(self@.squares, row + 1));
            }
            row = row + 1;
        }
        push_char(&mut text, ' ');
        match self.side_to_move {
            Color::White => push_char(&mut text, 'w'),
            Color::Black => push_char(&mut text, 'b'),
        }
        push_char(&mut text, ' ');
        push_castling(&mut text, self.castling_rights);
        push_char(&mut text, ' ');
        push_en_passant(&mut text, self.en_passant);
        push_char(&mut text, ' ');
        push_decimal(&mut text, self.halfmove_clock as u64);
        push_char(&mut text, ' ');
        push_decimal(&mut text, self.fullmove_number as u64);
        proof {
            assert(text@ =~= fen_text(self@));
        }
        text
    }
}

pub const STARTPOS_FEN: &'static str = "rnbqkbnr/pppppppp/8/8/8/8/PPPPPPPP/RNBQKBNR w KQkq - 0 1";

/// The back-rank piece kind on `file` at the start.
pub open spec fn back_rank(file: int) -> PieceType {
    if file == 0 || file == 7 {
        PieceType::Rook
    } else if file == 1 || file == 6 {
        PieceType::Knight
    } else if file == 2 || file == 5 {
        PieceType::Bishop
    } else if file == 3 {
        PieceType::Queen
    } else {
        PieceType::King
    }
}

/// What stands on square `s` at the start of a game.
pub open spec fn start_piece(s: int) -> Option<Piece> {
    let rank = s / 8;
    let file = s % 8;
    if rank == 0 {
        Some(Piece { color: Color::White, piece_type: back_rank(file) })
    } else if rank == 1 {
        Some(Piece { color: Color::White, piece_type: PieceType::Pawn })
    } else if rank == 6 {
        Some(Piece { color: Color::Black, piece_type: PieceType::Pawn })
    } else if rank == 7 {
        Some(Piece { color: Color::Black, piece_type: back_rank(file) })
    } else {
        None
    }
}

/// The position every game starts from: what `STARTPOS_FEN` describes.
pub open spec fn start_position() -> Position {
    Position {
        squares: Seq::new(64, |s: int| start_piece(s)),
        side: Color::White,
        castling: 15,
        en_passant: None,
        halfmove: 0,
        fullmove: 1,
    }
}

fn back_rank_piece(file: u8) -> (r: PieceType)
    requires
        file < 8,
    ensures
        r == back_rank(file as int),
{
    if file == 0 || file == 7 {
        PieceType::Rook
    } else if file == 1 || file == 6 {
        PieceType::Knight
    } else if file == 2 || file == 5 {
        PieceType::Bishop
    } else if file == 3 {
        PieceType::Queen
    } else {
        PieceType::King
    }
}

impl Board {
    /// The start position.
    pub fn startpos() -> (b: Board)
        ensures
            b.wf(),
            b@ == start_position(),
    {
        let mut board = Board::empty();
        let mut file: u8 = 0;
        while file < 8
            invariant
                file <= 8,
                board.bits_ok(),
                board@ == (Position { squares: board@.squares, ..Board::empty_spec() }),
                board@.squares == Seq::new(
                    64,
                    |s: int|
                        if s % 8 < file {
                            start_piece(s)
                        } else {
                            None
                        },
                ),
            decreases 8 - file,
        {
            let back = back_rank_piece(file);
            board.add_piece(Color::White, back, file);
            board.add_piece(Color::White, PieceType::Pawn, 8 + file);
            board.add_piece(Color::Black, PieceType::Pawn, 48 + file);
            board.add_piece(Color::Black, back, 56 + file);
            proof {
                assert(board@.squares =~= Seq::new(
                    64,
                    |s: int|
                        if s % 8 < file + 1 {
                            start_piece(s)
                        } else {
                            None
                        },
                ));
            }
            file = file + 1;
        }
        board.set_state(Color::White, 15, None, 0, 1);
        proof {
            assert(board@.squares =~= start_position().squares);
        }
        board
    }

    spec fn empty_spec() -> Position {
        Position {
            squares: empty_squares(),
            side: Color::White,
            castling: 0,
            en_passant: None,
            halfmove: 0,
            fullmove: 1,
        }
    }
}

} // verus!
