//! Core value types: colors, piece kinds, squares, and bitboard helpers.
//!
//! Squares use Little-Endian Rank-File mapping: a1 = 0, h1 = 7, a8 = 56,
//! h8 = 63. Rank = square / 8, file = square % 8. White advances toward higher
//! ranks (north, +8).
use vstd::prelude::*;
use vstd::string::StringSliceAdditionalSpecFns;

verus! {

pub type Bitboard = u64;

pub type Square = u8;

pub const NUM_SQUARES: usize = 64;

pub const NUM_PIECE_TYPES: usize = 6;

pub const NUM_COLORS: usize = 2;

#[derive(Clone, Copy, PartialEq, Eq, Debug, Structural)]
pub enum Color {
    White,
    Black,
}

impl Color {
    pub open spec fn opp(self) -> Color {
        match self {
            Color::White => Color::Black,
            Color::Black => Color::White,
        }
    }

    pub open spec fn idx(self) -> int {
        match self {
            Color::White => 0,
            Color::Black => 1,
        }
    }

    pub fn opponent(self) -> (r: Color)
        ensures
            r == self.opp(),
    {
        match self {
            Color::White => Color::Black,
            Color::Black => Color::White,
        }
    }

    pub fn index(self) -> (r: usize)
        ensures
            r == self.idx(),
    {
        match self {
            Color::White => 0,
            Color::Black => 1,
        }
    }
}

#[derive(Clone, Copy, PartialEq, Eq, Debug, Structural)]
pub enum PieceType {
    Pawn,
    Knight,
    Bishop,
    Rook,
    Queen,
    King,
}

impl PieceType {
    /// Every piece kind, in index order.
    pub const ALL: [PieceType; 6] = [
        PieceType::Pawn,
        PieceType::Knight,
        PieceType::Bishop,
        PieceType::Rook,
        PieceType::Queen,
        PieceType::King,
    ];
}

/// The piece kind stored at `index` (0 pawn .. 5 king).
pub open spec fn piece_type_of_index(i: int) -> PieceType {
    if i == 0 {
        PieceType::Pawn
    } else if i == 1 {
        PieceType::Knight
    } else if i == 2 {
        PieceType::Bishop
    } else if i == 3 {
        PieceType::Rook
    } else if i == 4 {
        PieceType::Queen
    } else {
        PieceType::King
    }
}

/// The lowercase FEN letter of each piece kind.
pub open spec fn piece_letter(p: PieceType) -> char {
    match p {
        PieceType::Pawn => 'p',
        PieceType::Knight => 'n',
        PieceType::Bishop => 'b',
        PieceType::Rook => 'r',
        PieceType::Queen => 'q',
        PieceType::King => 'k',
    }
}

/// The piece kind whose lowercase FEN letter is `c`, if any.
pub open spec fn piece_of_letter(c: char) -> Option<PieceType> {
    if c == 'p' {
        Some(PieceType::Pawn)
    } else if c == 'n' {
        Some(PieceType::Knight)
    } else if c == 'b' {
        Some(PieceType::Bishop)
    } else if c == 'r' {
        Some(PieceType::Rook)
    } else if c == 'q' {
        Some(PieceType::Queen)
    } else if c == 'k' {
        Some(PieceType::King)
    } else {
        None
    }
}

impl PieceType {
    pub open spec fn idx(self) -> int {
        match self {
            PieceType::Pawn => 0,
            PieceType::Knight => 1,
            PieceType::Bishop => 2,
            PieceType::Rook => 3,
            PieceType::Queen => 4,
            PieceType::King => 5,
        }
    }

    pub fn from_index(i: usize) -> (r: PieceType)
        requires
            i < 6,
        ensures
            r == piece_type_of_index(i as int),
            r.idx() == i,
    {
        if i == 0 {
            PieceType::Pawn
        } else if i == 1 {
            PieceType::Knight
        } else if i == 2 {
            PieceType::Bishop
        } else if i == 3 {
            PieceType::Rook
        } else if i == 4 {
            PieceType::Queen
        } else {
            PieceType::King
        }
    }

    pub fn index(self) -> (r: usize)
        ensures
            r == self.idx(),
            r < 6,
    {
        match self {
            PieceType::Pawn => 0,
            PieceType::Knight => 1,
            PieceType::Bishop => 2,
            PieceType::Rook => 3,
            PieceType::Queen => 4,
            PieceType::King => 5,
        }
    }

    /// The lowercase FEN letter for this piece kind.
    pub fn to_char(self) -> (r: char)
        ensures
            r == piece_letter(self),
    {
        match self {
            PieceType::Pawn => 'p',
            PieceType::Knight => 'n',
            PieceType::Bishop => 'b',
            PieceType::Rook => 'r',
            PieceType::Queen => 'q',
            PieceType::King => 'k',
        }
    }

    pub fn from_char(letter: char) -> (r: Option<PieceType>)
        ensures
            r == piece_of_letter(letter),
    {
        match letter {
            'p' => Some(PieceType::Pawn),
            'n' => Some(PieceType::Knight),
            'b' => Some(PieceType::Bishop),
            'r' => Some(PieceType::Rook),
            'q' => Some(PieceType::Queen),
            'k' => Some(PieceType::King),
            _ => None,
        }
    }
}

/// Reading back the letter `to_char` writes for a kind gives the kind.
pub proof fn law_letter_round_trip(p: PieceType)
    ensures
        piece_of_letter(piece_letter(p)) == Some(p),
{
}

#[derive(Clone, Copy, PartialEq, Eq, Debug, Structural)]
pub struct Piece {
    pub color: Color,
    pub piece_type: PieceType,
}

/// The FEN letter of a piece: uppercase for white, lowercase for black.
pub open spec fn piece_char(p: Piece) -> char {
    match p.color {
        Color::White => ((piece_letter(p.piece_type) as u32) - 32) as char,
        Color::Black => piece_letter(p.piece_type),
    }
}

impl Piece {
    /// The FEN letter: uppercase for white, lowercase for black.
    pub fn to_char(self) -> (r: char)
        ensures
            r == piece_char(self),
    {
        let letter = self.piece_type.to_char();
        match self.color {
            Color::White => match self.piece_type {
                PieceType::Pawn => 'P',
                PieceType::Knight => 'N',
                PieceType::Bishop => 'B',
                PieceType::Rook => 'R',
                PieceType::Queen => 'Q',
                PieceType::King => 'K',
            },
            Color::Black => letter,
        }
    }
}

pub open spec fn file_spec(square: int) -> int {
    square % 8
}

pub open spec fn rank_spec(square: int) -> int {
    square / 8
}

pub fn make_square(file: u8, rank: u8) -> (r: Square)
    requires
        rank * 8 + file < 256,
    ensures
        r == rank * 8 + file,
{
    rank * 8 + file
}

pub fn file_of(square: Square) -> (r: u8)
    ensures
        r == square % 8,
        r < 8,
{
    square % 8
}

pub fn rank_of(square: Square) -> (r: u8)
    ensures
        r == square / 8,
{
    square / 8
}

/// The two UCI characters naming `square`: a file letter then a rank digit.
pub open spec fn square_text(square: int) -> Seq<char> {
    seq![(97 + square % 8) as char, (49 + square / 8) as char]
}

/// Append a character to a string.
#[verifier::external_body]
pub(crate) fn push_char(text: &mut String, c: char)
    ensures
        final(text)@ == old(text)@.push(c),
{
    text.push(c);
}

pub fn square_to_uci(square: Square) -> (r: String)
    ensures
        r@ == square_text(square as int),
{
    let file = (97u8 + file_of(square)) as char;
    let rank = (49u8 + rank_of(square)) as char;
    let mut text = String::new();
    push_char(&mut text, file);
    push_char(&mut text, rank);
    proof {
        assert(text@ =~= square_text(square as int));
    }
    text
}

/// The square a two-byte UCI square name denotes, if it names one.
pub open spec fn square_of_bytes(b: Seq<u8>) -> Option<int> {
    if b.len() == 2 && 97 <= b[0] <= 104 && 49 <= b[1] <= 56 {
        Some((b[1] - 49) * 8 + (b[0] - 97))
    } else {
        None
    }
}

pub fn square_from_uci(text: &str) -> (r: Option<Square>)
    ensures
        r matches Some(sq) ==> square_of_bytes(text.spec_bytes()) == Some(sq as int),
        r is None ==> square_of_bytes(text.spec_bytes()) is None,
{
    let bytes = text.as_bytes();
    square_from_bytes(bytes)
}

/// `square_from_uci` on the bytes of the text.
pub fn square_from_bytes(bytes: &[u8]) -> (r: Option<Square>)
    ensures
        r matches Some(sq) ==> square_of_bytes(bytes@) == Some(sq as int) && sq < 64,
        r is None ==> square_of_bytes(bytes@) is None,
{
    if bytes.len() != 2 {
        return None;
    }
    let file = match bytes[0].checked_sub(97u8) {
        Some(f) => f,
        None => return None,
    };
    let rank = match bytes[1].checked_sub(49u8) {
        Some(r) => r,
        None => return None,
    };
    if file > 7 || rank > 7 {
        return None;
    }
    Some(make_square(file, rank))
}

/// The square on the same file and the opposite rank.
pub open spec fn flip_square(s: int) -> int {
    (7 - s / 8) * 8 + s % 8
}

/// Flipping a square keeps its file, reverses its rank, and flipping twice
/// gives it back.
pub proof fn lemma_flip_square(s: int)
    requires
        0 <= s < 64,
    ensures
        0 <= flip_square(s) < 64,
        flip_square(s) / 8 == 7 - s / 8,
        flip_square(s) % 8 == s % 8,
        flip_square(flip_square(s)) == s,
{
    let t = flip_square(s);
    assert(t / 8 == 7 - s / 8 && t % 8 == s % 8);
}

/// Whether bit `s` of bitboard `b` is set (the square `s` is in the set).
pub open spec fn in_bb(b: u64, s: int) -> bool {
    0 <= s < 64 && (b >> (s as u64)) & 1u64 == 1u64
}

proof fn lemma_bit_ops(a: u64, b: u64, s: u64)
    by (bit_vector)
    requires
        s < 64,
    ensures
        ((a | b) >> s) & 1u64 == 1u64 <==> ((a >> s) & 1u64 == 1u64 || (b >> s) & 1u64 == 1u64),
        ((a & b) >> s) & 1u64 == 1u64 <==> ((a >> s) & 1u64 == 1u64 && (b >> s) & 1u64 == 1u64),
        ((a ^ b) >> s) & 1u64 == 1u64 <==> ((a >> s) & 1u64 == 1u64) != ((b >> s) & 1u64
            == 1u64),
        ((!a) >> s) & 1u64 == 1u64 <==> !((a >> s) & 1u64 == 1u64),
        ((1u64 << a) >> s) & 1u64 == 1u64 <==> (a < 64 && a == s),
        !(((0u64 >> s) & 1u64) == 1u64),
{
}

pub broadcast proof fn lemma_in_bb_or(a: u64, b: u64, s: int)
    ensures
        #[trigger] in_bb(a | b, s) == (in_bb(a, s) || in_bb(b, s)),
{
    if 0 <= s < 64 {
        lemma_bit_ops(a, b, s as u64);
    }
}

pub broadcast proof fn lemma_in_bb_and(a: u64, b: u64, s: int)
    ensures
        #[trigger] in_bb(a & b, s) == (in_bb(a, s) && in_bb(b, s)),
{
    if 0 <= s < 64 {
        lemma_bit_ops(a, b, s as u64);
    }
}

pub broadcast proof fn lemma_in_bb_xor(a: u64, b: u64, s: int)
    ensures
        #[trigger] in_bb(a ^ b, s) == (in_bb(a, s) != in_bb(b, s)),
{
    if 0 <= s < 64 {
        lemma_bit_ops(a, b, s as u64);
    }
}

pub broadcast proof fn lemma_in_bb_not(a: u64, s: int)
    ensures
        #[trigger] in_bb(!a, s) == (0 <= s < 64 && !in_bb(a, s)),
{
    if 0 <= s < 64 {
        lemma_bit_ops(a, 0, s as u64);
    }
}

pub broadcast proof fn lemma_in_bb_single(t: u64, s: int)
    ensures
        #[trigger] in_bb(1u64 << t, s) == (t < 64 && s == t),
{
    if 0 <= s < 64 {
        lemma_bit_ops(t, 0, s as u64);
    }
}

pub broadcast proof fn lemma_in_bb_zero(s: int)
    ensures
        !#[trigger] in_bb(0u64, s),
{
    if 0 <= s < 64 {
        lemma_bit_ops(0, 0, s as u64);
    }
}

pub broadcast group group_bitboard {
    lemma_in_bb_or,
    lemma_in_bb_and,
    lemma_in_bb_xor,
    lemma_in_bb_not,
    lemma_in_bb_single,
    lemma_in_bb_zero,
}

/// A bitboard with no set bit is zero, and zero has no set bit.
pub proof fn lemma_empty_iff_zero(b: u64)
    ensures
        b == 0 <==> (forall|s: int| !#[trigger] in_bb(b, s)),
{
    broadcast use group_bitboard;

    if b != 0 {
        let t = u64_trailing_zeros_of(b);
        assert(in_bb(b, t as int));
    }
}

/// The index of the lowest set bit, with the facts Verus knows of it.
pub proof fn u64_trailing_zeros_of(b: u64) -> (t: u32)
    requires
        b != 0,
    ensures
        t == vstd::std_specs::bits::u64_trailing_zeros(b),
        t < 64,
        in_bb(b, t as int),
        forall|s: int| 0 <= s < t ==> !#[trigger] in_bb(b, s),
{
    vstd::std_specs::bits::axiom_u64_trailing_zeros(b);
    let t = vstd::std_specs::bits::u64_trailing_zeros(b);
    assert forall|s: int| 0 <= s < t implies !#[trigger] in_bb(b, s) by {
        assert((b >> (s as u64)) & 1u64 == 0u64);
    }
    t
}

proof fn lemma_clear_lowest_bits(b: u64, t: u64, s: u64)
    by (bit_vector)
    requires
        b != 0,
        t < 64,
        s < 64,
        (b >> t) & 1u64 == 1u64,
        b << ((64 - t) as u64) == 0,
    ensures
        ((b & ((b - 1) as u64)) >> s) & 1u64 == 1u64 <==> (s != t && (b >> s) & 1u64 == 1u64),
{
}

/// Clearing the lowest set bit of `b` removes exactly that square.
pub proof fn lemma_clear_lowest(b: u64)
    requires
        b != 0,
    ensures
        forall|s: int|
            #[trigger] in_bb(b & ((b - 1) as u64), s) == (in_bb(b, s) && s
                != vstd::std_specs::bits::u64_trailing_zeros(b)),
{
    vstd::std_specs::bits::axiom_u64_trailing_zeros(b);
    let t = vstd::std_specs::bits::u64_trailing_zeros(b);
    assert forall|s: int| #[trigger] in_bb(b & ((b - 1) as u64), s) == (in_bb(b, s) && s != t) by {
        if 0 <= s < 64 {
            lemma_clear_lowest_bits(b, t as u64, s as u64);
        }
    }
}

/// A one-bit bitboard for `square`.
pub fn square_bb(square: Square) -> (r: Bitboard)
    requires
        square < 64,
    ensures
        r == 1u64 << square,
        forall|s: int| #[trigger] in_bb(r, s) == (s == square),
{
    broadcast use group_bitboard;

    1u64 << square
}

/// The index of the least significant set bit.
pub fn lsb(bitboard: Bitboard) -> (r: Square)
    ensures
        r == vstd::std_specs::bits::u64_trailing_zeros(bitboard),
        bitboard != 0 ==> r < 64 && in_bb(bitboard, r as int),
        bitboard != 0 ==> forall|s: int| 0 <= s < r ==> !#[trigger] in_bb(bitboard, s),
{
    proof {
        vstd::std_specs::bits::axiom_u64_trailing_zeros(bitboard);
        if bitboard != 0 {
            u64_trailing_zeros_of(bitboard);
        }
    }
    bitboard.trailing_zeros() as Square
}

/// Clear and return the least significant set bit's index.
pub fn pop_lsb(bitboard: &mut Bitboard) -> (r: Square)
    requires
        *old(bitboard) != 0,
    ensures
        r == vstd::std_specs::bits::u64_trailing_zeros(*old(bitboard)),
        r < 64,
        in_bb(*old(bitboard), r as int),
        forall|s: int| 0 <= s < r ==> !#[trigger] in_bb(*old(bitboard), s),
        *final(bitboard) == *old(bitboard) & ((*old(bitboard) - 1) as u64),
        forall|s: int| #[trigger]
            in_bb(*final(bitboard), s) == (in_bb(*old(bitboard), s) && s != r),
{
    let square = lsb(*bitboard);
    proof {
        lemma_clear_lowest(*bitboard);
    }
    *bitboard = *bitboard & (*bitboard - 1);
    square
}

/// The number of set bits among the lowest `n` bits of `b`.
pub open spec fn bit_count(b: u64, n: int) -> int
    decreases n,
{
    if n <= 0 {
        0
    } else {
        bit_count(b, n - 1) + if in_bb(b, n - 1) {
            1int
        } else {
            0int
        }
    }
}

/// The number of squares in a bitboard.
pub open spec fn popcount(b: u64) -> int {
    bit_count(b, 64)
}

pub proof fn lemma_bit_count_bounds(b: u64, n: int)
    requires
        0 <= n,
    ensures
        0 <= bit_count(b, n) <= n,
    decreases n,
{
    if n > 0 {
        lemma_bit_count_bounds(b, n - 1);
    }
}

/// The number of set bits of `bitboard`.
pub fn count_ones(bitboard: Bitboard) -> (r: u32)
    ensures
        r == popcount(bitboard),
        r <= 64,
{
    let mut count: u32 = 0;
    let mut i: u64 = 0;
    while i < 64
        invariant
            i <= 64,
            count == bit_count(bitboard, i as int),
            count <= i,
        decreases 64 - i,
    {
        proof {
            lemma_bit_count_bounds(bitboard, i as int);
        }
        if (bitboard >> i) & 1 == 1 {
            count = count + 1;
        }
        i = i + 1;
    }
    count
}

} // verus!
