//! Move — one move in UCI long algebraic notation, packed into 16 bits.
//!
//! Layout (Chess Programming Wiki "Encoding Moves"): bits 0–5 the from square,
//! bits 6–11 the to square, bits 12–15 a flag. Flag bit 3 marks a promotion and
//! bit 2 marks a capture, so `is_capture` / `is_promotion` are single-bit tests.
use vstd::prelude::*;
use vstd::string::StringSliceAdditionalSpecFns;

use crate::types::{
    file_of, make_square, piece_letter, piece_of_letter, push_char, rank_of, square_of_bytes,
    square_text, PieceType, Square,
};

pub mod flag;

verus! {

#[derive(Clone, Copy, PartialEq, Eq, Debug, Structural)]
pub struct Move(pub u16);

/// The piece a promotion flag promotes to (its two low bits).
pub open spec fn promotion_piece(f: int) -> PieceType {
    if f % 4 == 0 {
        PieceType::Knight
    } else if f % 4 == 1 {
        PieceType::Bishop
    } else if f % 4 == 2 {
        PieceType::Rook
    } else {
        PieceType::Queen
    }
}

impl Move {
    pub open spec fn from_sq(self) -> int {
        (self.0 & 0x3Fu16) as int
    }

    pub open spec fn to_sq(self) -> int {
        ((self.0 >> 6u16) & 0x3Fu16) as int
    }

    pub open spec fn flag_of(self) -> int {
        (self.0 >> 12u16) as int
    }

    pub open spec fn capture_spec(self) -> bool {
        self.flag_of() == 4 || self.flag_of() == 5 || self.flag_of() == 6 || self.flag_of() == 7
            || self.flag_of() >= 12
    }

    pub open spec fn promotion_spec(self) -> Option<PieceType> {
        if self.flag_of() >= 8 {
            Some(promotion_piece(self.flag_of()))
        } else {
            None
        }
    }

    /// The UCI text of a move: from square, to square, then the promotion letter.
    pub open spec fn uci_text(self) -> Seq<char> {
        square_text(self.from_sq()) + square_text(self.to_sq()) + match self.promotion_spec() {
            Some(p) => seq![piece_letter(p)],
            None => Seq::<char>::empty(),
        }
    }

    pub fn new(from: Square, to: Square, flag: u16) -> (r: Move)
        ensures
            r.0 == (from as u16) | ((to as u16) << 6u16) | (flag << 12u16),
            from < 64 && to < 64 && flag < 16 ==> r.from_sq() == from && r.to_sq() == to
                && r.flag_of() == flag,
    {
        let a = from as u16;
        let b = to as u16;
        let r = a | (b << 6) | (flag << 12);
        proof {
            if from < 64 && to < 64 && flag < 16 {
                lemma_pack(a, b, flag);
            }
        }
        Move(r)
    }

    pub fn from(self) -> (r: Square)
        ensures
            r == self.from_sq(),
            r < 64,
    {
        proof {
            lemma_field_bounds(self.0);
        }
        (self.0 & 0x3F) as Square
    }

    pub fn to(self) -> (r: Square)
        ensures
            r == self.to_sq(),
            r < 64,
    {
        proof {
            lemma_field_bounds(self.0);
        }
        ((self.0 >> 6) & 0x3F) as Square
    }

    pub fn flag(self) -> (r: u16)
        ensures
            r == self.flag_of(),
            r < 16,
    {
        proof {
            lemma_field_bounds(self.0);
        }
        self.0 >> 12
    }

    pub fn is_capture(self) -> (r: bool)
        ensures
            r == self.capture_spec(),
    {
        let f = self.flag();
        proof {
            lemma_flag_bits(f);
        }
        f & flag::CAPTURE_BIT != 0
    }

    pub fn is_promotion(self) -> (r: bool)
        ensures
            r == (self.flag_of() >= 8),
    {
        let f = self.flag();
        proof {
            lemma_flag_bits(f);
        }
        f & flag::PROMOTION_BIT != 0
    }

    pub fn is_en_passant(self) -> (r: bool)
        ensures
            r == (self.flag_of() == 5),
    {
        self.flag() == flag::EN_PASSANT
    }

    pub fn is_king_castle(self) -> (r: bool)
        ensures
            r == (self.flag_of() == 2),
    {
        self.flag() == flag::KING_CASTLE
    }

    pub fn is_queen_castle(self) -> (r: bool)
        ensures
            r == (self.flag_of() == 3),
    {
        self.flag() == flag::QUEEN_CASTLE
    }

    pub fn is_double_pawn_push(self) -> (r: bool)
        ensures
            r == (self.flag_of() == 1),
    {
        self.flag() == flag::DOUBLE_PAWN_PUSH
    }

    /// The piece a pawn promotes to, if this move is a promotion.
    pub fn promotion(self) -> (r: Option<PieceType>)
        ensures
            r == self.promotion_spec(),
    {
        if !self.is_promotion() {
            return None;
        }
        let f = self.flag();
        proof {
            lemma_flag_bits(f);
        }
        let low = f & 3;
        Some(
            if low == 0 {
                PieceType::Knight
            } else if low == 1 {
                PieceType::Bishop
            } else if low == 2 {
                PieceType::Rook
            } else {
                PieceType::Queen
            },
        )
    }

    /// UCI long algebraic notation, e.g. `e2e4` or `e7e8q`.
    pub fn to_uci(self) -> (r: String)
        ensures
            r@ == self.uci_text(),
    {
        let mut text = String::new();
        push_square(&mut text, self.from());
        push_square(&mut text, self.to());
        if let Some(promotion) = self.promotion() {
            push_char(&mut text, promotion.to_char());
        }
        proof {
            assert(text@ =~= self.uci_text());
        }
        text
    }
}

/// Append the two UCI characters of `square`.
pub(crate) fn push_square(text: &mut String, square: Square)
    ensures
        final(text)@ == old(text)@ + square_text(square as int),
{
    push_char(text, (97u8 + file_of(square)) as char);
    push_char(text, (49u8 + rank_of(square)) as char);
    proof {
        assert(final(text)@ =~= old(text)@ + square_text(square as int));
    }
}

proof fn lemma_pack(a: u16, b: u16, f: u16)
    by (bit_vector)
    requires
        a < 64,
        b < 64,
        f < 16,
    ensures
        (a | (b << 6u16) | (f << 12u16)) & 0x3Fu16 == a,
        ((a | (b << 6u16) | (f << 12u16)) >> 6u16) & 0x3Fu16 == b,
        (a | (b << 6u16) | (f << 12u16)) >> 12u16 == f,
{
}

proof fn lemma_field_bounds(x: u16)
    by (bit_vector)
    ensures
        x & 0x3Fu16 < 64,
        (x >> 6u16) & 0x3Fu16 < 64,
        x >> 12u16 < 16,
{
}

/// The three fields of a move are within their ranges.
pub proof fn lemma_move_bounds(m: Move)
    ensures
        0 <= m.from_sq() < 64,
        0 <= m.to_sq() < 64,
        0 <= m.flag_of() < 16,
{
    lemma_field_bounds(m.0);
}

/// A move is determined by its three fields.
pub proof fn lemma_move_fields_eq(a: Move, b: Move)
    requires
        a.from_sq() == b.from_sq(),
        a.to_sq() == b.to_sq(),
        a.flag_of() == b.flag_of(),
    ensures
        a == b,
{
    lemma_fields_determine(a.0, b.0);
}

proof fn lemma_fields_determine(x: u16, y: u16)
    by (bit_vector)
    requires
        x & 0x3Fu16 == y & 0x3Fu16,
        (x >> 6u16) & 0x3Fu16 == (y >> 6u16) & 0x3Fu16,
        x >> 12u16 == y >> 12u16,
    ensures
        x == y,
{
}

proof fn lemma_flag_bits(f: u16)
    by (bit_vector)
    requires
        f < 16,
    ensures
        (f & 4u16 != 0) <==> (f == 4 || f == 5 || f == 6 || f == 7 || f >= 12),
        (f & 8u16 != 0) <==> f >= 8,
        f & 3u16 == f % 4,
{
}

/// The squares and promotion piece a UCI move text names, read from its bytes.
pub open spec fn parse_uci_bytes(b: Seq<u8>) -> Option<(int, int, Option<PieceType>)> {
    if b.len() < 4 {
        None
    } else {
        match (square_of_bytes(b.subrange(0, 2)), square_of_bytes(b.subrange(2, 4))) {
            (Some(from), Some(to)) => if b.len() == 4 {
                Some((from, to, None))
            } else {
                match piece_of_letter(b[4] as char) {
                    Some(p) => Some((from, to, Some(p))),
                    None => None,
                }
            },
            _ => None,
        }
    }
}

/// Parse the from/to/promotion of a UCI move string. The flag is resolved
/// against the position when the move is matched to a legal move, so this
/// returns only the raw fields.
pub fn parse_uci(text: &str) -> (r: Option<(Square, Square, Option<PieceType>)>)
    ensures
        r matches Some(t) ==> parse_uci_bytes(text.spec_bytes()) == Some(
            (t.0 as int, t.1 as int, t.2),
        ),
        r is None ==> parse_uci_bytes(text.spec_bytes()) is None,
{
    let bytes = text.as_bytes();
    if bytes.len() < 4 {
        return None;
    }
    let from = match square_from_pair(bytes[0], bytes[1]) {
        Some(s) => s,
        None => return None,
    };
    let to = match square_from_pair(bytes[2], bytes[3]) {
        Some(s) => s,
        None => return None,
    };
    proof {
        assert(bytes@.subrange(0, 2) =~= seq![bytes@[0], bytes@[1]]);
        assert(bytes@.subrange(2, 4) =~= seq![bytes@[2], bytes@[3]]);
    }
    let promotion = if bytes.len() == 4 {
        None
    } else {
        match PieceType::from_char(bytes[4] as char) {
            Some(p) => Some(p),
            None => return None,
        }
    };
    Some((from, to, promotion))
}

/// The square named by a file byte and a rank byte, if they name one.
fn square_from_pair(file_byte: u8, rank_byte: u8) -> (r: Option<Square>)
    ensures
        r matches Some(sq) ==> square_of_bytes(seq![file_byte, rank_byte]) == Some(sq as int)
            && sq < 64,
        r is None ==> square_of_bytes(seq![file_byte, rank_byte]) is None,
{
    if file_byte < 97 || file_byte > 104 || rank_byte < 49 || rank_byte > 56 {
        return None;
    }
    Some(make_square(file_byte - 97, rank_byte - 49))
}

} // verus!
