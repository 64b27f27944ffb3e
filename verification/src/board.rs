//! Board — a chess position in bitboards, with FEN parsing/formatting and
//! make/unmake that maintains the Zobrist key incrementally.
use vstd::prelude::*;

use crate::chess_move::{lemma_move_bounds, Move};
use crate::types::{
    file_of, group_bitboard, in_bb, lemma_empty_iff_zero, lsb, piece_type_of_index, pop_lsb,
    square_bb, Bitboard, Color, Piece, PieceType, Square,
};
use crate::zobrist::{key_at, piece_key_index, zobrist_key};

pub mod fen;
pub mod fen_round_trip;

pub use fen::STARTPOS_FEN;

verus! {

broadcast use group_bitboard;

pub const CASTLE_WK: u8 = 1;

pub const CASTLE_WQ: u8 = 2;

pub const CASTLE_BK: u8 = 4;

pub const CASTLE_BQ: u8 = 8;

/// The abstract content of a board: what stands on each square and the game
/// state around it.
pub struct Position {
    pub squares: Seq<Option<Piece>>,
    pub side: Color,
    pub castling: u8,
    pub en_passant: Option<Square>,
    pub halfmove: u16,
    pub fullmove: u16,
}

/// The squares seen from the other side: ranks flipped and colours swapped.
pub open spec fn mirrored(sq: Seq<Option<Piece>>) -> Seq<Option<Piece>> {
    Seq::new(
        64,
        |s: int|
            match sq[crate::types::flip_square(s)] {
                Some(pc) => Some(Piece { color: pc.color.opp(), piece_type: pc.piece_type }),
                None => None,
            },
    )
}

/// State needed to reverse a move.
#[derive(Clone, Copy)]
pub struct Undo {
    captured: Option<Piece>,
    castling_rights: u8,
    en_passant: Option<Square>,
    halfmove_clock: u16,
    zobrist: u64,
}

#[derive(Clone, Copy)]
pub struct Board {
    pieces: [[Bitboard; 6]; 2],
    color_occupancy: [Bitboard; 2],
    squares: [Option<Piece>; 64],
    side_to_move: Color,
    castling_rights: u8,
    en_passant: Option<Square>,
    halfmove_clock: u16,
    fullmove_number: u16,
    zobrist: u64,
}

/// The color stored in the block `i` of the key table.
pub open spec fn color_of_index(i: int) -> Color {
    if i == 0 {
        Color::White
    } else {
        Color::Black
    }
}

/// The piece whose key sits at key index `k` (for `k < 768`).
pub open spec fn piece_of_key(k: int) -> Piece {
    Piece { color: color_of_index(k / 384), piece_type: piece_type_of_index((k / 64) % 6) }
}

/// The Zobrist key of `piece` standing on square `s`.
pub open spec fn piece_key(piece: Piece, s: int) -> u64 {
    zobrist_key(piece_key_index(piece.color.idx(), piece.piece_type.idx(), s) as nat)
}

/// The contribution of key index `k` to the hash of `squares`.
pub open spec fn key_term(squares: Seq<Option<Piece>>, k: int) -> u64 {
    if squares[k % 64] == Some(piece_of_key(k)) {
        zobrist_key(k as nat)
    } else {
        0
    }
}

/// The XOR of the piece keys with index below `n` that the squares hold.
pub open spec fn pieces_fold(squares: Seq<Option<Piece>>, n: int) -> u64
    decreases n,
{
    if n <= 0 {
        0
    } else {
        pieces_fold(squares, n - 1) ^ key_term(squares, n - 1)
    }
}

pub open spec fn side_hash(side: Color) -> u64 {
    match side {
        Color::White => 0,
        Color::Black => zobrist_key(768),
    }
}

pub open spec fn castling_hash(rights: u8) -> u64 {
    zobrist_key((769 + rights) as nat)
}

pub open spec fn en_passant_hash(ep: Option<Square>) -> u64 {
    match ep {
        Some(s) => zobrist_key((785 + s % 8) as nat),
        None => 0,
    }
}

/// The Zobrist hash of a position: the XOR of the keys of every piece on its
/// square, the side key when Black is to move, the castling-rights key and
/// the en-passant file key.
pub open spec fn position_hash(p: Position) -> u64 {
    pieces_fold(p.squares, 768) ^ side_hash(p.side) ^ castling_hash(p.castling) ^ en_passant_hash(
        p.en_passant,
    )
}

pub proof fn lemma_xor(a: u64, b: u64, c: u64)
    by (bit_vector)
    ensures
        a ^ 0 == a,
        0 ^ a == a,
        a ^ a == 0,
        a ^ b == b ^ a,
        (a ^ b) ^ c == a ^ (b ^ c),
{
}

/// Key indices below 768 decompose into color block, piece block and square.
proof fn lemma_key_decompose(k: int)
    requires
        0 <= k < 768,
    ensures
        k == (k / 384) * 384 + ((k / 64) % 6) * 64 + k % 64,
        0 <= k / 384 < 2,
        0 <= (k / 64) % 6 < 6,
        k / 384 == 0 ==> (k / 64) % 6 == k / 64,
        k / 384 == 1 ==> (k / 64) % 6 == k / 64 - 6,
{
}

/// The key index of `piece` on `s` is the only one naming that piece on that square.
proof fn lemma_piece_index(piece: Piece, s: int)
    requires
        0 <= s < 64,
    ensures
        ({
            let k = piece_key_index(piece.color.idx(), piece.piece_type.idx(), s);
            &&& 0 <= k < 768
            &&& k % 64 == s
            &&& piece_of_key(k) == piece
            &&& forall|j: int|
                0 <= j < 768 && j % 64 == s && piece_of_key(j) == piece ==> j == k
        }),
{
    let k = piece_key_index(piece.color.idx(), piece.piece_type.idx(), s);
    assert forall|j: int| 0 <= j < 768 && j % 64 == s && piece_of_key(j) == piece implies j == k by {
        lemma_key_decompose(j);
    }
}

/// Folding over terms that agree below `n` gives the same result.
proof fn lemma_fold_same(a: Seq<Option<Piece>>, b: Seq<Option<Piece>>, n: int)
    requires
        forall|k: int| 0 <= k < n ==> key_term(a, k) == key_term(b, k),
    ensures
        pieces_fold(a, n) == pieces_fold(b, n),
    decreases n,
{
    if n > 0 {
        lemma_fold_same(a, b, n - 1);
    }
}

/// Changing the terms at one key index changes the fold by that index's key.
proof fn lemma_fold_toggle(a: Seq<Option<Piece>>, b: Seq<Option<Piece>>, k0: int, n: int)
    requires
        forall|k: int| 0 <= k < n && k != k0 ==> key_term(a, k) == key_term(b, k),
        key_term(a, k0) ^ key_term(b, k0) == zobrist_key(k0 as nat),
        0 <= k0,
    ensures
        pieces_fold(b, n) == pieces_fold(a, n) ^ (if k0 < n {
            zobrist_key(k0 as nat)
        } else {
            0
        }),
    decreases n,
{
    if n > 0 {
        lemma_fold_toggle(a, b, k0, n - 1);
        let fa = pieces_fold(a, n - 1);
        let ta = key_term(a, n - 1);
        let tb = key_term(b, n - 1);
        let key = zobrist_key(k0 as nat);
        lemma_xor_shuffle(fa, ta, tb, key);
        lemma_xor(fa ^ ta, 0, 0);
    } else {
        lemma_xor(0, 0, 0);
    }
}

proof fn lemma_xor_shuffle(fa: u64, ta: u64, tb: u64, key: u64)
    by (bit_vector)
    ensures
        ta ^ tb == key ==> (fa ^ 0) ^ tb == (fa ^ ta) ^ key,
        (fa ^ key) ^ ta == (fa ^ ta) ^ key,
        (fa ^ 0) ^ ta == (fa ^ ta) ^ 0,
{
}

/// Putting `piece` on the empty square `s` toggles that piece's key.
pub proof fn lemma_hash_place(squares: Seq<Option<Piece>>, s: int, piece: Piece)
    requires
        squares.len() == 64,
        0 <= s < 64,
        squares[s] is None,
    ensures
        pieces_fold(squares.update(s, Some(piece)), 768) == pieces_fold(squares, 768) ^ piece_key(
            piece,
            s,
        ),
{
    lemma_piece_index(piece, s);
    let k0 = piece_key_index(piece.color.idx(), piece.piece_type.idx(), s);
    let b = squares.update(s, Some(piece));
    assert forall|k: int| 0 <= k < 768 && k != k0 implies key_term(squares, k) == key_term(b, k) by {
        lemma_key_decompose(k);
    }
    lemma_xor(zobrist_key(k0 as nat), 0, 0);
    lemma_fold_toggle(squares, b, k0, 768);
}

/// Emptying square `s` that holds `piece` toggles that piece's key.
pub proof fn lemma_hash_clear(squares: Seq<Option<Piece>>, s: int, piece: Piece)
    requires
        squares.len() == 64,
        0 <= s < 64,
        squares[s] == Some(piece),
    ensures
        pieces_fold(squares.update(s, None), 768) == pieces_fold(squares, 768) ^ piece_key(
            piece,
            s,
        ),
{
    lemma_piece_index(piece, s);
    let k0 = piece_key_index(piece.color.idx(), piece.piece_type.idx(), s);
    let b = squares.update(s, None);
    assert forall|k: int| 0 <= k < 768 && k != k0 implies key_term(squares, k) == key_term(b, k) by {
        lemma_key_decompose(k);
    }
    lemma_xor(zobrist_key(k0 as nat), 0, 0);
    lemma_fold_toggle(squares, b, k0, 768);
}

impl View for Board {
    type V = Position;

    closed spec fn view(&self) -> Position {
        Position {
            squares: self.squares@,
            side: self.side_to_move,
            castling: self.castling_rights,
            en_passant: self.en_passant,
            halfmove: self.halfmove_clock,
            fullmove: self.fullmove_number,
        }
    }
}

impl Board {
    /// The bitboard of `color`'s pieces of kind `piece_type`.
    pub closed spec fn bb(&self, color: Color, piece_type: PieceType) -> u64 {
        self.pieces[color.idx()][piece_type.idx()]
    }

    /// The bitboard of all of `color`'s pieces.
    pub closed spec fn occ_bb(&self, color: Color) -> u64 {
        self.color_occupancy[color.idx()]
    }

    /// The incrementally maintained Zobrist key.
    pub closed spec fn hash_value(&self) -> u64 {
        self.zobrist
    }

    /// The bitboards agree with the squares, and the game state is in range.
    pub open spec fn bits_ok(&self) -> bool {
        &&& self@.squares.len() == 64
        &&& forall|s: int, c: Color, p: PieceType| #[trigger]
            in_bb(self.bb(c, p), s) == (0 <= s < 64 && self@.squares[s] == Some(
                Piece { color: c, piece_type: p },
            ))
        &&& forall|s: int, c: Color| #[trigger]
            in_bb(self.occ_bb(c), s) == (0 <= s < 64 && self@.squares[s] is Some
                && self@.squares[s]->0.color == c)
    }

    /// Well-formedness: consistent bitboards, castling rights within their four
    /// bits, an on-board en-passant square, and the Zobrist key of the position.
    pub open spec fn wf(&self) -> bool {
        &&& self.bits_ok()
        &&& self@.castling < 16
        &&& self@.en_passant matches Some(e) ==> e < 64
        &&& self.hash_value() == position_hash(self@)
    }

    #[inline]
    pub fn pieces(&self, color: Color, piece_type: PieceType) -> (r: Bitboard)
        ensures
            r == self.bb(color, piece_type),
    {
        self.pieces[color.index()][piece_type.index()]
    }

    #[inline]
    pub fn occupancy(&self, color: Color) -> (r: Bitboard)
        ensures
            r == self.occ_bb(color),
    {
        self.color_occupancy[color.index()]
    }

    #[inline]
    pub fn occupied(&self) -> (r: Bitboard)
        ensures
            r == self.occ_bb(Color::White) | self.occ_bb(Color::Black),
            self.bits_ok() ==> forall|s: int| #[trigger]
                in_bb(r, s) == (0 <= s < 64 && self@.squares[s] is Some),
    {
        let r = self.color_occupancy[0] | self.color_occupancy[1];
        proof {
            if self.bits_ok() {
                assert forall|s: int| #[trigger]
                    in_bb(r, s) == (0 <= s < 64 && self@.squares[s] is Some) by {
                    assert(in_bb(self.occ_bb(Color::White), s) == in_bb(
                        self.color_occupancy[0],
                        s,
                    ));
                    assert(in_bb(self.occ_bb(Color::Black), s) == in_bb(
                        self.color_occupancy[1],
                        s,
                    ));
                    if 0 <= s < 64 && self@.squares[s] is Some {
                        assert(self@.squares[s]->0.color == Color::White
                            || self@.squares[s]->0.color == Color::Black);
                    }
                }
            }
        }
        r
    }

    #[inline]
    pub fn piece_at(&self, square: Square) -> (r: Option<Piece>)
        requires
            square < 64,
        ensures
            r == self@.squares[square as int],
    {
        self.squares[square as usize]
    }

    #[inline]
    pub fn side_to_move(&self) -> (r: Color)
        ensures
            r == self@.side,
    {
        self.side_to_move
    }

    #[inline]
    pub fn en_passant(&self) -> (r: Option<Square>)
        ensures
            r == self@.en_passant,
    {
        self.en_passant
    }

    #[inline]
    pub fn castling_rights(&self) -> (r: u8)
        ensures
            r == self@.castling,
    {
        self.castling_rights
    }

    #[inline]
    pub fn zobrist(&self) -> (r: u64)
        ensures
            r == self.hash_value(),
    {
        self.zobrist
    }

    #[inline]
    pub fn halfmove_clock(&self) -> (r: u16)
        ensures
            r == self@.halfmove,
    {
        self.halfmove_clock
    }

    #[inline]
    pub fn fullmove_number(&self) -> (r: u16)
        ensures
            r == self@.fullmove,
    {
        self.fullmove_number
    }

    /// The square of `color`'s king: the lowest square holding one. When
    /// `color` has no king this is 64.
    pub fn king_square(&self, color: Color) -> (r: Square)
        ensures
            r == vstd::std_specs::bits::u64_trailing_zeros(self.bb(color, PieceType::King)),
            self.bb(color, PieceType::King) != 0 ==> r < 64 && in_bb(
                self.bb(color, PieceType::King),
                r as int,
            ),
            self.bb(color, PieceType::King) != 0 ==> forall|s: int|
                0 <= s < r ==> !#[trigger] in_bb(self.bb(color, PieceType::King), s),
    {
        lsb(self.pieces(color, PieceType::King))
    }

    /// The Zobrist key of the position, recomputed from scratch.
    pub fn compute_zobrist(&self) -> (r: u64)
        requires
            self.bits_ok(),
            self@.castling < 16,
        ensures
            r == position_hash(self@),
    {
        let mut hash: u64 = 0;
        let mut c: usize = 0;
        while c < 2
            invariant
                c <= 2,
                self.bits_ok(),
                hash == pieces_fold(self@.squares, (c * 384) as int),
            decreases 2 - c,
        {
            let mut p: usize = 0;
            while p < 6
                invariant
                    c < 2,
                    p <= 6,
                    self.bits_ok(),
                    hash == pieces_fold(self@.squares, (c * 384 + p * 64) as int),
                decreases 6 - p,
            {
                let base: u64 = (c * 384 + p * 64) as u64;
                let ghost color = color_of_index(c as int);
                let ghost ptype = piece_type_of_index(p as int);
                let orig = self.pieces[c][p];
                assert(orig == self.bb(color, ptype));
                let mut bitboard = orig;
                let ghost mut lo: int = 0;
                while bitboard != 0
                    invariant
                        c < 2,
                        p < 6,
                        base == c * 384 + p * 64,
                        color == color_of_index(c as int),
                        ptype == piece_type_of_index(p as int),
                        orig == self.bb(color, ptype),
                        self.bits_ok(),
                        0 <= lo <= 64,
                        forall|s: int| #[trigger] in_bb(bitboard, s) == (in_bb(orig, s) && s >= lo),
                        hash == pieces_fold(self@.squares, base + lo),
                    decreases 64 - lo,
                {
                    let ghost before = bitboard;
                    let square = pop_lsb(&mut bitboard);
                    proof {
                        assert forall|s: int| lo <= s < square implies !#[trigger] in_bb(
                            self.bb(color, ptype),
                            s,
                        ) by {
                            assert(!in_bb(before, s));
                        }
                        self.lemma_fold_skip(color, ptype, base as int, lo, square as int);
                        lemma_key_decompose(base + square);
                    }
                    let key = key_at(base + square as u64);
                    hash = hash ^ key;
                    proof {
                        lo = square + 1;
                    }
                }
                proof {
                    lemma_empty_iff_zero(bitboard);
                    assert forall|s: int| lo <= s < 64 implies !in_bb(orig, s) by {
                        assert(!in_bb(bitboard, s));
                    }
                    self.lemma_fold_skip_rest(color, ptype, base as int, lo);
                }
                p = p + 1;
            }
            c = c + 1;
        }
        assert(hash == pieces_fold(self@.squares, 768));
        if self.side_to_move == Color::Black {
            hash = hash ^ key_at(768);
        } else {
            proof {
                lemma_xor(hash, 0, 0);
            }
        }
        hash = hash ^ key_at(769 + self.castling_rights as u64);
        match self.en_passant {
            Some(square) => {
                hash = hash ^ key_at(785 + file_of(square) as u64);
            },
            None => {
                proof {
                    lemma_xor(hash, 0, 0);
                }
            },
        }
        hash
    }

    /// The terms of the pieces fold in the block of (color, ptype) follow the
    /// bits of that bitboard.
    proof fn lemma_block_terms(&self, color: Color, ptype: PieceType, base: int, s: int)
        requires
            self.bits_ok(),
            base == color.idx() * 384 + ptype.idx() * 64,
            0 <= s < 64,
        ensures
            key_term(self@.squares, base + s) == if in_bb(self.bb(color, ptype), s) {
                zobrist_key((base + s) as nat)
            } else {
                0
            },
    {
        lemma_key_decompose(base + s);
        assert(piece_of_key(base + s) == Piece { color, piece_type: ptype });
    }

    /// Within a block, squares whose bit is clear add nothing to the fold.
    proof fn lemma_fold_skip(&self, color: Color, ptype: PieceType, base: int, lo: int, t: int)
        requires
            self.bits_ok(),
            base == color.idx() * 384 + ptype.idx() * 64,
            0 <= lo <= t < 64,
            forall|s: int| lo <= s < t ==> !#[trigger] in_bb(self.bb(color, ptype), s),
        ensures
            pieces_fold(self@.squares, base + t) == pieces_fold(self@.squares, base + lo),
            in_bb(self.bb(color, ptype), t) ==> pieces_fold(self@.squares, base + t + 1)
                == pieces_fold(self@.squares, base + lo) ^ zobrist_key((base + t) as nat),
        decreases t - lo,
    {
        if t > lo {
            self.lemma_fold_skip(color, ptype, base, lo, t - 1);
            self.lemma_block_terms(color, ptype, base, t - 1);
            lemma_xor(pieces_fold(self@.squares, base + t - 1), 0, 0);
        }
        self.lemma_block_terms(color, ptype, base, t);
        assert(pieces_fold(self@.squares, base + t + 1) == pieces_fold(self@.squares, base + t)
            ^ key_term(self@.squares, base + t));
    }

    proof fn lemma_fold_skip_rest(&self, color: Color, ptype: PieceType, base: int, lo: int)
        requires
            self.bits_ok(),
            base == color.idx() * 384 + ptype.idx() * 64,
            0 <= lo <= 64,
            forall|s: int| lo <= s < 64 ==> !#[trigger] in_bb(self.bb(color, ptype), s),
        ensures
            pieces_fold(self@.squares, base + 64) == pieces_fold(self@.squares, base + lo),
        decreases 64 - lo,
    {
        if lo < 64 {
            self.lemma_fold_skip_rest(color, ptype, base, lo + 1);
            self.lemma_block_terms(color, ptype, base, lo);
            lemma_xor(pieces_fold(self@.squares, base + lo), 0, 0);
        }
    }
}


/// Bitboards are equal when they hold the same squares.
pub proof fn lemma_bb_ext(a: u64, b: u64)
    requires
        forall|s: int| 0 <= s < 64 ==> #[trigger] in_bb(a, s) == in_bb(b, s),
    ensures
        a == b,
{
    assert forall|s: int| !#[trigger] in_bb(a ^ b, s) by {
        if 0 <= s < 64 {
            assert(in_bb(a, s) == in_bb(b, s));
        }
    }
    lemma_empty_iff_zero(a ^ b);
    lemma_xor_zero_eq(a, b);
}

proof fn lemma_xor_zero_eq(a: u64, b: u64)
    by (bit_vector)
    requires
        a ^ b == 0,
    ensures
        a == b,
{
}

/// The castling rights to keep when a piece leaves or lands on `square`: a
/// king or rook leaving its home square (or a piece landing there) loses the
/// rights that depend on it.
pub open spec fn castling_keep(square: int) -> u8 {
    if square == 0 {
        13  // all but white queen side
    } else if square == 4 {
        12  // all but both white rights
    } else if square == 7 {
        14  // all but white king side
    } else if square == 56 {
        7  // all but black queen side
    } else if square == 60 {
        3  // all but both black rights
    } else if square == 63 {
        11  // all but black king side
    } else {
        15
    }
}

/// The castling rights to keep when a piece leaves or lands on `square`.
fn castling_mask(square: Square) -> (r: u8)
    ensures
        r == castling_keep(square as int),
        r <= 15,
{
    proof {
        assert(0xFu8 & !CASTLE_WQ == 13) by (bit_vector);
        assert(0xFu8 & !(CASTLE_WK | CASTLE_WQ) == 12) by (bit_vector);
        assert(0xFu8 & !CASTLE_WK == 14) by (bit_vector);
        assert(0xFu8 & !CASTLE_BQ == 7) by (bit_vector);
        assert(0xFu8 & !(CASTLE_BK | CASTLE_BQ) == 3) by (bit_vector);
        assert(0xFu8 & !CASTLE_BK == 11) by (bit_vector);
    }
    match square {
        0 => 0xF & !CASTLE_WQ,
        4 => 0xF & !(CASTLE_WK | CASTLE_WQ),
        7 => 0xF & !CASTLE_WK,
        56 => 0xF & !CASTLE_BQ,
        60 => 0xF & !(CASTLE_BK | CASTLE_BQ),
        63 => 0xF & !CASTLE_BK,
        _ => 0xF,
    }
}

/// The square of the pawn an en-passant capture by `us` landing on `to` removes.
pub open spec fn ep_victim_square(us: Color, to: int) -> int {
    if us == Color::White {
        to - 8
    } else {
        to + 8
    }
}

/// The square a double pawn push by `us` from `from` skips over.
pub open spec fn skipped_square(us: Color, from: int) -> int {
    if us == Color::White {
        from + 8
    } else {
        from - 8
    }
}

/// The rook's from and to squares for a castle of `us` (king side or queen side).
pub open spec fn castle_rook(us: Color, king_side: bool) -> (int, int) {
    if king_side {
        if us == Color::White {
            (7, 5)
        } else {
            (63, 61)
        }
    } else {
        if us == Color::White {
            (0, 3)
        } else {
            (56, 59)
        }
    }
}

/// `squares` with the piece on `a` moved to `b`.
pub open spec fn shift(squares: Seq<Option<Piece>>, a: int, b: int) -> Seq<Option<Piece>> {
    squares.update(a, None).update(b, squares[a])
}

/// Whether `m` can be played on `p`: the mover stands on its from square and
/// belongs to the side to move, the squares the move empties and fills are as
/// its flag says, and the clocks do not overflow.
pub open spec fn move_applicable(p: Position, m: Move) -> bool {
    let us = p.side;
    let them = us.opp();
    let from = m.from_sq();
    let to = m.to_sq();
    let flag = m.flag_of();
    &&& from != to
    &&& p.squares[from] is Some
    &&& p.squares[from]->0.color == us
    &&& m.promotion_spec() is Some ==> p.squares[from]->0.piece_type == PieceType::Pawn
    &&& if flag == 5 {
        let victim = ep_victim_square(us, to);
        &&& 0 <= victim < 64
        &&& p.squares[victim] == Some(Piece { color: them, piece_type: PieceType::Pawn })
        &&& p.squares[to] is None
    } else if m.capture_spec() {
        p.squares[to] is Some
    } else {
        p.squares[to] is None
    }
    &&& (flag == 2 || flag == 3) ==> {
        let (rf, rt) = castle_rook(us, flag == 2);
        &&& rf != from && rf != to && rt != from && rt != to
        &&& p.squares[rf] == Some(Piece { color: us, piece_type: PieceType::Rook })
        &&& p.squares[rt] is None
    }
    &&& flag == 1 ==> 0 <= skipped_square(us, from) < 64
    &&& !(p.squares[from]->0.piece_type == PieceType::Pawn || m.capture_spec()) ==> p.halfmove
        < 0xFFFF
    &&& us == Color::Black ==> p.fullmove < 0xFFFF
}

/// The position after playing `m` on `p`.
pub open spec fn make_spec(p: Position, m: Move) -> Position {
    let us = p.side;
    let from = m.from_sq();
    let to = m.to_sq();
    let flag = m.flag_of();
    let moving = p.squares[from]->0.piece_type;
    let s1 = if flag == 5 {
        p.squares.update(ep_victim_square(us, to), None)
    } else {
        p.squares
    };
    let placed = match m.promotion_spec() {
        Some(promo) => Piece { color: us, piece_type: promo },
        None => Piece { color: us, piece_type: moving },
    };
    let s2 = s1.update(from, None).update(to, Some(placed));
    let s3 = if flag == 2 || flag == 3 {
        let (rf, rt) = castle_rook(us, flag == 2);
        shift(s2, rf, rt)
    } else {
        s2
    };
    Position {
        squares: s3,
        side: us.opp(),
        castling: p.castling & castling_keep(from) & castling_keep(to),
        en_passant: if flag == 1 {
            Some(skipped_square(us, from) as u8)
        } else {
            None
        },
        halfmove: if moving == PieceType::Pawn || m.capture_spec() {
            0
        } else {
            (p.halfmove + 1) as u16
        },
        fullmove: if us == Color::Black {
            (p.fullmove + 1) as u16
        } else {
            p.fullmove
        },
    }
}

impl Undo {
    pub closed spec fn captured_spec(self) -> Option<Piece> {
        self.captured
    }

    pub closed spec fn castling_spec(self) -> u8 {
        self.castling_rights
    }

    pub closed spec fn en_passant_spec(self) -> Option<Square> {
        self.en_passant
    }

    pub closed spec fn halfmove_spec(self) -> u16 {
        self.halfmove_clock
    }

    pub closed spec fn zobrist_spec(self) -> u64 {
        self.zobrist
    }
}

/// What `make_move` records to take `m` back on `p`.
pub open spec fn undo_matches(u: Undo, p: Position, m: Move) -> bool {
    &&& u.captured_spec() == if m.flag_of() == 5 {
        Some(Piece { color: p.side.opp(), piece_type: PieceType::Pawn })
    } else if m.capture_spec() {
        p.squares[m.to_sq()]
    } else {
        None
    }
    &&& u.castling_spec() == p.castling
    &&& u.en_passant_spec() == p.en_passant
    &&& u.halfmove_spec() == p.halfmove
    &&& u.zobrist_spec() == position_hash(p)
}

/// The position after taking `m` back from `p` with the record `u`.
pub open spec fn unmake_spec(p: Position, m: Move, u: Undo) -> Position {
    let us = p.side.opp();
    let them = us.opp();
    let from = m.from_sq();
    let to = m.to_sq();
    let flag = m.flag_of();
    let moved = p.squares[to]->0.piece_type;
    let back = match m.promotion_spec() {
        Some(_) => Piece { color: us, piece_type: PieceType::Pawn },
        None => Piece { color: us, piece_type: moved },
    };
    let s1 = p.squares.update(to, None).update(from, Some(back));
    let s2 = if flag == 2 || flag == 3 {
        let (rf, rt) = castle_rook(us, flag == 2);
        shift(s1, rt, rf)
    } else {
        s1
    };
    let s3 = if flag == 5 {
        s2.update(ep_victim_square(us, to), Some(Piece { color: them, piece_type: PieceType::Pawn }))
    } else {
        match u.captured_spec() {
            Some(victim) => s2.update(to, Some(victim)),
            None => s2,
        }
    };
    Position {
        squares: s3,
        side: us,
        castling: u.castling_spec(),
        en_passant: u.en_passant_spec(),
        halfmove: u.halfmove_spec(),
        fullmove: if us == Color::Black {
            (p.fullmove - 1) as u16
        } else {
            p.fullmove
        },
    }
}

/// Whether `m` can be taken back from `p` with the record `u`: the moved piece
/// stands on the to square, the squares it and the captured piece return to are
/// empty, and the record's state is in range and hashes the restored position.
pub open spec fn unmake_applicable(p: Position, m: Move, u: Undo) -> bool {
    let us = p.side.opp();
    let from = m.from_sq();
    let to = m.to_sq();
    let flag = m.flag_of();
    &&& from != to
    &&& p.squares[to] is Some
    &&& p.squares[to]->0.color == us
    &&& m.promotion_spec() matches Some(promo) ==> p.squares[to]->0.piece_type == promo
    &&& p.squares[from] is None
    &&& (flag == 2 || flag == 3) ==> {
        let (rf, rt) = castle_rook(us, flag == 2);
        &&& rf != from && rf != to && rt != from && rt != to
        &&& p.squares[rt] == Some(Piece { color: us, piece_type: PieceType::Rook })
        &&& p.squares[rf] is None
    }
    &&& flag == 5 ==> {
        let victim = ep_victim_square(us, to);
        &&& 0 <= victim < 64
        &&& victim != from
        &&& p.squares[victim] is None
    }
    &&& us == Color::Black ==> p.fullmove >= 1
    &&& u.castling_spec() < 16
    &&& u.en_passant_spec() matches Some(e) ==> e < 64
    &&& u.zobrist_spec() == position_hash(unmake_spec(p, m, u))
}

impl Board {
    /// Every wf board is determined by its position.
    pub proof fn lemma_view_determines(b1: Board, b2: Board)
        requires
            b1.wf(),
            b2.wf(),
            b1@ == b2@,
        ensures
            b1 == b2,
    {
        assert forall|c: int, p: int| 0 <= c < 2 && 0 <= p < 6 implies b1.pieces[c][p]
            == b2.pieces[c][p] by {
            let color = color_of_index(c);
            let ptype = piece_type_of_index(p);
            assert forall|s: int| 0 <= s < 64 implies #[trigger] in_bb(b1.pieces[c][p], s) == in_bb(
                b2.pieces[c][p],
                s,
            ) by {
                assert(in_bb(b1.bb(color, ptype), s) == in_bb(b2.bb(color, ptype), s));
            }
            lemma_bb_ext(b1.pieces[c][p], b2.pieces[c][p]);
        }
        assert(b1.pieces[0] =~= b2.pieces[0]);
        assert(b1.pieces[1] =~= b2.pieces[1]);
        assert(b1.pieces =~= b2.pieces);
        assert forall|c: int| 0 <= c < 2 implies b1.color_occupancy[c] == b2.color_occupancy[c] by {
            let color = color_of_index(c);
            assert forall|s: int| 0 <= s < 64 implies #[trigger] in_bb(b1.color_occupancy[c], s)
                == in_bb(b2.color_occupancy[c], s) by {
                assert(in_bb(b1.occ_bb(color), s) == in_bb(b2.occ_bb(color), s));
            }
            lemma_bb_ext(b1.color_occupancy[c], b2.color_occupancy[c]);
        }
        assert(b1.color_occupancy =~= b2.color_occupancy);
        assert(b1.squares =~= b2.squares);
    }

    /// The hash XOR the pieces fold: the part of the key not due to pieces.
    spec fn rest_hash(&self) -> u64 {
        self.zobrist ^ pieces_fold(self.squares@, 768)
    }

    /// Set the game state around the pieces and key the position.
    fn set_state(
        &mut self,
        side: Color,
        castling: u8,
        en_passant: Option<Square>,
        halfmove: u16,
        fullmove: u16,
    )
        requires
            old(self).bits_ok(),
            castling < 16,
            en_passant matches Some(e) ==> e < 64,
        ensures
            final(self).wf(),
            final(self)@ == (Position {
                squares: old(self)@.squares,
                side,
                castling,
                en_passant,
                halfmove,
                fullmove,
            }),
    {
        let ghost b0 = *self;
        self.side_to_move = side;
        self.castling_rights = castling;
        self.en_passant = en_passant;
        self.halfmove_clock = halfmove;
        self.fullmove_number = fullmove;
        proof {
            Board::lemma_bits_ok_same(b0, *self);
        }
        let z = self.compute_zobrist();
        let ghost b1 = *self;
        self.zobrist = z;
        proof {
            Board::lemma_bits_ok_same(b1, *self);
        }
    }

    fn add_piece(&mut self, color: Color, piece_type: PieceType, square: Square)
        requires
            old(self).bits_ok(),
            square < 64,
            old(self)@.squares[square as int] is None,
        ensures
            final(self).bits_ok(),
            final(self)@ == (Position {
                squares: old(self)@.squares.update(
                    square as int,
                    Some(Piece { color, piece_type }),
                ),
                ..old(self)@
            }),
            final(self).rest_hash() == old(self).rest_hash(),
    {
        let ghost old_b = *self;
        let mask = square_bb(square);
        let ci = color.index();
        let pi = piece_type.index();
        let mut row = self.pieces[ci];
        row[pi] = row[pi] | mask;
        self.pieces[ci] = row;
        self.color_occupancy[ci] = self.color_occupancy[ci] | mask;
        let ghost old_squares = self.squares@;
        self.squares[square as usize] = Some(Piece { color, piece_type });
        let key = key_at(ci as u64 * 384 + pi as u64 * 64 + square as u64);
        let ghost z = self.zobrist;
        self.zobrist = self.zobrist ^ key;
        proof {
            let piece = Piece { color, piece_type };
            assert forall|s2: int, c2: Color, p2: PieceType| #[trigger]
                in_bb(self.bb(c2, p2), s2) == (0 <= s2 < 64 && self@.squares[s2] == Some(
                    Piece { color: c2, piece_type: p2 },
                )) by {
                if c2 == color && p2 == piece_type {
                    assert(self.bb(c2, p2) == old_b.bb(c2, p2) | mask);
                } else {
                    assert(self.bb(c2, p2) == old_b.bb(c2, p2));
                }
                assert(in_bb(old_b.bb(c2, p2), s2) == (0 <= s2 < 64 && old_b@.squares[s2] == Some(
                    Piece { color: c2, piece_type: p2 },
                )));
            }
            assert forall|s2: int, c2: Color| #[trigger]
                in_bb(self.occ_bb(c2), s2) == (0 <= s2 < 64 && self@.squares[s2] is Some
                    && self@.squares[s2]->0.color == c2) by {
                if c2 == color {
                    assert(self.occ_bb(c2) == old_b.occ_bb(c2) | mask);
                } else {
                    assert(self.occ_bb(c2) == old_b.occ_bb(c2));
                }
                assert(in_bb(old_b.occ_bb(c2), s2) == (0 <= s2 < 64 && old_b@.squares[s2] is Some
                    && old_b@.squares[s2]->0.color == c2));
            }
            lemma_hash_place(old_squares, square as int, piece);
            assert(self.squares@ == old_squares.update(square as int, Some(piece)));
            lemma_xor_step(z, pieces_fold(old_squares, 768), key);
        }
    }

    fn remove_piece(&mut self, color: Color, piece_type: PieceType, square: Square)
        requires
            old(self).bits_ok(),
            square < 64,
            old(self)@.squares[square as int] == Some(Piece { color, piece_type }),
        ensures
            final(self).bits_ok(),
            final(self)@ == (Position {
                squares: old(self)@.squares.update(square as int, None),
                ..old(self)@
            }),
            final(self).rest_hash() == old(self).rest_hash(),
    {
        let ghost old_b = *self;
        let mask = square_bb(square);
        let ci = color.index();
        let pi = piece_type.index();
        let mut row = self.pieces[ci];
        row[pi] = row[pi] & !mask;
        self.pieces[ci] = row;
        self.color_occupancy[ci] = self.color_occupancy[ci] & !mask;
        let ghost old_squares = self.squares@;
        self.squares[square as usize] = None;
        let key = key_at(ci as u64 * 384 + pi as u64 * 64 + square as u64);
        let ghost z = self.zobrist;
        self.zobrist = self.zobrist ^ key;
        proof {
            let piece = Piece { color, piece_type };
            assert forall|s2: int, c2: Color, p2: PieceType| #[trigger]
                in_bb(self.bb(c2, p2), s2) == (0 <= s2 < 64 && self@.squares[s2] == Some(
                    Piece { color: c2, piece_type: p2 },
                )) by {
                if c2 == color && p2 == piece_type {
                    assert(self.bb(c2, p2) == old_b.bb(c2, p2) & !mask);
                } else {
                    assert(self.bb(c2, p2) == old_b.bb(c2, p2));
                }
                assert(in_bb(old_b.bb(c2, p2), s2) == (0 <= s2 < 64 && old_b@.squares[s2] == Some(
                    Piece { color: c2, piece_type: p2 },
                )));
            }
            assert forall|s2: int, c2: Color| #[trigger]
                in_bb(self.occ_bb(c2), s2) == (0 <= s2 < 64 && self@.squares[s2] is Some
                    && self@.squares[s2]->0.color == c2) by {
                if c2 == color {
                    assert(self.occ_bb(c2) == old_b.occ_bb(c2) & !mask);
                } else {
                    assert(self.occ_bb(c2) == old_b.occ_bb(c2));
                }
                assert(in_bb(old_b.occ_bb(c2), s2) == (0 <= s2 < 64 && old_b@.squares[s2] is Some
                    && old_b@.squares[s2]->0.color == c2));
            }
            lemma_hash_clear(old_squares, square as int, piece);
            assert(self.squares@ == old_squares.update(square as int, None));
            lemma_xor_step(z, pieces_fold(old_squares, 768), key);
        }
    }

    fn move_piece(&mut self, color: Color, piece_type: PieceType, from: Square, to: Square)
        requires
            old(self).bits_ok(),
            from < 64,
            to < 64,
            from != to,
            old(self)@.squares[from as int] == Some(Piece { color, piece_type }),
            old(self)@.squares[to as int] is None,
        ensures
            final(self).bits_ok(),
            final(self)@ == (Position {
                squares: shift(old(self)@.squares, from as int, to as int),
                ..old(self)@
            }),
            final(self).rest_hash() == old(self).rest_hash(),
    {
        self.remove_piece(color, piece_type, from);
        self.add_piece(color, piece_type, to);
        proof {
            assert(self@.squares =~= shift(old(self)@.squares, from as int, to as int));
        }
    }
}

/// The squares after the piece moves of `m` (everything but the game state).
pub open spec fn make_squares(p: Position, m: Move) -> Seq<Option<Piece>> {
    make_spec(p, m).squares
}

impl Board {
    proof fn lemma_bits_ok_same(a: Board, b: Board)
        requires
            a.bits_ok(),
            a.pieces == b.pieces,
            a.color_occupancy == b.color_occupancy,
            a.squares == b.squares,
        ensures
            b.bits_ok(),
    {
        assert forall|s: int, c: Color, p: PieceType| #[trigger]
            in_bb(b.bb(c, p), s) == (0 <= s < 64 && b@.squares[s] == Some(
                Piece { color: c, piece_type: p },
            )) by {
            assert(in_bb(a.bb(c, p), s) == (0 <= s < 64 && a@.squares[s] == Some(
                Piece { color: c, piece_type: p },
            )));
        }
        assert forall|s: int, c: Color| #[trigger]
            in_bb(b.occ_bb(c), s) == (0 <= s < 64 && b@.squares[s] is Some
                && b@.squares[s]->0.color == c) by {
            assert(in_bb(a.occ_bb(c), s) == (0 <= s < 64 && a@.squares[s] is Some
                && a@.squares[s]->0.color == c));
        }
    }

    /// Moves the pieces of `mv`: the capture, the mover (or its promotion) and
    /// the castling rook.
    fn play_pieces(&mut self, mv: Move, us: Color, moving: PieceType) -> (captured: Option<Piece>)
        requires
            old(self).bits_ok(),
            move_applicable(old(self)@, mv),
            us == old(self)@.side,
            old(self)@.squares[mv.from_sq()] == Some(Piece { color: us, piece_type: moving }),
        ensures
            final(self).bits_ok(),
            final(self)@ == (Position { squares: make_squares(old(self)@, mv), ..old(self)@ }),
            final(self).rest_hash() == old(self).rest_hash(),
            captured == if mv.flag_of() == 5 {
                Some(Piece { color: us.opp(), piece_type: PieceType::Pawn })
            } else if mv.capture_spec() {
                old(self)@.squares[mv.to_sq()]
            } else {
                None
            },
    {
        let ghost p0 = self@;
        let them = us.opponent();
        let from = mv.from();
        let to = mv.to();
        let mut captured = None;
        if mv.is_en_passant() {
            let captured_square = if us == Color::White {
                to - 8
            } else {
                to + 8
            };
            captured = Some(Piece { color: them, piece_type: PieceType::Pawn });
            self.remove_piece(them, PieceType::Pawn, captured_square);
        } else if mv.is_capture() {
            let victim = self.squares[to as usize].unwrap();
            captured = Some(victim);
            self.remove_piece(victim.color, victim.piece_type, to);
        }
        if let Some(promotion) = mv.promotion() {
            self.remove_piece(us, PieceType::Pawn, from);
            self.add_piece(us, promotion, to);
        } else {
            self.move_piece(us, moving, from, to);
        }
        if mv.is_king_castle() {
            let (rook_from, rook_to): (u8, u8) = if us == Color::White {
                (7, 5)
            } else {
                (63, 61)
            };
            self.move_piece(us, PieceType::Rook, rook_from, rook_to);
        } else if mv.is_queen_castle() {
            let (rook_from, rook_to): (u8, u8) = if us == Color::White {
                (0, 3)
            } else {
                (56, 59)
            };
            self.move_piece(us, PieceType::Rook, rook_from, rook_to);
        }
        proof {
            assert(self@.squares =~= make_squares(p0, mv));
        }
        captured
    }

    /// Updates the game state after the pieces of `mv` have moved: the
    /// en-passant square, the castling rights, the clocks, the side to move,
    /// and their parts of the key.
    fn update_state(&mut self, mv: Move, us: Color, moving: PieceType)
        requires
            old(self).bits_ok(),
            old(self)@.side == us,
            old(self)@.en_passant is None,
            old(self)@.castling < 16,
            mv.flag_of() == 1 ==> 0 <= skipped_square(us, mv.from_sq()) < 64,
            !(moving == PieceType::Pawn || mv.capture_spec()) ==> old(self)@.halfmove < 0xFFFF,
            us == Color::Black ==> old(self)@.fullmove < 0xFFFF,
        ensures
            final(self).bits_ok(),
            final(self)@.squares == old(self)@.squares,
            final(self)@.side == us.opp(),
            final(self)@.castling == old(self)@.castling & castling_keep(mv.from_sq())
                & castling_keep(mv.to_sq()),
            final(self)@.castling < 16,
            final(self)@.en_passant == if mv.flag_of() == 1 {
                Some(skipped_square(us, mv.from_sq()) as u8)
            } else {
                None
            },
            final(self)@.halfmove == if moving == PieceType::Pawn || mv.capture_spec() {
                0
            } else {
                (old(self)@.halfmove + 1) as u16
            },
            final(self)@.fullmove == if us == Color::Black {
                (old(self)@.fullmove + 1) as u16
            } else {
                old(self)@.fullmove
            },
            final(self).hash_value() == ((old(self).hash_value() ^ en_passant_hash(
                final(self)@.en_passant,
            )) ^ (castling_hash(old(self)@.castling) ^ castling_hash(final(self)@.castling)))
                ^ zobrist_key(768),
    {
        let ghost start = *self;
        let from = mv.from();
        let to = mv.to();
        if mv.is_double_pawn_push() {
            let square = if us == Color::White {
                from + 8
            } else {
                from - 8
            };
            self.en_passant = Some(square);
            self.zobrist = self.zobrist ^ key_at(785 + file_of(square) as u64);
        } else {
            proof {
                lemma_xor(self.zobrist, 0, 0);
            }
        }
        let ghost z3 = self.zobrist;
        let old_rights = self.castling_rights;
        let new_rights = old_rights & castling_mask(from) & castling_mask(to);
        proof {
            lemma_and_small(old_rights, castling_keep(from as int), castling_keep(to as int));
        }
        self.castling_rights = new_rights;
        let ghost cc = castling_hash(old_rights) ^ castling_hash(new_rights);
        if new_rights != old_rights {
            self.zobrist = self.zobrist ^ (key_at(769 + old_rights as u64) ^ key_at(
                769 + new_rights as u64,
            ));
        } else {
            proof {
                lemma_xor(castling_hash(old_rights), 0, 0);
                lemma_xor(self.zobrist, 0, 0);
            }
        }
        assert(self.zobrist == z3 ^ cc);
        if moving == PieceType::Pawn || mv.is_capture() {
            self.halfmove_clock = 0;
        } else {
            self.halfmove_clock = self.halfmove_clock + 1;
        }
        if us == Color::Black {
            self.fullmove_number = self.fullmove_number + 1;
        }
        self.side_to_move = us.opponent();
        self.zobrist = self.zobrist ^ key_at(768);
        proof {
            Board::lemma_bits_ok_same(start, *self);
        }
    }

    pub fn make_move(&mut self, mv: Move) -> (undo: Undo)
        requires
            old(self).wf(),
            move_applicable(old(self)@, mv),
        ensures
            final(self).wf(),
            final(self)@ == make_spec(old(self)@, mv),
            undo_matches(undo, old(self)@, mv),
    {
        let ghost p0 = self@;
        let ghost z0 = self.zobrist;
        let castling_before = self.castling_rights;
        let en_passant_before = self.en_passant;
        let halfmove_before = self.halfmove_clock;
        let zobrist_before = self.zobrist;
        let us = self.side_to_move;
        let from = mv.from();
        let moving = self.squares[from as usize].unwrap().piece_type;

        if let Some(square) = self.en_passant {
            self.zobrist = self.zobrist ^ key_at(785 + file_of(square) as u64);
        } else {
            proof {
                lemma_xor(self.zobrist, 0, 0);
            }
        }
        self.en_passant = None;
        let ghost z1 = self.zobrist;
        proof {
            Board::lemma_bits_ok_same(*old(self), *self);
        }
        let captured = self.play_pieces(mv, us, moving);
        let ghost z2 = self.zobrist;
        let ghost p2 = pieces_fold(self@.squares, 768);
        assert(z2 ^ p2 == z1 ^ pieces_fold(p0.squares, 768));
        self.update_state(mv, us, moving);
        proof {
            lemma_final_hash(
                z0,
                pieces_fold(p0.squares, 768),
                side_hash(p0.side),
                castling_hash(p0.castling),
                en_passant_hash(p0.en_passant),
                z1,
                z2,
                p2,
                en_passant_hash(self@.en_passant),
                castling_hash(self@.castling),
                zobrist_key(768),
                self.zobrist,
            );
            lemma_xor(0, zobrist_key(768), 0);
            lemma_xor(zobrist_key(768), 0, 0);
            assert(side_hash(self@.side) == side_hash(p0.side) ^ zobrist_key(768));
            assert(self@ == make_spec(p0, mv));
        }
        Undo {
            captured,
            castling_rights: castling_before,
            en_passant: en_passant_before,
            halfmove_clock: halfmove_before,
            zobrist: zobrist_before,
        }
    }

    /// Moves the pieces of `mv` back: the mover (or the pawn it promoted
    /// from), the castling rook and the captured piece.
    fn unplay_pieces(&mut self, mv: Move, undo: Undo, us: Color)
        requires
            old(self).bits_ok(),
            unmake_applicable(old(self)@, mv, undo),
            us == old(self)@.side.opp(),
        ensures
            final(self).bits_ok(),
            final(self)@ == (Position {
                squares: unmake_spec(old(self)@, mv, undo).squares,
                ..old(self)@
            }),
    {
        let ghost p0 = self@;
        let them = us.opponent();
        let from = mv.from();
        let to = mv.to();
        if let Some(promotion) = mv.promotion() {
            self.remove_piece(us, promotion, to);
            self.add_piece(us, PieceType::Pawn, from);
        } else {
            let moved = self.squares[to as usize].unwrap().piece_type;
            self.move_piece(us, moved, to, from);
        }
        if mv.is_king_castle() {
            let (rook_from, rook_to): (u8, u8) = if us == Color::White {
                (7, 5)
            } else {
                (63, 61)
            };
            self.move_piece(us, PieceType::Rook, rook_to, rook_from);
        } else if mv.is_queen_castle() {
            let (rook_from, rook_to): (u8, u8) = if us == Color::White {
                (0, 3)
            } else {
                (56, 59)
            };
            self.move_piece(us, PieceType::Rook, rook_to, rook_from);
        }
        if mv.is_en_passant() {
            let captured_square = if us == Color::White {
                to - 8
            } else {
                to + 8
            };
            self.add_piece(them, PieceType::Pawn, captured_square);
        } else if let Some(victim) = undo.captured {
            self.add_piece(victim.color, victim.piece_type, to);
        }
        proof {
            assert(self@.squares =~= unmake_spec(p0, mv, undo).squares);
        }
    }

    pub fn unmake_move(&mut self, mv: Move, undo: Undo)
        requires
            old(self).bits_ok(),
            unmake_applicable(old(self)@, mv, undo),
        ensures
            final(self).wf(),
            final(self)@ == unmake_spec(old(self)@, mv, undo),
    {
        let ghost p0 = self@;
        let us = self.side_to_move.opponent();
        self.unplay_pieces(mv, undo, us);
        let ghost mid = *self;
        self.castling_rights = undo.castling_rights;
        self.en_passant = undo.en_passant;
        self.halfmove_clock = undo.halfmove_clock;
        if us == Color::Black {
            self.fullmove_number = self.fullmove_number - 1;
        }
        self.side_to_move = us;
        self.zobrist = undo.zobrist;
        proof {
            Board::lemma_bits_ok_same(mid, *self);
            assert(self@ == unmake_spec(p0, mv, undo));
        }
    }
}

/// Taking a move back restores the position it was played from: whenever `m`
/// can be played on `p`, the record `make_move` returns lets `unmake_move`
/// take it back, and the result is `p` again.
pub proof fn law_unmake_undoes_make(p: Position, m: Move, u: Undo)
    requires
        p.squares.len() == 64,
        p.castling < 16,
        p.en_passant matches Some(e) ==> e < 64,
        move_applicable(p, m),
        undo_matches(u, p, m),
    ensures
        unmake_applicable(make_spec(p, m), m, u),
        unmake_spec(make_spec(p, m), m, u) == p,
{
    let q = make_spec(p, m);
    let us = p.side;
    let from = m.from_sq();
    let to = m.to_sq();
    let flag = m.flag_of();
    let castle = flag == 2 || flag == 3;
    let (rf, rt) = castle_rook(us, flag == 2);
    lemma_move_bounds(m);
    assert(q.squares.len() == 64);
    assert(q.squares[to] is Some && q.squares[to]->0.color == us);
    assert(q.squares[from] is None);
    if castle {
        assert(q.squares[rt] == Some(Piece { color: us, piece_type: PieceType::Rook }));
        assert(q.squares[rf] is None);
    }
    if flag == 5 {
        assert(q.squares[ep_victim_square(us, to)] is None);
    }
    let r = unmake_spec(q, m, u);
    assert forall|i: int| 0 <= i < 64 implies #[trigger] r.squares[i] == p.squares[i] by {
        if flag == 5 && i == ep_victim_square(us, to) {
        } else if i == to {
        } else if i == from {
        } else if castle && (i == rf || i == rt) {
        } else {
        }
    }
    assert(r.squares =~= p.squares);
    assert(r == p);
}

/// A board that plays a move and takes it back is the board it started as,
/// bitboards and Zobrist key included.
pub proof fn law_make_unmake_restores_board(b0: Board, b1: Board, b2: Board, m: Move, u: Undo)
    requires
        b0.wf(),
        move_applicable(b0@, m),
        b1@ == make_spec(b0@, m),
        undo_matches(u, b0@, m),
        b2.wf(),
        b2@ == unmake_spec(b1@, m, u),
    ensures
        b2 == b0,
{
    law_unmake_undoes_make(b0@, m, u);
    Board::lemma_view_determines(b2, b0);
}

proof fn lemma_and_small(a: u8, b: u8, c: u8)
    by (bit_vector)
    requires
        c <= 15,
    ensures
        a & b & c <= 15,
{
}

proof fn lemma_final_hash(
    z0: u64,
    p0: u64,
    s0: u64,
    c0: u64,
    e0: u64,
    z1: u64,
    z2: u64,
    p2: u64,
    e1: u64,
    c1: u64,
    k: u64,
    z5: u64,
)
    by (bit_vector)
    requires
        z0 == ((p0 ^ s0) ^ c0) ^ e0,
        z1 == z0 ^ e0,
        z2 ^ p2 == z1 ^ p0,
        z5 == ((z2 ^ e1) ^ (c0 ^ c1)) ^ k,
    ensures
        z5 == ((p2 ^ (s0 ^ k)) ^ c1) ^ e1,
{
}

proof fn lemma_xor_step(z: u64, f: u64, k: u64)
    by (bit_vector)
    ensures
        (z ^ k) ^ (f ^ k) == z ^ f,
{
}
} // verus!
