//! Evaluation — tapered material and piece-square tables from PeSTO, with
//! king safety and mobility.
//!
//! The published tables are rank-8-first; the evaluation reads them in the
//! engine's a1 = 0 order and mirrors them by rank for Black.
use vstd::prelude::*;

pub mod mirror;

use crate::attacks::{
    abs, bishop_attacks, bits, forward, king_attacks, king_target, knight_attacks, occupied_in, pawn_attacks,
    piece_attacks, queen_attacks, rook_attacks,
};
use crate::board::{Board, Position};
use crate::movegen::{color_at, holds, king_square_of, lemma_king_square};
use crate::pesto::{human_entry, human_value, lemma_tables_bounded};
use crate::sums::{
    count_where, lemma_count_bits, lemma_sum_bound, lemma_sum_empty, lemma_sum_ext,
    lemma_sum_remove, lemma_sum_terms, sum_where,
};
use crate::types::{
    count_ones, file_of, group_bitboard, in_bb, make_square, piece_type_of_index, pop_lsb, popcount,
    rank_of, square_bb, Bitboard, Color, Piece, PieceType, Square,
};

verus! {

broadcast use group_bitboard;

pub const PHASE_MAX: i32 = 24;

pub const KING_SHIELD_MG: i32 = 12;

/// The material value of a piece kind, middlegame (`mg`) or endgame.
pub open spec fn piece_value(mg: bool, t: PieceType) -> int {
    match t {
        PieceType::Pawn => if mg {
            82
        } else {
            94
        },
        PieceType::Knight => if mg {
            337
        } else {
            281
        },
        PieceType::Bishop => if mg {
            365
        } else {
            297
        },
        PieceType::Rook => if mg {
            477
        } else {
            512
        },
        PieceType::Queen => if mg {
            1025
        } else {
            936
        },
        PieceType::King => 0,
    }
}

/// The middlegame material value of a piece kind, the engine's piece value.
pub fn mg_piece_value(t: PieceType) -> (r: i32)
    ensures
        r == piece_value(true, t),
{
    match t {
        PieceType::Pawn => 82,
        PieceType::Knight => 337,
        PieceType::Bishop => 365,
        PieceType::Rook => 477,
        PieceType::Queen => 1025,
        PieceType::King => 0,
    }
}

/// The endgame material value of a piece kind.
pub fn eg_piece_value(t: PieceType) -> (r: i32)
    ensures
        r == piece_value(false, t),
{
    match t {
        PieceType::Pawn => 94,
        PieceType::Knight => 281,
        PieceType::Bishop => 297,
        PieceType::Rook => 512,
        PieceType::Queen => 936,
        PieceType::King => 0,
    }
}

/// The game-phase weight of a piece kind.
pub open spec fn phase_value(t: PieceType) -> int {
    match t {
        PieceType::Knight => 1,
        PieceType::Bishop => 1,
        PieceType::Rook => 2,
        PieceType::Queen => 4,
        _ => 0,
    }
}

fn phase_weight(t: PieceType) -> (r: i32)
    ensures
        r == phase_value(t),
        0 <= r <= 4,
{
    match t {
        PieceType::Knight => 1,
        PieceType::Bishop => 1,
        PieceType::Rook => 2,
        PieceType::Queen => 4,
        _ => 0,
    }
}

/// The square whose row of the published (rank-8-first) table holds `sq`.
pub open spec fn flip_index(sq: int) -> int {
    (7 - sq / 8) * 8 + sq % 8
}

/// The table flipped to a1 = 0 order: White's table.
pub open spec fn flip_vertical(mg: bool, t: PieceType, sq: int) -> int {
    human_entry(mg, t, flip_index(sq))
}

/// White's table mirrored by rank: Black's table.
pub open spec fn mirror_vertical(mg: bool, t: PieceType, sq: int) -> int {
    flip_vertical(mg, t, flip_index(sq))
}

/// The piece-square bonus of `color`'s `t` on `sq`.
pub open spec fn square_value(mg: bool, color: Color, t: PieceType, sq: int) -> int {
    match color {
        Color::White => flip_vertical(mg, t, sq),
        Color::Black => mirror_vertical(mg, t, sq),
    }
}

proof fn lemma_square_value(mg: bool, color: Color, t: PieceType, sq: u8)
    requires
        sq < 64,
    ensures
        square_value(mg, color, t, sq as int) == human_entry(
            mg,
            t,
            (if color == Color::White {
                sq ^ 56
            } else {
                sq
            }) as int,
        ),
        -200 <= square_value(mg, color, t, sq as int) <= 200,
{
    assert(sq < 64 ==> (sq ^ 56) as int == (7 - sq / 8) * 8 + sq % 8) by (bit_vector);
    assert(flip_index(flip_index(sq as int)) == sq);
    lemma_tables_bounded(mg, t, (sq ^ 56) as int);
    lemma_tables_bounded(mg, t, sq as int);
}

fn table_position_value(mg: bool, piece: PieceType, color: Color, square: Square) -> (r: i32)
    requires
        square < 64,
    ensures
        r == square_value(mg, color, piece, square as int),
        -200 <= r <= 200,
{
    proof {
        lemma_square_value(mg, color, piece, square);
    }
    let index = match color {
        Color::White => square ^ 56,
        Color::Black => square,
    };
    proof {
        assert(square < 64 ==> (square ^ 56) < 64) by (bit_vector);
    }
    human_value(mg, piece, index as usize)
}

/// The middlegame piece-square bonus of `color`'s `piece` on `square`.
pub fn mg_position_value(piece: PieceType, color: Color, square: Square) -> (r: i32)
    requires
        square < 64,
    ensures
        r == square_value(true, color, piece, square as int),
{
    table_position_value(true, piece, color, square)
}

/// The endgame piece-square bonus of `color`'s `piece` on `square`.
pub fn eg_position_value(piece: PieceType, color: Color, square: Square) -> (r: i32)
    requires
        square < 64,
    ensures
        r == square_value(false, color, piece, square as int),
{
    table_position_value(false, piece, color, square)
}

/// The piece-square bonus of `color`'s `piece` on `square`, from the endgame
/// table when `is_endgame` and the middlegame one otherwise.
pub fn position_value(piece: PieceType, color: Color, square: Square, is_endgame: bool) -> (r: i32)
    requires
        square < 64,
    ensures
        r == square_value(!is_endgame, color, piece, square as int),
        -200 <= r <= 200,
{
    table_position_value(!is_endgame, piece, color, square)
}

/// A middlegame and an endgame score.
#[derive(Clone, Copy, Debug, PartialEq, Eq, Structural)]
pub struct Score {
    pub mg: i32,
    pub eg: i32,
}

impl Default for Score {
    fn default() -> (r: Score)
        ensures
            r == (Score { mg: 0, eg: 0 }),
    {
        Score { mg: 0, eg: 0 }
    }
}

/// `x / d` rounded toward zero, as integer division does.
pub open spec fn div_toward_zero(x: int, d: int) -> int {
    if x >= 0 {
        x / d
    } else {
        -((-x) / d)
    }
}

/// The blend of a middlegame and an endgame score at game phase `phase`.
pub open spec fn tapered_value(mg: int, eg: int, phase: int) -> int {
    div_toward_zero(mg * phase + eg * (PHASE_MAX - phase), PHASE_MAX as int)
}

/// The size below which scores stay, far inside 32 bits.
pub open spec fn score_bound() -> int {
    10_000_000
}

impl Score {
    /// The blend of the two scores at game phase `phase`, 24 meaning all
    /// middlegame.
    pub fn tapered(self, phase: i32) -> (r: i32)
        requires
            0 <= phase <= PHASE_MAX,
            -score_bound() <= self.mg <= score_bound(),
            -score_bound() <= self.eg <= score_bound(),
        ensures
            r == tapered_value(self.mg as int, self.eg as int, phase as int),
            -score_bound() <= r <= score_bound(),
    {
        assert(-score_bound() * 24 <= self.mg * phase <= score_bound() * 24) by (nonlinear_arith)
            requires
                0 <= phase <= 24,
                -score_bound() <= self.mg <= score_bound(),
        ;
        assert(-score_bound() * 24 <= self.eg * (24 - phase) <= score_bound() * 24)
            by (nonlinear_arith)
            requires
                0 <= phase <= 24,
                -score_bound() <= self.eg <= score_bound(),
        ;
        let blended = self.mg * phase + self.eg * (PHASE_MAX - phase);
        assert(-(score_bound() * 24) <= self.mg * phase + self.eg * (24 - phase) <= score_bound() * 24)
            by (nonlinear_arith)
            requires
                0 <= phase <= 24,
                -score_bound() <= self.mg <= score_bound(),
                -score_bound() <= self.eg <= score_bound(),
        ;
        if blended >= 0 {
            assert(blended / 24 <= score_bound()) by (nonlinear_arith)
                requires
                    0 <= blended <= score_bound() * 24,
            ;
            blended / PHASE_MAX
        } else {
            assert((-blended) / 24 <= score_bound()) by (nonlinear_arith)
                requires
                    0 < -blended <= score_bound() * 24,
            ;
            -((-blended) / PHASE_MAX)
        }
    }
}

/// `+1` for White, `-1` for Black: the evaluation is White-positive.
pub open spec fn sign(c: Color) -> int {
    match c {
        Color::White => 1,
        Color::Black => -1,
    }
}

/// The squares holding `c`'s pieces of kind `t`.
pub open spec fn on(p: Position, c: Color, t: PieceType) -> spec_fn(int) -> bool {
    |s: int| holds(p, s, c, t)
}

/// `f` summed over the first `k` piece kinds.
pub open spec fn kinds_sum(f: spec_fn(PieceType) -> int, k: int) -> int
    decreases k,
{
    if k <= 0 {
        0
    } else {
        kinds_sum(f, k - 1) + f(piece_type_of_index(k - 1))
    }
}

/// One piece's material and placement, signed by its color.
pub open spec fn material_term(mg: bool, c: Color, t: PieceType, s: int) -> int {
    (piece_value(mg, t) + square_value(mg, c, t, s)) * sign(c)
}

/// `c`'s pieces of kind `t`: their material and placement.
pub open spec fn kind_material(p: Position, mg: bool, c: Color, t: PieceType) -> int {
    sum_where(on(p, c, t), |s: int| material_term(mg, c, t, s), 64)
}

/// `c`'s material and placement over all piece kinds.
pub open spec fn side_material(p: Position, mg: bool, c: Color) -> int {
    kinds_sum(|t: PieceType| kind_material(p, mg, c, t), 6)
}

/// Material plus piece-square bonuses, White-positive.
pub open spec fn material_score(p: Position, mg: bool) -> int {
    side_material(p, mg, Color::White) + side_material(p, mg, Color::Black)
}

/// The bitboard of `c`'s `t`s selects exactly the squares they stand on.
proof fn lemma_bits_on(board: Board, c: Color, t: PieceType)
    requires
        board.bits_ok(),
    ensures
        forall|s: int| 0 <= s < 64 ==> #[trigger] bits(board.bb(c, t))(s) == on(board@, c, t)(s),
{
    assert forall|s: int| 0 <= s < 64 implies #[trigger] bits(board.bb(c, t))(s) == on(
        board@,
        c,
        t,
    )(s) by {
        assert(in_bb(board.bb(c, t), s) == (0 <= s < 64 && board@.squares[s] == Some(
            Piece { color: c, piece_type: t },
        )));
    }
}

fn kind_material_exec(board: &Board, color: Color, piece: PieceType) -> (r: Score)
    requires
        board.bits_ok(),
    ensures
        r.mg == kind_material(board@, true, color, piece),
        r.eg == kind_material(board@, false, color, piece),
        -64 * 1225 <= r.mg <= 64 * 1225,
        -64 * 1225 <= r.eg <= 64 * 1225,
{
    let ghost fm = |s: int| material_term(true, color, piece, s);
    let ghost fe = |s: int| material_term(false, color, piece, s);
    proof {
        assert forall|s: int| 0 <= s < 64 && #[trigger] bits(board.bb(color, piece))(s) implies -1225
            <= fm(s) <= 1225 && -1225 <= fe(s) <= 1225 by {
            lemma_square_value(true, color, piece, s as u8);
            lemma_square_value(false, color, piece, s as u8);
        }
        lemma_sum_bound(bits(board.bb(color, piece)), fm, 64, 1225);
        lemma_sum_bound(bits(board.bb(color, piece)), fe, 64, 1225);
        lemma_bits_on(*board, color, piece);
        lemma_sum_ext(bits(board.bb(color, piece)), on(board@, color, piece), fm, 64);
        lemma_sum_ext(bits(board.bb(color, piece)), on(board@, color, piece), fe, 64);
    }
    let mg_value = mg_piece_value(piece);
    let eg_value = eg_piece_value(piece);
    let sign: i32 = match color {
        Color::White => 1,
        Color::Black => -1,
    };
    let mut bitboard = board.pieces(color, piece);
    let ghost orig = bitboard;
    let mut mg: i32 = 0;
    let mut eg: i32 = 0;
    while bitboard != 0
        invariant
            board.bits_ok(),
            orig == board.bb(color, piece),
            forall|s: int| #[trigger] in_bb(bitboard, s) ==> in_bb(orig, s),
            mg + sum_where(bits(bitboard), fm, 64) == sum_where(bits(orig), fm, 64),
            eg + sum_where(bits(bitboard), fe, 64) == sum_where(bits(orig), fe, 64),
            -64 * 1225 <= sum_where(bits(orig), fm, 64) <= 64 * 1225,
            -64 * 1225 <= sum_where(bits(orig), fe, 64) <= 64 * 1225,
            -64 * 1225 <= sum_where(bits(bitboard), fm, 64) <= 64 * 1225,
            -64 * 1225 <= sum_where(bits(bitboard), fe, 64) <= 64 * 1225,
            mg_value == piece_value(true, piece),
            eg_value == piece_value(false, piece),
            sign == crate::eval::sign(color),
            fm == (|s: int| material_term(true, color, piece, s)),
            fe == (|s: int| material_term(false, color, piece, s)),
        decreases popcount(bitboard),
    {
        let ghost before = bitboard;
        let square = pop_lsb(&mut bitboard);
        proof {
            lemma_sum_remove(bits(before), bits(bitboard), square as int, fm, 64);
            lemma_sum_remove(bits(before), bits(bitboard), square as int, fe, 64);
            assert forall|s: int| 0 <= s < 64 && #[trigger] bits(bitboard)(s) implies -1225 <= fm(s)
                <= 1225 && -1225 <= fe(s) <= 1225 by {
                lemma_square_value(true, color, piece, s as u8);
                lemma_square_value(false, color, piece, s as u8);
            }
            lemma_sum_bound(bits(bitboard), fm, 64, 1225);
            lemma_sum_bound(bits(bitboard), fe, 64, 1225);
            crate::sums::lemma_count_remove(before, bitboard, square as int);
            crate::types::lemma_bit_count_bounds(bitboard, 64);
        }
        let mv = mg_position_value(piece, color, square);
        let ev = eg_position_value(piece, color, square);
        mg = mg + (mg_value + mv) * sign;
        eg = eg + (eg_value + ev) * sign;
    }
    proof {
        lemma_sum_empty(fm, 64);
        lemma_sum_empty(fe, 64);
    }
    Score { mg, eg }
}

fn side_material_exec(board: &Board, color: Color) -> (r: Score)
    requires
        board.bits_ok(),
    ensures
        r.mg == side_material(board@, true, color),
        r.eg == side_material(board@, false, color),
        -6 * 64 * 1225 <= r.mg <= 6 * 64 * 1225,
        -6 * 64 * 1225 <= r.eg <= 6 * 64 * 1225,
{
    let ghost fm = |t: PieceType| kind_material(board@, true, color, t);
    let ghost fe = |t: PieceType| kind_material(board@, false, color, t);
    let mut total = Score { mg: 0, eg: 0 };
    let mut i: usize = 0;
    while i < 6
        invariant
            i <= 6,
            board.bits_ok(),
            total.mg == kinds_sum(fm, i as int),
            total.eg == kinds_sum(fe, i as int),
            -(i as int) * 64 * 1225 <= total.mg <= (i as int) * 64 * 1225,
            -(i as int) * 64 * 1225 <= total.eg <= (i as int) * 64 * 1225,
            fm == (|t: PieceType| kind_material(board@, true, color, t)),
            fe == (|t: PieceType| kind_material(board@, false, color, t)),
        decreases 6 - i,
    {
        let piece = PieceType::from_index(i);
        let part = kind_material_exec(board, color, piece);
        total.mg = total.mg + part.mg;
        total.eg = total.eg + part.eg;
        i = i + 1;
    }
    total
}

/// Material plus piece-square bonuses, White-positive, for both phases.
pub fn material_placement(board: &Board) -> (r: Score)
    requires
        board.bits_ok(),
    ensures
        r.mg == material_score(board@, true),
        r.eg == material_score(board@, false),
        -12 * 64 * 1225 <= r.mg <= 12 * 64 * 1225,
        -12 * 64 * 1225 <= r.eg <= 12 * 64 * 1225,
{
    let white = side_material_exec(board, Color::White);
    let black = side_material_exec(board, Color::Black);
    Score { mg: white.mg + black.mg, eg: white.eg + black.eg }
}

/// The phase weight of `c`'s pieces of every kind.
pub open spec fn side_phase(p: Position, c: Color) -> int {
    kinds_sum(|t: PieceType| count_where(on(p, c, t), 64) * phase_value(t), 6)
}

/// The game phase: the non-pawn material's phase weight, at most 24.
pub open spec fn phase_of(p: Position) -> int {
    let raw = side_phase(p, Color::White) + side_phase(p, Color::Black);
    if raw < PHASE_MAX {
        raw
    } else {
        PHASE_MAX as int
    }
}

/// The population count of a piece bitboard counts those pieces.
proof fn lemma_popcount_on(board: Board, c: Color, t: PieceType)
    requires
        board.bits_ok(),
    ensures
        popcount(board.bb(c, t)) == count_where(on(board@, c, t), 64),
        0 <= popcount(board.bb(c, t)) <= 64,
{
    lemma_count_bits(board.bb(c, t), 64);
    lemma_bits_on(board, c, t);
    lemma_sum_ext(bits(board.bb(c, t)), on(board@, c, t), |s: int| 1int, 64);
    crate::types::lemma_bit_count_bounds(board.bb(c, t), 64);
}

fn side_phase_exec(board: &Board, color: Color) -> (r: i32)
    requires
        board.bits_ok(),
    ensures
        r == side_phase(board@, color),
        0 <= r <= 6 * 256,
{
    let ghost f = |t: PieceType| count_where(on(board@, color, t), 64) * phase_value(t);
    let mut total: i32 = 0;
    let mut i: usize = 0;
    while i < 6
        invariant
            i <= 6,
            board.bits_ok(),
            total == kinds_sum(f, i as int),
            0 <= total <= (i as int) * 256,
            f == (|t: PieceType| count_where(on(board@, color, t), 64) * phase_value(t)),
        decreases 6 - i,
    {
        let piece = PieceType::from_index(i);
        proof {
            lemma_popcount_on(*board, color, piece);
        }
        let count = count_ones(board.pieces(color, piece)) as i32;
        let weight = phase_weight(piece);
        assert(0 <= count * weight <= 256) by (nonlinear_arith)
            requires
                0 <= count <= 64,
                0 <= weight <= 4,
        ;
        total = total + count * weight;
        i = i + 1;
    }
    total
}

/// The game phase: 24 with all non-pawn material on the board, 0 with none.
pub fn game_phase(board: &Board) -> (r: i32)
    requires
        board.bits_ok(),
    ensures
        r == phase_of(board@),
        0 <= r <= PHASE_MAX,
{
    let phase = side_phase_exec(board, Color::White) + side_phase_exec(board, Color::Black);
    if phase < PHASE_MAX {
        phase
    } else {
        PHASE_MAX
    }
}

/// The squares a `c` piece of kind `t` on `s` attacks.
fn attack_map(piece: PieceType, color: Color, square: Square, occupancy: Bitboard) -> (r: Bitboard)
    requires
        square < 64,
    ensures
        forall|t: int| #[trigger]
            in_bb(r, t) == piece_attacks(
                Piece { color, piece_type: piece },
                square as int,
                bits(occupancy),
                t,
            ),
{
    match piece {
        PieceType::Pawn => pawn_attacks(color, square),
        PieceType::Knight => knight_attacks(square),
        PieceType::Bishop => bishop_attacks(square, occupancy),
        PieceType::Rook => rook_attacks(square, occupancy),
        PieceType::Queen => queen_attacks(square, occupancy),
        PieceType::King => king_attacks(square),
    }
}

/// The mobility weight of a piece kind; pawns and kings score none.
pub open spec fn mobility_weight(mg: bool, t: PieceType) -> int {
    match t {
        PieceType::Knight => 4,
        PieceType::Bishop => if mg {
            4
        } else {
            5
        },
        PieceType::Rook => if mg {
            2
        } else {
            4
        },
        PieceType::Queen => if mg {
            1
        } else {
            2
        },
        _ => 0,
    }
}

fn mobility_weights(t: PieceType) -> (r: (i32, i32))
    ensures
        r.0 == mobility_weight(true, t),
        r.1 == mobility_weight(false, t),
        0 <= r.0 <= 5,
        0 <= r.1 <= 5,
{
    match t {
        PieceType::Knight => (4, 4),
        PieceType::Bishop => (4, 5),
        PieceType::Rook => (2, 4),
        PieceType::Queen => (1, 2),
        _ => (0, 0),
    }
}

/// The squares a `c` piece of kind `t` on `s` attacks that hold no `c` piece.
pub open spec fn reach(p: Position, c: Color, t: PieceType, s: int) -> int {
    count_where(
        |x: int|
            piece_attacks(Piece { color: c, piece_type: t }, s, occupied_in(p), x) && !color_at(
                p,
                x,
                c,
            ),
        64,
    )
}

/// `c`'s pieces of kind `t`: their weighted mobility, signed by color.
pub open spec fn kind_mobility(p: Position, mg: bool, c: Color, t: PieceType) -> int {
    sum_where(on(p, c, t), |s: int| reach(p, c, t, s) * mobility_weight(mg, t) * sign(c), 64)
}

/// The mobility of `c`'s knights, bishops, rooks and queens.
pub open spec fn side_mobility(p: Position, mg: bool, c: Color) -> int {
    kind_mobility(p, mg, c, PieceType::Knight) + kind_mobility(p, mg, c, PieceType::Bishop)
        + kind_mobility(p, mg, c, PieceType::Rook) + kind_mobility(p, mg, c, PieceType::Queen)
}

/// Mobility, White-positive.
pub open spec fn mobility_score(p: Position, mg: bool) -> int {
    side_mobility(p, mg, Color::White) + side_mobility(p, mg, Color::Black)
}

/// The occupancy bitboard selects the occupied squares.
proof fn lemma_occupancy(board: Board, occ: u64)
    requires
        board.bits_ok(),
        forall|s: int| #[trigger] in_bb(occ, s) == (0 <= s < 64 && board@.squares[s] is Some),
    ensures
        bits(occ) == occupied_in(board@),
{
    assert(bits(occ) =~= occupied_in(board@));
}

/// The bitboard of a piece's attacks off `friendly` counts its reach.
proof fn lemma_reach(
    board: Board,
    c: Color,
    t: PieceType,
    s: int,
    attacks: u64,
    friendly: u64,
    occ: u64,
)
    requires
        board.bits_ok(),
        bits(occ) == occupied_in(board@),
        forall|x: int| #[trigger]
            in_bb(attacks, x) == piece_attacks(Piece { color: c, piece_type: t }, s, bits(occ), x),
        forall|x: int| #[trigger] in_bb(friendly, x) == color_at(board@, x, c),
    ensures
        popcount(attacks & !friendly) == reach(board@, c, t, s),
        0 <= popcount(attacks & !friendly) <= 64,
{
    let a = attacks & !friendly;
    lemma_count_bits(a, 64);
    crate::types::lemma_bit_count_bounds(a, 64);
    let pred = |x: int|
        piece_attacks(Piece { color: c, piece_type: t }, s, occupied_in(board@), x) && !color_at(
            board@,
            x,
            c,
        );
    assert forall|x: int| 0 <= x < 64 implies #[trigger] bits(a)(x) == pred(x) by {
        assert(in_bb(a, x) == (in_bb(attacks, x) && !in_bb(friendly, x)));
    }
    lemma_sum_ext(bits(a), pred, |x: int| 1int, 64);
}

fn kind_mobility_exec(
    board: &Board,
    color: Color,
    piece: PieceType,
    occupancy: Bitboard,
    friendly: Bitboard,
) -> (r: Score)
    requires
        board.bits_ok(),
        bits(occupancy) == occupied_in(board@),
        forall|x: int| #[trigger] in_bb(friendly, x) == color_at(board@, x, color),
    ensures
        r.mg == kind_mobility(board@, true, color, piece),
        r.eg == kind_mobility(board@, false, color, piece),
        -64 * 320 <= r.mg <= 64 * 320,
        -64 * 320 <= r.eg <= 64 * 320,
{
    let ghost p = board@;
    let ghost fm = |s: int| reach(p, color, piece, s) * mobility_weight(true, piece) * sign(color);
    let ghost fe = |s: int| reach(p, color, piece, s) * mobility_weight(false, piece) * sign(color);
    proof {
        assert forall|s: int| 0 <= s < 64 implies -320 <= #[trigger] fm(s) <= 320 && -320 <= fe(s)
            <= 320 by {
            lemma_reach_bounds(p, color, piece, s);
        }
        lemma_sum_bound(bits(board.bb(color, piece)), fm, 64, 320);
        lemma_sum_bound(bits(board.bb(color, piece)), fe, 64, 320);
        lemma_bits_on(*board, color, piece);
        lemma_sum_ext(bits(board.bb(color, piece)), on(p, color, piece), fm, 64);
        lemma_sum_ext(bits(board.bb(color, piece)), on(p, color, piece), fe, 64);
    }
    let (wm, we) = mobility_weights(piece);
    let sign: i32 = match color {
        Color::White => 1,
        Color::Black => -1,
    };
    let mut bitboard = board.pieces(color, piece);
    let ghost orig = bitboard;
    let mut mg: i32 = 0;
    let mut eg: i32 = 0;
    while bitboard != 0
        invariant
            board.bits_ok(),
            p == board@,
            bits(occupancy) == occupied_in(p),
            forall|x: int| #[trigger] in_bb(friendly, x) == color_at(p, x, color),
            orig == board.bb(color, piece),
            mg + sum_where(bits(bitboard), fm, 64) == sum_where(bits(orig), fm, 64),
            eg + sum_where(bits(bitboard), fe, 64) == sum_where(bits(orig), fe, 64),
            -64 * 320 <= sum_where(bits(orig), fm, 64) <= 64 * 320,
            -64 * 320 <= sum_where(bits(orig), fe, 64) <= 64 * 320,
            -64 * 320 <= sum_where(bits(bitboard), fm, 64) <= 64 * 320,
            -64 * 320 <= sum_where(bits(bitboard), fe, 64) <= 64 * 320,
            wm == mobility_weight(true, piece),
            we == mobility_weight(false, piece),
            0 <= wm <= 5,
            0 <= we <= 5,
            sign == crate::eval::sign(color),
            fm == (|s: int| reach(p, color, piece, s) * mobility_weight(true, piece) * crate::eval::sign(color)),
            fe == (|s: int| reach(p, color, piece, s) * mobility_weight(false, piece) * crate::eval::sign(color)),
        decreases popcount(bitboard),
    {
        let ghost before = bitboard;
        let square = pop_lsb(&mut bitboard);
        proof {
            lemma_sum_remove(bits(before), bits(bitboard), square as int, fm, 64);
            lemma_sum_remove(bits(before), bits(bitboard), square as int, fe, 64);
            assert forall|s: int| 0 <= s < 64 implies -320 <= #[trigger] fm(s) <= 320 && -320
                <= fe(s) <= 320 by {
                lemma_reach_bounds(p, color, piece, s);
            }
            lemma_sum_bound(bits(bitboard), fm, 64, 320);
            lemma_sum_bound(bits(bitboard), fe, 64, 320);
            crate::sums::lemma_count_remove(before, bitboard, square as int);
            crate::types::lemma_bit_count_bounds(bitboard, 64);
        }
        let attacks = attack_map(piece, color, square, occupancy);
        proof {
            lemma_reach(*board, color, piece, square as int, attacks, friendly, occupancy);
        }
        let available = count_ones(attacks & !friendly) as i32;
        assert(-320 <= available * wm * sign <= 320 && -320 <= available * we * sign <= 320)
            by (nonlinear_arith)
            requires
                0 <= available <= 64,
                0 <= wm <= 5,
                0 <= we <= 5,
                sign == 1 || sign == -1,
        ;
        mg = mg + available * wm * sign;
        eg = eg + available * we * sign;
    }
    proof {
        lemma_sum_empty(fm, 64);
        lemma_sum_empty(fe, 64);
    }
    Score { mg, eg }
}

proof fn lemma_reach_bounds(p: Position, c: Color, t: PieceType, s: int)
    ensures
        -320 <= reach(p, c, t, s) * mobility_weight(true, t) * sign(c) <= 320,
        -320 <= reach(p, c, t, s) * mobility_weight(false, t) * sign(c) <= 320,
{
    let pred = |x: int|
        piece_attacks(Piece { color: c, piece_type: t }, s, occupied_in(p), x) && !color_at(
            p,
            x,
            c,
        );
    lemma_sum_bound(pred, |x: int| 1int, 64, 1);
    crate::sums::lemma_count_nonneg(pred, 64);
    let n = reach(p, c, t, s);
    let wm = mobility_weight(true, t);
    let we = mobility_weight(false, t);
    let sg = sign(c);
    assert(-320 <= n * wm * sg <= 320 && -320 <= n * we * sg <= 320) by (nonlinear_arith)
        requires
            0 <= n <= 64,
            0 <= wm <= 5,
            0 <= we <= 5,
            sg == 1 || sg == -1,
    ;
}

/// The squares holding a piece of `c`.
fn friendly_of(board: &Board, color: Color) -> (r: Bitboard)
    requires
        board.bits_ok(),
    ensures
        forall|x: int| #[trigger] in_bb(r, x) == color_at(board@, x, color),
{
    let mut friendly: Bitboard = 0;
    let mut i: usize = 0;
    while i < 6
        invariant
            i <= 6,
            board.bits_ok(),
            forall|x: int| #[trigger]
                in_bb(friendly, x) == (exists|k: int|
                    0 <= k < i && #[trigger] holds(board@, x, color, piece_type_of_index(k))),
        decreases 6 - i,
    {
        let piece = PieceType::from_index(i);
        let ghost before = friendly;
        friendly = friendly | board.pieces(color, piece);
        proof {
            assert forall|x: int| #[trigger]
                in_bb(friendly, x) == (exists|k: int|
                    0 <= k < i + 1 && #[trigger] holds(board@, x, color, piece_type_of_index(k)))
                by {
                assert(in_bb(board.bb(color, piece), x) == holds(board@, x, color, piece));
                if in_bb(friendly, x) && !in_bb(before, x) {
                    assert(holds(board@, x, color, piece_type_of_index(i as int)));
                }
            }
        }
        i = i + 1;
    }
    proof {
        assert forall|x: int| #[trigger] in_bb(friendly, x) == color_at(board@, x, color) by {
            if color_at(board@, x, color) {
                let t = board@.squares[x]->0.piece_type;
                assert(holds(board@, x, color, piece_type_of_index(t.idx())));
            }
        }
    }
    friendly
}

fn side_mobility_exec(board: &Board, color: Color, occupancy: Bitboard) -> (r: Score)
    requires
        board.bits_ok(),
        bits(occupancy) == occupied_in(board@),
    ensures
        r.mg == side_mobility(board@, true, color),
        r.eg == side_mobility(board@, false, color),
        -4 * 64 * 320 <= r.mg <= 4 * 64 * 320,
        -4 * 64 * 320 <= r.eg <= 4 * 64 * 320,
{
    let friendly = friendly_of(board, color);
    let knights = kind_mobility_exec(board, color, PieceType::Knight, occupancy, friendly);
    let bishops = kind_mobility_exec(board, color, PieceType::Bishop, occupancy, friendly);
    let rooks = kind_mobility_exec(board, color, PieceType::Rook, occupancy, friendly);
    let queens = kind_mobility_exec(board, color, PieceType::Queen, occupancy, friendly);
    Score {
        mg: knights.mg + bishops.mg + rooks.mg + queens.mg,
        eg: knights.eg + bishops.eg + rooks.eg + queens.eg,
    }
}

/// Mobility: each knight, bishop, rook, and queen scores its count of attack
/// squares not blocked by a friendly piece, weighted per piece type.
pub fn mobility(board: &Board) -> (r: Score)
    requires
        board.bits_ok(),
    ensures
        r.mg == mobility_score(board@, true),
        r.eg == mobility_score(board@, false),
        -8 * 64 * 320 <= r.mg <= 8 * 64 * 320,
        -8 * 64 * 320 <= r.eg <= 8 * 64 * 320,
{
    let occupancy = board.occupied();
    proof {
        lemma_occupancy(*board, occupancy);
    }
    let white = side_mobility_exec(board, Color::White, occupancy);
    let black = side_mobility_exec(board, Color::Black, occupancy);
    Score { mg: white.mg + black.mg, eg: white.eg + black.eg }
}

/// `x` is one of the (up to three) squares directly in front of a `c` king on
/// `k`: one rank forward, at most one file aside. A king with no rank in front
/// of it has no shield squares.
pub open spec fn shield_square(c: Color, k: int, x: int) -> bool {
    let rank = k / 8 + forward(c);
    &&& 0 <= rank <= 7
    &&& 0 <= x < 64
    &&& x / 8 == rank
    &&& abs(x % 8 - k % 8) <= 1
}

/// The squares of the pawn shield in front of a `color` king on `king`.
pub fn pawn_shield_mask(color: Color, king: Square) -> (r: Bitboard)
    requires
        king < 64,
    ensures
        forall|x: int| #[trigger] in_bb(r, x) == shield_square(color, king as int, x),
{
    let rank = rank_of(king);
    let shield_rank: u8 = match color {
        Color::White => {
            if rank >= 7 {
                return 0;
            }
            rank + 1
        },
        Color::Black => {
            if rank == 0 {
                return 0;
            }
            rank - 1
        },
    };
    let file = file_of(king);
    let mut mask: Bitboard = square_bb(make_square(file, shield_rank));
    if file > 0 {
        mask = mask | square_bb(make_square(file - 1, shield_rank));
    }
    if file < 7 {
        mask = mask | square_bb(make_square(file + 1, shield_rank));
    }
    proof {
        assert forall|x: int| #[trigger] in_bb(mask, x) == shield_square(color, king as int, x) by {
            if 0 <= x < 64 {
                assert(x == (x / 8) * 8 + x % 8);
            }
        }
    }
    mask
}

/// The king-ring attack weight of a piece kind; kings add none.
pub open spec fn ring_weight(t: PieceType) -> int {
    match t {
        PieceType::Pawn => 4,
        PieceType::Knight => 10,
        PieceType::Bishop => 10,
        PieceType::Rook => 14,
        PieceType::Queen => 24,
        PieceType::King => 0,
    }
}

fn ring_weight_of(t: PieceType) -> (r: i32)
    ensures
        r == ring_weight(t),
        0 <= r <= 24,
{
    match t {
        PieceType::Pawn => 4,
        PieceType::Knight => 10,
        PieceType::Bishop => 10,
        PieceType::Rook => 14,
        PieceType::Queen => 24,
        PieceType::King => 0,
    }
}

/// How many squares of `ring` an `a` piece of kind `t` on `s` attacks.
pub open spec fn ring_hits(p: Position, a: Color, t: PieceType, s: int, ring: spec_fn(int) -> bool) -> int {
    count_where(
        |x: int| piece_attacks(Piece { color: a, piece_type: t }, s, occupied_in(p), x) && ring(x),
        64,
    )
}

/// `a`'s pieces of kind `t`: their weighted attacks on `ring`.
pub open spec fn kind_pressure(p: Position, a: Color, t: PieceType, ring: spec_fn(int) -> bool) -> int {
    sum_where(on(p, a, t), |s: int| ring_hits(p, a, t, s, ring) * ring_weight(t), 64)
}

/// The weighted attacks of `a`'s pieces on the squares of `ring`.
pub open spec fn pressure(p: Position, a: Color, ring: spec_fn(int) -> bool) -> int {
    kinds_sum(|t: PieceType| kind_pressure(p, a, t, ring), 6)
}

proof fn lemma_ring_hits_bounds(p: Position, a: Color, t: PieceType, s: int, ring: spec_fn(int) -> bool)
    ensures
        0 <= ring_hits(p, a, t, s, ring) * ring_weight(t) <= 64 * 24,
{
    let pred = |x: int|
        piece_attacks(Piece { color: a, piece_type: t }, s, occupied_in(p), x) && ring(x);
    lemma_sum_bound(pred, |x: int| 1int, 64, 1);
    crate::sums::lemma_count_nonneg(pred, 64);
    let n = ring_hits(p, a, t, s, ring);
    let w = ring_weight(t);
    assert(0 <= n * w <= 64 * 24) by (nonlinear_arith)
        requires
            0 <= n <= 64,
            0 <= w <= 24,
    ;
}

fn kind_pressure_exec(
    board: &Board,
    attacker: Color,
    piece: PieceType,
    ring: Bitboard,
    occupancy: Bitboard,
) -> (r: i32)
    requires
        board.bits_ok(),
        bits(occupancy) == occupied_in(board@),
    ensures
        r == kind_pressure(board@, attacker, piece, bits(ring)),
        0 <= r <= 64 * 64 * 24,
{
    let ghost p = board@;
    let ghost f = |s: int| ring_hits(p, attacker, piece, s, bits(ring)) * ring_weight(piece);
    proof {
        assert forall|s: int| 0 <= s < 64 implies 0 <= #[trigger] f(s) <= 64 * 24 by {
            lemma_ring_hits_bounds(p, attacker, piece, s, bits(ring));
        }
        lemma_sum_bound(bits(board.bb(attacker, piece)), f, 64, 1536);
        crate::sums::lemma_sum_nonneg(bits(board.bb(attacker, piece)), f, 64);
        lemma_bits_on(*board, attacker, piece);
        lemma_sum_ext(bits(board.bb(attacker, piece)), on(p, attacker, piece), f, 64);
    }
    let weight = ring_weight_of(piece);
    let mut bitboard = board.pieces(attacker, piece);
    let ghost orig = bitboard;
    let mut total: i32 = 0;
    while bitboard != 0
        invariant
            board.bits_ok(),
            p == board@,
            bits(occupancy) == occupied_in(p),
            orig == board.bb(attacker, piece),
            total + sum_where(bits(bitboard), f, 64) == sum_where(bits(orig), f, 64),
            0 <= sum_where(bits(orig), f, 64) <= 64 * 64 * 24,
            0 <= sum_where(bits(bitboard), f, 64) <= 64 * 64 * 24,
            weight == ring_weight(piece),
            0 <= weight <= 24,
            f == (|s: int| ring_hits(p, attacker, piece, s, bits(ring)) * ring_weight(piece)),
        decreases popcount(bitboard),
    {
        let ghost before = bitboard;
        let square = pop_lsb(&mut bitboard);
        proof {
            lemma_sum_remove(bits(before), bits(bitboard), square as int, f, 64);
            assert forall|s: int| 0 <= s < 64 implies 0 <= #[trigger] f(s) <= 64 * 24 by {
                lemma_ring_hits_bounds(p, attacker, piece, s, bits(ring));
            }
            lemma_sum_bound(bits(bitboard), f, 64, 1536);
            crate::sums::lemma_sum_nonneg(bits(bitboard), f, 64);
            crate::sums::lemma_count_remove(before, bitboard, square as int);
            crate::types::lemma_bit_count_bounds(bitboard, 64);
            lemma_ring_hits_bounds(p, attacker, piece, square as int, bits(ring));
        }
        let attacks = attack_map(piece, attacker, square, occupancy);
        let hit = attacks & ring;
        proof {
            lemma_count_bits(hit, 64);
            crate::types::lemma_bit_count_bounds(hit, 64);
            let pred = |x: int|
                piece_attacks(Piece { color: attacker, piece_type: piece }, square as int, occupied_in(p), x)
                    && bits(ring)(x);
            assert forall|x: int| 0 <= x < 64 implies #[trigger] bits(hit)(x) == pred(x) by {
                assert(in_bb(hit, x) == (in_bb(attacks, x) && in_bb(ring, x)));
            }
            lemma_sum_ext(bits(hit), pred, |x: int| 1int, 64);
        }
        let count = count_ones(hit) as i32;
        assert(0 <= count * weight <= 64 * 24) by (nonlinear_arith)
            requires
                0 <= count <= 64,
                0 <= weight <= 24,
        ;
        total = total + count * weight;
    }
    proof {
        lemma_sum_empty(f, 64);
    }
    total
}

/// The weighted attacks of `attacker`'s pieces on the squares of `ring`.
pub fn king_ring_pressure(board: &Board, attacker: Color, ring: Bitboard) -> (r: i32)
    requires
        board.bits_ok(),
    ensures
        r == pressure(board@, attacker, bits(ring)),
        0 <= r <= 6 * 64 * 64 * 24,
{
    let occupancy = board.occupied();
    proof {
        lemma_occupancy(*board, occupancy);
    }
    let ghost f = |t: PieceType| kind_pressure(board@, attacker, t, bits(ring));
    let mut total: i32 = 0;
    let mut i: usize = 0;
    while i < 6
        invariant
            i <= 6,
            board.bits_ok(),
            bits(occupancy) == occupied_in(board@),
            total == kinds_sum(f, i as int),
            0 <= total <= (i as int) * 64 * 64 * 24,
            f == (|t: PieceType| kind_pressure(board@, attacker, t, bits(ring))),
        decreases 6 - i,
    {
        let piece = PieceType::from_index(i);
        if ring_weight_of(piece) == 0 {
            proof {
                assert forall|s: int| 0 <= s < 64 && #[trigger] on(board@, attacker, piece)(s) implies
                    ring_hits(board@, attacker, piece, s, bits(ring)) * ring_weight(piece) == 0 by {}
                lemma_sum_terms(
                    on(board@, attacker, piece),
                    |s: int| ring_hits(board@, attacker, piece, s, bits(ring)) * ring_weight(piece),
                    |s: int| 0int,
                    64,
                );
                crate::sums::lemma_sum_zero(on(board@, attacker, piece), 64);
            }
        } else {
            total = total + kind_pressure_exec(board, attacker, piece, ring, occupancy);
        }
        i = i + 1;
    }
    total
}

/// One side's king safety: its pawn shield less the enemy's pressure on its
/// king ring, before the color sign.
pub open spec fn side_safety(p: Position, c: Color) -> int {
    let k = king_square_of(p, c);
    count_where(|x: int| shield_square(c, k, x) && holds(p, x, c, PieceType::Pawn), 64)
        * KING_SHIELD_MG - pressure(p, c.opp(), |x: int| king_target(k, x))
}

/// King safety, White-positive; it has no endgame part.
pub open spec fn king_safety_score(p: Position) -> int {
    side_safety(p, Color::White) - side_safety(p, Color::Black)
}

fn side_safety_exec(board: &Board, color: Color) -> (r: i32)
    requires
        board.bits_ok(),
        king_square_of(board@, color) < 64,
    ensures
        r == side_safety(board@, color),
        -(6 * 64 * 64 * 24) <= r <= 64 * 12,
{
    let king = board.king_square(color);
    proof {
        lemma_king_square(*board, color);
    }
    let ghost k = king as int;
    let mask = pawn_shield_mask(color, king);
    let shield_pawns = mask & board.pieces(color, PieceType::Pawn);
    proof {
        lemma_count_bits(shield_pawns, 64);
        crate::types::lemma_bit_count_bounds(shield_pawns, 64);
        let pred = |x: int| shield_square(color, k, x) && holds(board@, x, color, PieceType::Pawn);
        assert forall|x: int| 0 <= x < 64 implies #[trigger] bits(shield_pawns)(x) == pred(x) by {
            assert(in_bb(shield_pawns, x) == (in_bb(mask, x) && in_bb(
                board.bb(color, PieceType::Pawn),
                x,
            )));
        }
        lemma_sum_ext(bits(shield_pawns), pred, |x: int| 1int, 64);
    }
    let shield = count_ones(shield_pawns) as i32 * KING_SHIELD_MG;
    let ring = king_attacks(king);
    proof {
        assert(bits(ring) =~= (|x: int| king_target(k, x)));
    }
    let pressure = king_ring_pressure(board, color.opponent(), ring);
    shield - pressure
}

/// King safety: each king's pawn shield, less the enemy's weighted attacks on
/// the squares around it; White-positive, middlegame only.
pub fn king_safety(board: &Board) -> (r: Score)
    requires
        board.bits_ok(),
        king_square_of(board@, Color::White) < 64,
        king_square_of(board@, Color::Black) < 64,
    ensures
        r.mg == king_safety_score(board@),
        r.eg == 0,
        -2 * (6 * 64 * 64 * 24) <= r.mg <= 2 * (6 * 64 * 64 * 24),
{
    let white = side_safety_exec(board, Color::White);
    let black = side_safety_exec(board, Color::Black);
    Score { mg: white - black, eg: 0 }
}

/// The static evaluation of a position in centipawns, White-positive: the
/// middlegame and endgame sums of material, placement, king safety and
/// mobility, blended by the game phase.
pub open spec fn evaluation(p: Position) -> int {
    tapered_value(
        material_score(p, true) + king_safety_score(p) + mobility_score(p, true),
        material_score(p, false) + mobility_score(p, false),
        phase_of(p),
    )
}

/// Absolute (White-positive) evaluation: tapered material and piece-square
/// bonus, king safety and mobility. Each side needs its king.
pub fn evaluate(board: &Board) -> (r: i32)
    requires
        board.bits_ok(),
        king_square_of(board@, Color::White) < 64,
        king_square_of(board@, Color::Black) < 64,
    ensures
        r == evaluation(board@),
        -score_bound() <= r <= score_bound(),
{
    let mut total = material_placement(board);
    let safety = king_safety(board);
    let mobility = mobility(board);
    total.mg = total.mg + safety.mg + mobility.mg;
    total.eg = total.eg + safety.eg + mobility.eg;
    total.tapered(game_phase(board))
}

} // verus!
