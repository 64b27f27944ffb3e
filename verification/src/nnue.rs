//! NNUE evaluation — a 768 perspective network read inside the search.
//!
//! Architecture: `(768 -> 256)x2 -> 1`. A feature is a `(piece type, color,
//! square)` triple — 6 x 2 x 64 = 768 binary inputs. Two accumulators share one
//! feature transformer: one from White's orientation, one from Black's (the
//! board vertically mirrored). A squared clipped-ReLU activates each, the two
//! concatenate side to move first, and a single output neuron produces a score.
//!
//! Integer-quantized: feature weights scale by `QA`, output weights by `QB`,
//! and the network output dequantizes to centipawns by `SCALE`.
//!
//! The accumulator supports incremental update — `add_piece` / `remove_piece`
//! adjust both perspectives by a single weight column, so make/unmake need no
//! full recompute; `apply_move` mirrors a move's piece changes.
use vstd::prelude::*;

use crate::board::{castle_rook, ep_victim_square, make_spec, mirrored, move_applicable, Board, Position};
use crate::chess_move::{lemma_move_bounds, Move};
use crate::text::{decimal, push_decimal};
use crate::types::{push_char, Color, Piece, PieceType, Square};
use vstd::string::StringExecFns;

verus! {

/// Input features: piece type x color x square.
pub const INPUT: usize = 768;

/// Accumulator width per perspective.
pub const HIDDEN: usize = 256;

/// Feature-transformer quantization scale (accumulator weights and bias).
pub const QA: i32 = 255;

/// Output-layer quantization scale (output weights).
pub const QB: i32 = 64;

/// Dequantization scale: network output to centipawns.
pub const SCALE: i32 = 400;

/// The evaluation is clamped to `±EVAL_LIMIT` centipawns — far above any real
/// material score, yet well below the search's mate threshold, so no network
/// output is ever mistaken for a forced mate.
pub const EVAL_LIMIT: i32 = 30_000;

/// Feature-transformer weight count (feature-major: feature `f` owns `[f*HIDDEN..]`).
pub const FEATURE_WEIGHTS: usize = 196_608;

/// Output weight count: one block per perspective.
pub const OUTPUT_WEIGHTS: usize = 512;

/// Header: magic(4) + input(4) + hidden(4) + qa(4) + qb(4) + scale(4).
pub const HEADER_LEN: usize = 24;

/// Total network file length, in bytes.
pub const FILE_LEN: usize = 394_780;

/// The parameters of a network.
pub struct NetParams {
    pub feature_weights: Seq<i16>,
    pub feature_bias: Seq<i16>,
    pub output_weights: Seq<i16>,
    pub output_bias: i32,
}

/// A quantized 768 perspective network.
pub struct Network {
    /// Feature-transformer weights, feature-major: `[feature * HIDDEN + h]`.
    feature_weights: Vec<i16>,
    /// Feature-transformer bias, one per accumulator unit.
    feature_bias: Vec<i16>,
    /// Output weights: the first `HIDDEN` for the side-to-move accumulator, the
    /// next `HIDDEN` for the opponent's.
    output_weights: Vec<i16>,
    /// Output bias, at the `QA * QB` scale.
    output_bias: i32,
}

impl View for Network {
    type V = NetParams;

    closed spec fn view(&self) -> NetParams {
        NetParams {
            feature_weights: self.feature_weights@,
            feature_bias: self.feature_bias@,
            output_weights: self.output_weights@,
            output_bias: self.output_bias,
        }
    }
}

/// Parameters of the compiled architecture's shape.
pub open spec fn well_shaped(n: NetParams) -> bool {
    &&& n.feature_weights.len() == FEATURE_WEIGHTS
    &&& n.feature_bias.len() == HIDDEN
    &&& n.output_weights.len() == OUTPUT_WEIGHTS
}

impl Network {
    #[verifier::type_invariant]
    spec fn shaped(self) -> bool {
        well_shaped(self@)
    }
}

/// The 768 feature index for a piece, from `perspective`'s orientation. The
/// perspective side's pieces fill the first block; the opponent's the second.
/// Black's perspective mirrors the board vertically.
pub open spec fn feature(perspective: Color, piece_color: Color, piece_type: PieceType, square: int) -> int {
    let block: int = if piece_color == perspective {
        0
    } else {
        1
    };
    let oriented = if perspective == Color::White {
        square
    } else {
        (7 - square / 8) * 8 + square % 8
    };
    block * 384 + piece_type.idx() * 64 + oriented
}

fn feature_index(perspective: Color, piece_color: Color, piece_type: PieceType, square: Square) -> (r: usize)
    requires
        square < 64,
    ensures
        r == feature(perspective, piece_color, piece_type, square as int),
        r < INPUT,
{
    let block: usize = if piece_color == perspective {
        0
    } else {
        1
    };
    let oriented = match perspective {
        Color::White => square,
        Color::Black => square ^ 56,
    };
    proof {
        assert(square < 64 ==> (square ^ 56) as int == (7 - square / 8) * 8 + square % 8)
            by (bit_vector);
    }
    block * 384 + piece_type.index() * 64 + oriented as usize
}

/// Squared clipped-ReLU: clamp to `[0, QA]`, then square.
pub open spec fn screlu_spec(value: int) -> int {
    let c = if value < 0 {
        0
    } else if value > QA {
        QA as int
    } else {
        value
    };
    c * c
}

fn screlu(value: i32) -> (r: i32)
    ensures
        r == screlu_spec(value as int),
        0 <= r <= 65025,
{
    let clamped = if value < 0 {
        0
    } else if value > QA {
        QA
    } else {
        value
    };
    assert(0 <= clamped * clamped <= 65025) by (nonlinear_arith)
        requires
            0 <= clamped <= 255,
    ;
    clamped * clamped
}

/// The two perspective accumulators — White's and Black's — each the
/// feature-transformer bias plus the column of every active feature from that
/// perspective's orientation.
#[derive(Clone, Copy, PartialEq, Eq, Debug)]
pub struct Accumulator {
    white: [i32; 256],
    black: [i32; 256],
}

impl Accumulator {
    /// White's accumulator units.
    pub closed spec fn white_units(&self) -> Seq<int> {
        self.white@.map_values(|v: i32| v as int)
    }

    /// Black's accumulator units.
    pub closed spec fn black_units(&self) -> Seq<int> {
        self.black@.map_values(|v: i32| v as int)
    }

    /// The units of `perspective`'s accumulator.
    pub open spec fn units(&self, perspective: Color) -> Seq<int> {
        match perspective {
            Color::White => self.white_units(),
            Color::Black => self.black_units(),
        }
    }
}

/// Units within this bound take one more weight column without overflowing.
pub open spec fn unit_room(units: Seq<int>) -> bool {
    forall|h: int| 0 <= h < units.len() ==> -0x7FFF_7FFF <= #[trigger] units[h] <= 0x7FFF_7FFF
}

/// Entry `h` of feature `f`'s weight column.
pub open spec fn column(n: NetParams, f: int, h: int) -> int {
    n.feature_weights[f * 256 + h] as int
}

/// `units` with `sign` times feature `f`'s column added.
pub open spec fn shifted(units: Seq<int>, n: NetParams, f: int, sign: int) -> Seq<int> {
    Seq::new(units.len(), |h: int| units[h] + sign * column(n, f, h))
}

/// One perspective's units after `sign` times the column of weights starting
/// at `start` is added, for the first `done` units.
fn shift_units(units: &mut [i32; 256], weights: &Vec<i16>, start: usize, sign: i32)
    requires
        start + 256 <= weights@.len(),
        start + 256 <= FEATURE_WEIGHTS,
        sign == 1 || sign == -1,
        unit_room(old(units)@.map_values(|v: i32| v as int)),
    ensures
        forall|h: int|
            0 <= h < 256 ==> #[trigger] final(units)@[h] == old(units)@[h] + sign * weights@[start
                + h],
{
    let mut h: usize = 0;
    while h < HIDDEN
        invariant
            h <= 256,
            start + 256 <= weights@.len(),
            start + 256 <= FEATURE_WEIGHTS,
            sign == 1 || sign == -1,
            unit_room(old(units)@.map_values(|v: i32| v as int)),
            forall|k: int|
                0 <= k < h ==> #[trigger] units@[k] == old(units)@[k] + sign * weights@[start + k],
            forall|k: int| h <= k < 256 ==> #[trigger] units@[k] == old(units)@[k],
        decreases 256 - h,
    {
        assert(start + h < weights@.len());
        let w = weights[start + h] as i32;
        proof {
            assert(old(units)@.map_values(|v: i32| v as int)[h as int] == old(units)@[h as int]);
        }
        units[h] = units[h] + sign * w;
        h = h + 1;
    }
}

/// `units` in integer view.
pub open spec fn as_ints(units: Seq<i32>) -> Seq<int> {
    units.map_values(|v: i32| v as int)
}

impl Network {
    fn update_piece(
        &self,
        acc: &mut Accumulator,
        color: Color,
        piece: PieceType,
        square: Square,
        sign: i32,
    )
        requires
            square < 64,
            sign == 1 || sign == -1,
            unit_room(old(acc).white_units()),
            unit_room(old(acc).black_units()),
        ensures
            final(acc).white_units() == shifted(
                old(acc).white_units(),
                self@,
                feature(Color::White, color, piece, square as int),
                sign as int,
            ),
            final(acc).black_units() == shifted(
                old(acc).black_units(),
                self@,
                feature(Color::Black, color, piece, square as int),
                sign as int,
            ),
    {
        proof {
            use_type_invariant(self);
        }
        let white = feature_index(Color::White, color, piece, square) * HIDDEN;
        let black = feature_index(Color::Black, color, piece, square) * HIDDEN;
        let ghost w0 = acc.white@;
        let ghost b0 = acc.black@;
        shift_units(&mut acc.white, &self.feature_weights, white, sign);
        shift_units(&mut acc.black, &self.feature_weights, black, sign);
        proof {
            assert(acc.white_units() =~= shifted(
                as_ints(w0),
                self@,
                feature(Color::White, color, piece, square as int),
                sign as int,
            ));
            assert(acc.black_units() =~= shifted(
                as_ints(b0),
                self@,
                feature(Color::Black, color, piece, square as int),
                sign as int,
            ));
        }
    }

    /// Add a piece's feature column to both perspectives.
    pub fn add_piece(&self, acc: &mut Accumulator, color: Color, piece: PieceType, square: Square)
        requires
            square < 64,
            unit_room(old(acc).white_units()),
            unit_room(old(acc).black_units()),
        ensures
            final(acc).white_units() == shifted(
                old(acc).white_units(),
                self@,
                feature(Color::White, color, piece, square as int),
                1,
            ),
            final(acc).black_units() == shifted(
                old(acc).black_units(),
                self@,
                feature(Color::Black, color, piece, square as int),
                1,
            ),
    {
        self.update_piece(acc, color, piece, square, 1);
    }

    /// Remove a piece's feature column from both perspectives — the exact inverse
    /// of `add_piece`, so unmake restores the accumulator bit-for-bit.
    pub fn remove_piece(&self, acc: &mut Accumulator, color: Color, piece: PieceType, square: Square)
        requires
            square < 64,
            unit_room(old(acc).white_units()),
            unit_room(old(acc).black_units()),
        ensures
            final(acc).white_units() == shifted(
                old(acc).white_units(),
                self@,
                feature(Color::White, color, piece, square as int),
                -1,
            ),
            final(acc).black_units() == shifted(
                old(acc).black_units(),
                self@,
                feature(Color::Black, color, piece, square as int),
                -1,
            ),
    {
        self.update_piece(acc, color, piece, square, -1);
    }
}

/// Removing a piece's column after adding it restores the units exactly.
pub proof fn law_remove_undoes_add(units: Seq<int>, n: NetParams, f: int)
    ensures
        shifted(shifted(units, n, f, 1), n, f, -1) == units,
{
    assert(shifted(shifted(units, n, f, 1), n, f, -1) =~= units);
}

/// What a square's content adds to unit `h` of `perspective`'s accumulator.
pub open spec fn piece_term(n: NetParams, perspective: Color, entry: Option<Piece>, s: int, h: int) -> int {
    match entry {
        Some(pc) => column(n, feature(perspective, pc.color, pc.piece_type, s), h),
        None => 0,
    }
}

/// The columns of the pieces on the first `k` squares, at unit `h`.
pub open spec fn columns_sum(n: NetParams, perspective: Color, sq: Seq<Option<Piece>>, h: int, k: int) -> int
    decreases k,
{
    if k <= 0 {
        0
    } else {
        columns_sum(n, perspective, sq, h, k - 1) + piece_term(n, perspective, sq[k - 1], k - 1, h)
    }
}

/// The eight terms of `rank`, files a to h.
pub open spec fn rank_terms(n: NetParams, perspective: Color, sq: Seq<Option<Piece>>, h: int, rank: int) -> int {
    piece_term(n, perspective, sq[rank * 8], rank * 8, h) + piece_term(n, perspective, sq[rank * 8 + 1], rank * 8 + 1, h)
        + piece_term(n, perspective, sq[rank * 8 + 2], rank * 8 + 2, h) + piece_term(n, perspective, sq[rank * 8 + 3], rank * 8 + 3, h)
        + piece_term(n, perspective, sq[rank * 8 + 4], rank * 8 + 4, h) + piece_term(n, perspective, sq[rank * 8 + 5], rank * 8 + 5, h)
        + piece_term(n, perspective, sq[rank * 8 + 6], rank * 8 + 6, h) + piece_term(n, perspective, sq[rank * 8 + 7], rank * 8 + 7, h)
}

/// The columns of the whole board are the columns of its eight ranks.
proof fn lemma_columns_by_rank(n: NetParams, perspective: Color, sq: Seq<Option<Piece>>, h: int, rank: int)
    requires
        0 <= rank <= 8,
    ensures
        columns_sum(n, perspective, sq, h, rank * 8) == if rank == 0 {
            0
        } else {
            columns_sum(n, perspective, sq, h, (rank - 1) * 8) + rank_terms(n, perspective, sq, h, rank - 1)
        },
{
    if rank > 0 {
        let b = (rank - 1) * 8;
        assert(columns_sum(n, perspective, sq, h, b + 1) == columns_sum(n, perspective, sq, h, b) + piece_term(n, perspective, sq[b], b, h));
        assert(columns_sum(n, perspective, sq, h, b + 2) == columns_sum(n, perspective, sq, h, b + 1) + piece_term(n, perspective, sq[b + 1], b + 1, h));
        assert(columns_sum(n, perspective, sq, h, b + 3) == columns_sum(n, perspective, sq, h, b + 2) + piece_term(n, perspective, sq[b + 2], b + 2, h));
        assert(columns_sum(n, perspective, sq, h, b + 4) == columns_sum(n, perspective, sq, h, b + 3) + piece_term(n, perspective, sq[b + 3], b + 3, h));
        assert(columns_sum(n, perspective, sq, h, b + 5) == columns_sum(n, perspective, sq, h, b + 4) + piece_term(n, perspective, sq[b + 4], b + 4, h));
        assert(columns_sum(n, perspective, sq, h, b + 6) == columns_sum(n, perspective, sq, h, b + 5) + piece_term(n, perspective, sq[b + 5], b + 5, h));
        assert(columns_sum(n, perspective, sq, h, b + 7) == columns_sum(n, perspective, sq, h, b + 6) + piece_term(n, perspective, sq[b + 6], b + 6, h));
        assert(columns_sum(n, perspective, sq, h, b + 8) == columns_sum(n, perspective, sq, h, b + 7) + piece_term(n, perspective, sq[b + 7], b + 7, h));
        assert(rank * 8 == b + 8);
    }
}

/// A mirrored square's term from the other perspective is the term of the
/// square on the same file and the opposite rank.
proof fn lemma_mirror_term(n: NetParams, perspective: Color, sq: Seq<Option<Piece>>, h: int, rank: int, file: int)
    requires
        sq.len() == 64,
        0 <= rank < 8,
        0 <= file < 8,
    ensures
        piece_term(n, perspective.opp(), mirrored(sq)[rank * 8 + file], rank * 8 + file, h) == piece_term(
            n,
            perspective,
            sq[(7 - rank) * 8 + file],
            (7 - rank) * 8 + file,
            h,
        ),
{
    let s = rank * 8 + file;
    let t = (7 - rank) * 8 + file;
    assert(s / 8 == rank && s % 8 == file);
    assert(t / 8 == 7 - rank && t % 8 == file);
}

/// A mirrored rank from the other perspective adds what the rank
/// on the far side of the board adds.
proof fn lemma_mirror_rank(n: NetParams, perspective: Color, sq: Seq<Option<Piece>>, h: int, rank: int)
    requires
        sq.len() == 64,
        0 <= rank < 8,
    ensures
        rank_terms(n, perspective.opp(), mirrored(sq), h, rank) == rank_terms(n, perspective, sq, h, 7 - rank),
{
    lemma_mirror_term(n, perspective, sq, h, rank, 0);
    lemma_mirror_term(n, perspective, sq, h, rank, 1);
    lemma_mirror_term(n, perspective, sq, h, rank, 2);
    lemma_mirror_term(n, perspective, sq, h, rank, 3);
    lemma_mirror_term(n, perspective, sq, h, rank, 4);
    lemma_mirror_term(n, perspective, sq, h, rank, 5);
    lemma_mirror_term(n, perspective, sq, h, rank, 6);
    lemma_mirror_term(n, perspective, sq, h, rank, 7);
}

/// The accumulator of a mirrored board from the other perspective is the
/// unmirrored board's accumulator.
proof fn lemma_mirror_units(n: NetParams, perspective: Color, sq: Seq<Option<Piece>>)
    requires
        sq.len() == 64,
    ensures
        fresh_units(n, perspective.opp(), mirrored(sq)) == fresh_units(n, perspective, sq),
{
    let m = mirrored(sq);
    let q = perspective.opp();
    assert forall|h: int| 0 <= h < 256 implies columns_sum(n, q, m, h, 64) == columns_sum(n, perspective, sq, h, 64) by {
        lemma_mirror_rank(n, perspective, sq, h, 0);
        lemma_mirror_rank(n, perspective, sq, h, 1);
        lemma_mirror_rank(n, perspective, sq, h, 2);
        lemma_mirror_rank(n, perspective, sq, h, 3);
        lemma_mirror_rank(n, perspective, sq, h, 4);
        lemma_mirror_rank(n, perspective, sq, h, 5);
        lemma_mirror_rank(n, perspective, sq, h, 6);
        lemma_mirror_rank(n, perspective, sq, h, 7);
        lemma_columns_by_rank(n, q, m, h, 1);
        lemma_columns_by_rank(n, q, m, h, 2);
        lemma_columns_by_rank(n, q, m, h, 3);
        lemma_columns_by_rank(n, q, m, h, 4);
        lemma_columns_by_rank(n, q, m, h, 5);
        lemma_columns_by_rank(n, q, m, h, 6);
        lemma_columns_by_rank(n, q, m, h, 7);
        lemma_columns_by_rank(n, q, m, h, 8);
        lemma_columns_by_rank(n, perspective, sq, h, 1);
        lemma_columns_by_rank(n, perspective, sq, h, 2);
        lemma_columns_by_rank(n, perspective, sq, h, 3);
        lemma_columns_by_rank(n, perspective, sq, h, 4);
        lemma_columns_by_rank(n, perspective, sq, h, 5);
        lemma_columns_by_rank(n, perspective, sq, h, 6);
        lemma_columns_by_rank(n, perspective, sq, h, 7);
        lemma_columns_by_rank(n, perspective, sq, h, 8);
    }
    assert(fresh_units(n, q, m) =~= fresh_units(n, perspective, sq));
}

/// Mirroring the board (ranks flipped, colours swapped) and passing the move
/// to the other side negates the network's White-positive score, whatever
/// its weights.
pub proof fn law_mirror_negates_score(n: NetParams, p: Position, q: Position)
    requires
        p.squares.len() == 64,
        q.squares == mirrored(p.squares),
        q.side == p.side.opp(),
    ensures
        network_score(n, fresh_units(n, q.side, q.squares), fresh_units(n, q.side.opp(), q.squares), q.side)
            == -network_score(n, fresh_units(n, p.side, p.squares), fresh_units(n, p.side.opp(), p.squares), p.side),
{
    lemma_mirror_units(n, p.side.opp(), p.squares);
    lemma_mirror_units(n, p.side, p.squares);
    assert(p.side.opp().opp() == p.side);
}

/// The accumulator of `perspective` for a board: the bias plus the column of
/// every piece.
pub open spec fn fresh_units(n: NetParams, perspective: Color, sq: Seq<Option<Piece>>) -> Seq<int> {
    Seq::new(256, |h: int| n.feature_bias[h] as int + columns_sum(n, perspective, sq, h, 64))
}

proof fn lemma_columns_bound(n: NetParams, perspective: Color, sq: Seq<Option<Piece>>, h: int, k: int)
    requires
        well_shaped(n),
        0 <= h < 256,
        0 <= k <= 64,
    ensures
        -32768 * k <= columns_sum(n, perspective, sq, h, k) <= 32767 * k,
    decreases k,
{
    if k > 0 {
        lemma_columns_bound(n, perspective, sq, h, k - 1);
        if let Some(pc) = sq[k - 1] {
            let f = feature(perspective, pc.color, pc.piece_type, k - 1);
            assert(0 <= f < 768);
            assert(0 <= f * 256 + h < FEATURE_WEIGHTS) by (nonlinear_arith)
                requires
                    0 <= f < 768,
                    0 <= h < 256,
            ;
        }
    }
}

impl Network {
    /// A fresh accumulator built from every piece — the full refresh, which
    /// the incremental path (`add_piece` / `remove_piece`) agrees with.
    pub fn fresh_accumulator(&self, board: &Board) -> (acc: Accumulator)
        requires
            board.bits_ok(),
        ensures
            acc.white_units() == fresh_units(self@, Color::White, board@.squares),
            acc.black_units() == fresh_units(self@, Color::Black, board@.squares),
            within(acc.white_units(), 65 * 32768int),
            within(acc.black_units(), 65 * 32768int),
    {
        proof {
            use_type_invariant(self);
        }
        let mut bias = [0i32; 256];
        let mut h: usize = 0;
        while h < HIDDEN
            invariant
                h <= 256,
                well_shaped(self@),
                forall|k: int| 0 <= k < h ==> #[trigger] bias@[k] == self@.feature_bias[k],
            decreases 256 - h,
        {
            bias[h] = self.feature_bias[h] as i32;
            h = h + 1;
        }
        let mut acc = Accumulator { white: bias, black: bias };
        let ghost n = self@;
        let ghost sq = board@.squares;
        proof {
            assert(acc.white_units() =~= Seq::new(
                256,
                |h: int| n.feature_bias[h] as int + columns_sum(n, Color::White, sq, h, 0),
            ));
            assert(acc.black_units() =~= Seq::new(
                256,
                |h: int| n.feature_bias[h] as int + columns_sum(n, Color::Black, sq, h, 0),
            ));
        }
        let mut square: u8 = 0;
        while square < 64
            invariant
                square <= 64,
                board.bits_ok(),
                n == self@,
                sq == board@.squares,
                well_shaped(n),
                acc.white_units() == Seq::new(
                    256,
                    |h: int| n.feature_bias[h] as int + columns_sum(n, Color::White, sq, h, square as int),
                ),
                acc.black_units() == Seq::new(
                    256,
                    |h: int| n.feature_bias[h] as int + columns_sum(n, Color::Black, sq, h, square as int),
                ),
            decreases 64 - square,
        {
            proof {
                assert forall|h: int| 0 <= h < 256 implies -0x7FFF_7FFF <= #[trigger] acc.white_units()[h]
                    <= 0x7FFF_7FFF by {
                    lemma_columns_bound(n, Color::White, sq, h, square as int);
                }
                assert forall|h: int| 0 <= h < 256 implies -0x7FFF_7FFF <= #[trigger] acc.black_units()[h]
                    <= 0x7FFF_7FFF by {
                    lemma_columns_bound(n, Color::Black, sq, h, square as int);
                }
            }
            match board.piece_at(square) {
                Some(piece) => {
                    self.add_piece(&mut acc, piece.color, piece.piece_type, square);
                },
                None => {},
            }
            proof {
                assert(acc.white_units() =~= Seq::new(
                    256,
                    |h: int| n.feature_bias[h] as int + columns_sum(n, Color::White, sq, h, square + 1),
                ));
                assert(acc.black_units() =~= Seq::new(
                    256,
                    |h: int| n.feature_bias[h] as int + columns_sum(n, Color::Black, sq, h, square + 1),
                ));
            }
            square = square + 1;
        }
        proof {
            assert forall|h: int| 0 <= h < acc.white_units().len() implies -(65 * 32768) <= #[trigger] acc.white_units()[h]
                <= 65 * 32768 by {
                lemma_columns_bound(n, Color::White, sq, h, 64);
            }
            assert forall|h: int| 0 <= h < acc.black_units().len() implies -(65 * 32768) <= #[trigger] acc.black_units()[h]
                <= 65 * 32768 by {
                lemma_columns_bound(n, Color::Black, sq, h, 64);
            }
        }
        acc
    }
}

/// The output layer's weighted sum over the first `k` units of one
/// perspective, whose weights start at `offset`.
pub open spec fn activation_sum(units: Seq<int>, weights: Seq<i16>, offset: int, k: int) -> int
    decreases k,
{
    if k <= 0 {
        0
    } else {
        activation_sum(units, weights, offset, k - 1) + screlu_spec(units[k - 1]) * weights[offset
            + k - 1] as int
    }
}

/// `x / d` rounded toward zero, as integer division does.
pub open spec fn quotient(x: int, d: int) -> int {
    if x >= 0 {
        x / d
    } else {
        -((-x) / d)
    }
}

/// The network's White-positive score for accumulator units `stm` (the side
/// to move's) and `nstm`: the output neuron, dequantized, clamped, and
/// negated when Black is to move.
pub open spec fn network_score(n: NetParams, stm: Seq<int>, nstm: Seq<int>, side: Color) -> int {
    let sum = activation_sum(stm, n.output_weights, 0, 256) + activation_sum(
        nstm,
        n.output_weights,
        256,
        256,
    );
    let activated = quotient(sum, QA as int) + n.output_bias;
    let relative = quotient(activated * SCALE, QA * QB);
    let clamped = if relative < -EVAL_LIMIT {
        -EVAL_LIMIT as int
    } else if relative > EVAL_LIMIT {
        EVAL_LIMIT as int
    } else {
        relative
    };
    if side == Color::White {
        clamped
    } else {
        -clamped
    }
}

/// The accumulator units read for `side` to move: its own first.
pub open spec fn perspective_pair(acc: Accumulator, side: Color) -> (Seq<int>, Seq<int>) {
    match side {
        Color::White => (acc.white_units(), acc.black_units()),
        Color::Black => (acc.black_units(), acc.white_units()),
    }
}

fn activation(units: &[i32; 256], weights: &Vec<i16>, offset: usize) -> (r: i64)
    requires
        offset + 256 <= weights@.len(),
        offset <= 256,
    ensures
        r == activation_sum(as_ints(units@), weights@, offset as int, 256),
        -256 * 65025 * 32768 <= r <= 256 * 65025 * 32768,
{
    let mut sum: i64 = 0;
    let mut h: usize = 0;
    while h < HIDDEN
        invariant
            h <= 256,
            offset + 256 <= weights@.len(),
            offset <= 256,
            sum == activation_sum(as_ints(units@), weights@, offset as int, h as int),
            -(h as int) * 65025 * 32768 <= sum <= (h as int) * 65025 * 32768,
        decreases 256 - h,
    {
        let a = screlu(units[h]);
        let w = weights[offset + h] as i64;
        proof {
            assert(as_ints(units@)[h as int] == units@[h as int] as int);
        }
        assert(-65025 * 32768 <= (a as i64) * w <= 65025 * 32768) by (nonlinear_arith)
            requires
                0 <= a <= 65025,
                -32768 <= w <= 32767,
        ;
        assert(-(h as int) * 65025 * 32768 - 65025 * 32768 == -((h + 1) as int) * 65025 * 32768)
            by (nonlinear_arith);
        assert((h as int) * 65025 * 32768 + 65025 * 32768 == ((h + 1) as int) * 65025 * 32768)
            by (nonlinear_arith);
        sum = sum + (a as i64) * w;
        h = h + 1;
    }
    sum
}

impl Network {
    /// The White-positive evaluation from a built accumulator. The network
    /// output is side-to-move relative; it is negated for Black so it matches
    /// the hand-written evaluation's sign.
    pub fn evaluate_accumulator(&self, acc: &Accumulator, side: Color) -> (r: i32)
        ensures
            r == network_score(self@, perspective_pair(*acc, side).0, perspective_pair(*acc, side).1, side),
            -EVAL_LIMIT <= r <= EVAL_LIMIT,
    {
        proof {
            use_type_invariant(self);
        }
        let (stm, nstm) = match side {
            Color::White => (&acc.white, &acc.black),
            Color::Black => (&acc.black, &acc.white),
        };
        let sum = activation(stm, &self.output_weights, 0) + activation(nstm, &self.output_weights, 256);
        // The squared activation carries an extra QA factor; divide it out, add
        // the bias at the QA*QB scale, then dequantize to centipawns.
        let scaled = if sum >= 0 {
            sum / 255
        } else {
            -((-sum) / 255)
        };
        assert(-2 * 256 * 65025 * 32768 <= scaled <= 2 * 256 * 65025 * 32768) by (nonlinear_arith)
            requires
                -2 * 256 * 65025 * 32768 <= sum <= 2 * 256 * 65025 * 32768,
                sum >= 0 ==> scaled == sum / 255,
                sum < 0 ==> scaled == -((-sum) / 255),
        ;
        let activated = scaled + self.output_bias as i64;
        let numerator = activated * 400;
        let denominator: i64 = 255 * 64;
        let relative = if numerator >= 0 {
            numerator / denominator
        } else {
            -((-numerator) / denominator)
        };
        // Clamp well below the search's mate threshold so no network output is
        // ever misread as a forced mate.
        let clamped: i32 = if relative < -(EVAL_LIMIT as i64) {
            -EVAL_LIMIT
        } else if relative > EVAL_LIMIT as i64 {
            EVAL_LIMIT
        } else {
            relative as i32
        };
        match side {
            Color::White => clamped,
            Color::Black => -clamped,
        }
    }

    /// The white-positive static evaluation in centipawns, by full refresh.
    pub fn evaluate(&self, board: &Board) -> (r: i32)
        requires
            board.bits_ok(),
        ensures
            r == network_score(
                self@,
                fresh_units(self@, board@.side, board@.squares),
                fresh_units(self@, board@.side.opp(), board@.squares),
                board@.side,
            ),
    {
        let accumulator = self.fresh_accumulator(board);
        self.evaluate_accumulator(&accumulator, board.side_to_move())
    }
}

/// The little-endian 16-bit signed value at `at`.
pub open spec fn le_i16(b: Seq<u8>, at: int) -> int {
    let u = b[at] as int + 256 * b[at + 1] as int;
    if u >= 0x8000 {
        u - 0x10000
    } else {
        u
    }
}

/// The little-endian 32-bit signed value at `at`.
pub open spec fn le_i32(b: Seq<u8>, at: int) -> int {
    let u = b[at] as int + 0x100 * b[at + 1] as int + 0x10000 * b[at + 2] as int + 0x1000000 * b[at
        + 3] as int;
    if u >= 0x8000_0000 {
        u - 0x1_0000_0000
    } else {
        u
    }
}

/// A signed decimal numeral.
pub open spec fn signed_decimal(v: int) -> Seq<char> {
    if v < 0 {
        seq!['-'] + decimal((-v) as nat)
    } else {
        decimal(v as nat)
    }
}

/// The file's magic: "BNN1".
pub open spec fn magic_ok(b: Seq<u8>) -> bool {
    b[0] == 66 && b[1] == 78 && b[2] == 78 && b[3] == 49
}

/// The first header field that does not match the compiled architecture, by
/// its name, found value and expected value.
pub open spec fn header_mismatch(b: Seq<u8>) -> Option<(Seq<char>, int, int)> {
    if le_i32(b, 4) != INPUT {
        Some(("input dimension"@, le_i32(b, 4), INPUT as int))
    } else if le_i32(b, 8) != HIDDEN {
        Some(("hidden dimension"@, le_i32(b, 8), HIDDEN as int))
    } else if le_i32(b, 12) != QA {
        Some(("QA"@, le_i32(b, 12), QA as int))
    } else if le_i32(b, 16) != QB {
        Some(("QB"@, le_i32(b, 16), QB as int))
    } else if le_i32(b, 20) != SCALE {
        Some(("SCALE"@, le_i32(b, 20), SCALE as int))
    } else {
        None
    }
}

/// The parameters a well-formed network file holds: the feature weights, the
/// feature bias and the output weights as little-endian 16-bit values after
/// the header, then the 32-bit output bias.
pub open spec fn decoded(b: Seq<u8>) -> NetParams {
    NetParams {
        feature_weights: Seq::new(FEATURE_WEIGHTS as nat, |i: int| le_i16(b, 24 + 2 * i) as i16),
        feature_bias: Seq::new(HIDDEN as nat, |i: int| le_i16(b, 24 + 2 * (196_608 + i)) as i16),
        output_weights: Seq::new(
            OUTPUT_WEIGHTS as nat,
            |i: int| le_i16(b, 24 + 2 * (196_864 + i)) as i16,
        ),
        output_bias: le_i32(b, 394_776) as i32,
    }
}

/// What reading a network file gives: its parameters, or the message it is
/// refused with.
pub open spec fn network_outcome(b: Seq<u8>) -> Result<NetParams, Seq<char>> {
    if b.len() != FILE_LEN {
        Err("network file is "@ + decimal(b.len()) + " bytes, expected 394780"@)
    } else if !magic_ok(b) {
        Err("network file has a bad magic header"@)
    } else {
        match header_mismatch(b) {
            Some((name, found, expected)) => Err(
                "network "@ + name + " is "@ + signed_decimal(found) + ", expected "@
                    + signed_decimal(expected),
            ),
            None => Ok(decoded(b)),
        }
    }
}

proof fn lemma_le_i16(lo: u8, hi: u8)
    ensures
        (((lo as u16) | ((hi as u16) << 8u16)) as i16) as int == (if lo as int + 256 * hi as int
            >= 0x8000 {
            lo as int + 256 * hi as int - 0x10000
        } else {
            lo as int + 256 * hi as int
        }),
{
    assert((((lo as u16) | ((hi as u16) << 8u16)) as i16) as int == (if lo as int + 256 * hi as int
        >= 0x8000 {
        lo as int + 256 * hi as int - 0x10000
    } else {
        lo as int + 256 * hi as int
    })) by (bit_vector);
}

fn read_i16(bytes: &[u8], at: usize) -> (r: i16)
    requires
        at + 2 <= bytes@.len(),
    ensures
        r as int == le_i16(bytes@, at as int),
{
    let lo = bytes[at];
    let hi = bytes[at + 1];
    proof {
        lemma_le_i16(lo, hi);
    }
    ((lo as u16) | ((hi as u16) << 8u16)) as i16
}

proof fn lemma_le_i32(b0: u8, b1: u8, b2: u8, b3: u8)
    ensures
        (((b0 as u32) | ((b1 as u32) << 8u32) | ((b2 as u32) << 16u32) | ((b3 as u32) << 24u32))
            as i32) as int == (if b0 as int + 0x100 * b1 as int + 0x10000 * b2 as int + 0x1000000
            * b3 as int >= 0x8000_0000 {
            b0 as int + 0x100 * b1 as int + 0x10000 * b2 as int + 0x1000000 * b3 as int
                - 0x1_0000_0000
        } else {
            b0 as int + 0x100 * b1 as int + 0x10000 * b2 as int + 0x1000000 * b3 as int
        }),
{
    assert((((b0 as u32) | ((b1 as u32) << 8u32) | ((b2 as u32) << 16u32) | ((b3 as u32)
        << 24u32)) as i32) as int == (if b0 as int + 0x100 * b1 as int + 0x10000 * b2 as int
        + 0x1000000 * b3 as int >= 0x8000_0000 {
        b0 as int + 0x100 * b1 as int + 0x10000 * b2 as int + 0x1000000 * b3 as int
            - 0x1_0000_0000
    } else {
        b0 as int + 0x100 * b1 as int + 0x10000 * b2 as int + 0x1000000 * b3 as int
    })) by (bit_vector);
}

fn read_i32(bytes: &[u8], at: usize) -> (r: i32)
    requires
        at + 4 <= bytes@.len(),
    ensures
        r as int == le_i32(bytes@, at as int),
{
    let b0 = bytes[at];
    let b1 = bytes[at + 1];
    let b2 = bytes[at + 2];
    let b3 = bytes[at + 3];
    proof {
        lemma_le_i32(b0, b1, b2, b3);
    }
    ((b0 as u32) | ((b1 as u32) << 8u32) | ((b2 as u32) << 16u32) | ((b3 as u32) << 24u32)) as i32
}

/// Append a signed decimal numeral.
fn push_signed(text: &mut String, v: i32)
    ensures
        final(text)@ == old(text)@ + signed_decimal(v as int),
{
    if v < 0 {
        push_char(text, '-');
        push_decimal(text, (-(v as i64)) as u64);
        proof {
            assert(final(text)@ =~= old(text)@ + signed_decimal(v as int));
        }
    } else {
        push_decimal(text, v as u64);
    }
}

/// Read `count` little-endian 16-bit values starting at `at`.
fn read_block(bytes: &[u8], at: usize, count: usize) -> (r: Vec<i16>)
    requires
        at + 2 * count <= bytes@.len(),
        at + 2 * count <= FILE_LEN,
    ensures
        r@.len() == count,
        forall|i: int| 0 <= i < count ==> #[trigger] r@[i] as int == le_i16(bytes@, at + 2 * i),
{
    let mut values: Vec<i16> = Vec::with_capacity(count);
    let mut i: usize = 0;
    while i < count
        invariant
            i <= count,
            at + 2 * count <= bytes@.len(),
            at + 2 * count <= FILE_LEN,
            values@.len() == i,
            forall|k: int| 0 <= k < i ==> #[trigger] values@[k] as int == le_i16(bytes@, at + 2 * k),
        decreases count - i,
    {
        values.push(read_i16(bytes, at + 2 * i));
        i = i + 1;
    }
    values
}

fn header_message(name: &str, found: i32, expected: i32) -> (r: String)
    ensures
        r@ == "network "@ + name@ + " is "@ + signed_decimal(found as int) + ", expected "@
            + signed_decimal(expected as int),
{
    let mut m = String::from_str("network ");
    m.append(name);
    m.append(" is ");
    push_signed(&mut m, found);
    m.append(", expected ");
    push_signed(&mut m, expected);
    m
}

impl Network {
    /// Parse a quantized network from its little-endian byte image. Rejects a
    /// file whose magic, dimensions, or quantization scales do not match this
    /// compiled architecture, or whose length is wrong.
    pub fn from_bytes(bytes: &[u8]) -> (r: Result<Network, String>)
        ensures
            network_outcome(bytes@) matches Ok(n) ==> r matches Ok(net) && net@ == n,
            network_outcome(bytes@) matches Err(m) ==> r matches Err(e) && e@ == m,
    {
        if bytes.len() != FILE_LEN {
            let mut m = String::from_str("network file is ");
            push_decimal(&mut m, bytes.len() as u64);
            m.append(" bytes, expected 394780");
            return Err(m);
        }
        if !(bytes[0] == 66 && bytes[1] == 78 && bytes[2] == 78 && bytes[3] == 49) {
            return Err(String::from_str("network file has a bad magic header"));
        }
        let input = read_i32(bytes, 4);
        if input != INPUT as i32 {
            return Err(header_message("input dimension", input, INPUT as i32));
        }
        let hidden = read_i32(bytes, 8);
        if hidden != HIDDEN as i32 {
            return Err(header_message("hidden dimension", hidden, HIDDEN as i32));
        }
        let qa = read_i32(bytes, 12);
        if qa != QA {
            return Err(header_message("QA", qa, QA));
        }
        let qb = read_i32(bytes, 16);
        if qb != QB {
            return Err(header_message("QB", qb, QB));
        }
        let scale = read_i32(bytes, 20);
        if scale != SCALE {
            return Err(header_message("SCALE", scale, SCALE));
        }
        let feature_weights = read_block(bytes, HEADER_LEN, FEATURE_WEIGHTS);
        let feature_bias = read_block(bytes, HEADER_LEN + 2 * FEATURE_WEIGHTS, HIDDEN);
        let output_weights = read_block(bytes, HEADER_LEN + 2 * (FEATURE_WEIGHTS + HIDDEN), OUTPUT_WEIGHTS);
        let output_bias = read_i32(bytes, 394_776);
        let net = Network { feature_weights, feature_bias, output_weights, output_bias };
        proof {
            assert(net@.feature_weights =~= decoded(bytes@).feature_weights);
            assert(net@.feature_bias =~= decoded(bytes@).feature_bias);
            assert(net@.output_weights =~= decoded(bytes@).output_weights);
        }
        Ok(net)
    }
}

/// Byte `j` (0 low, 1 high) of a 16-bit value, little-endian.
pub open spec fn i16_byte(v: i16, j: int) -> u8 {
    if j == 0 {
        ((v as u16) & 0xFF) as u8
    } else {
        ((v as u16) >> 8u16) as u8
    }
}

/// Byte `j` (0 lowest) of a 32-bit value, little-endian.
pub open spec fn i32_byte(v: i32, j: int) -> u8 {
    let u = v as u32;
    if j == 0 {
        (u & 0xFF) as u8
    } else if j == 1 {
        ((u >> 8u32) & 0xFF) as u8
    } else if j == 2 {
        ((u >> 16u32) & 0xFF) as u8
    } else {
        ((u >> 24u32) & 0xFF) as u8
    }
}

/// The header values after the magic.
pub open spec fn header_value(j: int) -> i32 {
    if j == 0 {
        768
    } else if j == 1 {
        256
    } else if j == 2 {
        255
    } else if j == 3 {
        64
    } else {
        400
    }
}

/// The 16-bit values of a network, in file order.
pub open spec fn all_weights(n: NetParams) -> Seq<i16> {
    n.feature_weights + n.feature_bias + n.output_weights
}

/// The byte image of a network: magic, header, the 16-bit values, then the
/// output bias, all little-endian.
pub open spec fn encoded(n: NetParams) -> Seq<u8> {
    Seq::new(
        FILE_LEN as nat,
        |k: int|
            if k < 4 {
                seq![66u8, 78u8, 78u8, 49u8][k]
            } else if k < 24 {
                i32_byte(header_value((k - 4) / 4), (k - 4) % 4)
            } else if k < 394_776 {
                i16_byte(all_weights(n)[(k - 24) / 2], (k - 24) % 2)
            } else {
                i32_byte(n.output_bias, k - 394_776)
            },
    )
}

fn push_i32(out: &mut Vec<u8>, v: i32)
    ensures
        final(out)@ == old(out)@ + seq![i32_byte(v, 0), i32_byte(v, 1), i32_byte(v, 2), i32_byte(v, 3)],
{
    let u = v as u32;
    out.push((u & 0xFF) as u8);
    out.push(((u >> 8u32) & 0xFF) as u8);
    out.push(((u >> 16u32) & 0xFF) as u8);
    out.push(((u >> 24u32) & 0xFF) as u8);
    proof {
        assert(final(out)@ =~= old(out)@ + seq![
            i32_byte(v, 0),
            i32_byte(v, 1),
            i32_byte(v, 2),
            i32_byte(v, 3),
        ]);
    }
}

fn push_block(out: &mut Vec<u8>, values: &Vec<i16>)
    ensures
        final(out)@.len() == old(out)@.len() + 2 * values@.len(),
        final(out)@.take(old(out)@.len() as int) == old(out)@,
        forall|j: int|
            old(out)@.len() <= j < final(out)@.len() ==> #[trigger] final(out)@[j] == i16_byte(
                values@[(j - old(out)@.len()) / 2],
                (j - old(out)@.len()) % 2,
            ),
{
    let mut i: usize = 0;
    while i < values.len()
        invariant
            i <= values@.len(),
            out@.len() == old(out)@.len() + 2 * i,
            out@.take(old(out)@.len() as int) == old(out)@,
            forall|j: int|
                old(out)@.len() <= j < out@.len() ==> #[trigger] out@[j] == i16_byte(
                    values@[(j - old(out)@.len()) / 2],
                    (j - old(out)@.len()) % 2,
                ),
        decreases values@.len() - i,
    {
        let u = values[i] as u16;
        out.push((u & 0xFF) as u8);
        out.push((u >> 8u16) as u8);
        proof {
            assert(out@.take(old(out)@.len() as int) =~= old(out)@);
            let base = old(out)@.len() + 2 * i;
            assert((base - old(out)@.len()) / 2 == i && (base - old(out)@.len()) % 2 == 0);
            assert((base + 1 - old(out)@.len()) / 2 == i && (base + 1 - old(out)@.len()) % 2 == 1);
        }
        i = i + 1;
    }
}

impl Network {
    /// Serialize to the little-endian byte image `from_bytes` reads.
    pub fn to_bytes(&self) -> (r: Vec<u8>)
        ensures
            r@ == encoded(self@),
    {
        proof {
            use_type_invariant(self);
        }
        let mut bytes: Vec<u8> = Vec::with_capacity(FILE_LEN);
        bytes.push(66);
        bytes.push(78);
        bytes.push(78);
        bytes.push(49);
        push_i32(&mut bytes, INPUT as i32);
        push_i32(&mut bytes, HIDDEN as i32);
        push_i32(&mut bytes, QA);
        push_i32(&mut bytes, QB);
        push_i32(&mut bytes, SCALE);
        let ghost head = bytes@;
        push_block(&mut bytes, &self.feature_weights);
        let ghost first = bytes@;
        push_block(&mut bytes, &self.feature_bias);
        let ghost second = bytes@;
        push_block(&mut bytes, &self.output_weights);
        let ghost third = bytes@;
        push_i32(&mut bytes, self.output_bias);
        proof {
            let e = encoded(self@);
            let w = all_weights(self@);
            assert(bytes@.len() == e.len());
            assert forall|k: int| 0 <= k < e.len() implies #[trigger] bytes@[k] == e[k] by {
                if k < 24 {
                    assert(bytes@[k] == head[k]);
                } else if k < 24 + 2 * 196_608 {
                    let i = (k - 24) / 2;
                    assert(bytes@[k] == first[k]);
                    assert(w[i] == self@.feature_weights[i]);
                } else if k < 24 + 2 * 196_864 {
                    let i = (k - 24 - 2 * 196_608) / 2;
                    assert((k - 24) / 2 == 196_608 + i);
                    assert((k - 24) % 2 == (k - 24 - 2 * 196_608) % 2);
                    assert(bytes@[k] == second[k]);
                    assert(w[196_608 + i] == self@.feature_bias[i]);
                } else if k < 394_776 {
                    let i = (k - 24 - 2 * 196_864) / 2;
                    assert((k - 24) / 2 == 196_864 + i);
                    assert((k - 24) % 2 == (k - 24 - 2 * 196_864) % 2);
                    assert(bytes@[k] == third[k]);
                    assert(w[196_864 + i] == self@.output_weights[i]);
                }
            }
            assert(bytes@ =~= e);
        }
        bytes
    }
}

proof fn lemma_i16_bytes(v: i16)
    ensures
        ({
            let u = i16_byte(v, 0) as int + 256 * i16_byte(v, 1) as int;
            (if u >= 0x8000 {
                u - 0x10000
            } else {
                u
            }) == v as int
        }),
{
    let lo = ((v as u16) & 0xFF) as u8;
    let hi = ((v as u16) >> 8u16) as u8;
    assert(i16_byte(v, 0) == lo);
    assert(i16_byte(v, 1) == hi);
    assert((((v as u16) & 0xFF) as u8) as int + 256 * (((v as u16) >> 8u16) as u8) as int == (v
        as u16) as int) by (bit_vector);
    assert((v as u16) as int >= 0x8000 ==> (v as u16) as int - 0x10000 == v as int) by (bit_vector);
    assert(((v as u16) as int) < 0x8000 ==> (v as u16) as int == v as int) by (bit_vector);
}

proof fn lemma_i32_bytes(v: i32)
    ensures
        ({
            let u = i32_byte(v, 0) as int + 0x100 * i32_byte(v, 1) as int + 0x10000 * i32_byte(v, 2)
                as int + 0x1000000 * i32_byte(v, 3) as int;
            (if u >= 0x8000_0000 {
                u - 0x1_0000_0000
            } else {
                u
            }) == v as int
        }),
{
    let u = v as u32;
    assert({
        let s = ((u & 0xFF) as u8) as int + 0x100 * (((u >> 8u32) & 0xFF) as u8) as int + 0x10000
            * (((u >> 16u32) & 0xFF) as u8) as int + 0x1000000 * (((u >> 24u32) & 0xFF) as u8) as int;
        s == u as int
    }) by (bit_vector);
    assert(((u as int) >= 0x8000_0000 ==> (u as int) - 0x1_0000_0000 == v as int) && ((u as int)
        < 0x8000_0000 ==> (u as int) == v as int)) by (bit_vector)
        requires
            u == v as u32,
    ;
}

proof fn lemma_header_field(n: NetParams, j: int, at: int)
    requires
        0 <= j < 5,
        at == 4 + 4 * j,
    ensures
        le_i32(encoded(n), at) == header_value(j),
{
    let b = encoded(n);
    assert((at - 4) / 4 == j && (at - 4) % 4 == 0);
    assert((at + 1 - 4) / 4 == j && (at + 1 - 4) % 4 == 1);
    assert((at + 2 - 4) / 4 == j && (at + 2 - 4) % 4 == 2);
    assert((at + 3 - 4) / 4 == j && (at + 3 - 4) % 4 == 3);
    assert(b[at] == i32_byte(header_value(j), 0));
    assert(b[at + 1] == i32_byte(header_value(j), 1));
    assert(b[at + 2] == i32_byte(header_value(j), 2));
    assert(b[at + 3] == i32_byte(header_value(j), 3));
    lemma_i32_bytes(header_value(j));
}

/// Serializing a network and reading the bytes back gives the same network.
pub proof fn law_bytes_round_trip(n: NetParams)
    requires
        well_shaped(n),
    ensures
        network_outcome(encoded(n)) == Ok::<NetParams, Seq<char>>(n),
{
    let b = encoded(n);
    let w = all_weights(n);
    assert(magic_ok(b));
    lemma_header_field(n, 0, 4);
    lemma_header_field(n, 1, 8);
    lemma_header_field(n, 2, 12);
    lemma_header_field(n, 3, 16);
    lemma_header_field(n, 4, 20);
    assert(header_mismatch(b) is None);
    assert forall|i: int| 0 <= i < 197_376 implies (#[trigger] le_i16(b, 24 + 2 * i)) == w[i] as int by {
        assert(b[24 + 2 * i] == i16_byte(w[i], 0));
        assert(b[24 + 2 * i + 1] == i16_byte(w[i], 1));
        lemma_i16_bytes(w[i]);
    }
    let d = decoded(b);
    assert forall|i: int| 0 <= i < FEATURE_WEIGHTS implies #[trigger] d.feature_weights[i]
        == n.feature_weights[i] by {
        assert(le_i16(b, 24 + 2 * i) == w[i] as int);
    }
    assert forall|i: int| 0 <= i < HIDDEN implies #[trigger] d.feature_bias[i] == n.feature_bias[i] by {
        assert(le_i16(b, 24 + 2 * (196_608 + i)) == w[196_608 + i] as int);
    }
    assert forall|i: int| 0 <= i < OUTPUT_WEIGHTS implies #[trigger] d.output_weights[i]
        == n.output_weights[i] by {
        assert(le_i16(b, 24 + 2 * (196_864 + i)) == w[196_864 + i] as int);
    }
    assert(b[394_776] == i32_byte(n.output_bias, 0));
    assert(b[394_777] == i32_byte(n.output_bias, 1));
    assert(b[394_778] == i32_byte(n.output_bias, 2));
    assert(b[394_779] == i32_byte(n.output_bias, 3));
    lemma_i32_bytes(n.output_bias);
    assert(d.feature_weights =~= n.feature_weights);
    assert(d.feature_bias =~= n.feature_bias);
    assert(d.output_weights =~= n.output_weights);
}

/// The column entry a piece on `s` contributes to unit `h`.
pub open spec fn term_of(n: NetParams, perspective: Color, pc: Piece, s: int, h: int) -> int {
    column(n, feature(perspective, pc.color, pc.piece_type, s), h)
}

/// The change `apply_move` makes to unit `h` of `perspective`'s accumulator
/// for `m` played on `p`: the victim's column out, the mover's column moved
/// (as the promoted piece when it promotes), and a castling rook's column moved.
pub open spec fn move_delta(n: NetParams, perspective: Color, p: Position, m: Move, h: int) -> int {
    let us = p.side;
    let them = us.opp();
    let from = m.from_sq();
    let to = m.to_sq();
    let flag = m.flag_of();
    let moving = p.squares[from]->0.piece_type;
    let victim = if flag == 5 {
        -term_of(n, perspective, Piece { color: them, piece_type: PieceType::Pawn }, ep_victim_square(us, to), h)
    } else if m.capture_spec() {
        -term_of(n, perspective, p.squares[to]->0, to, h)
    } else {
        0
    };
    let placed = match m.promotion_spec() {
        Some(promo) => promo,
        None => moving,
    };
    let mover = -term_of(n, perspective, Piece { color: us, piece_type: moving }, from, h) + term_of(
        n,
        perspective,
        Piece { color: us, piece_type: placed },
        to,
        h,
    );
    let rook = if flag == 2 || flag == 3 {
        let (rf, rt) = castle_rook(us, flag == 2);
        -term_of(n, perspective, Piece { color: us, piece_type: PieceType::Rook }, rf, h) + term_of(
            n,
            perspective,
            Piece { color: us, piece_type: PieceType::Rook },
            rt,
            h,
        )
    } else {
        0
    };
    victim + mover + rook
}

/// Changing one square changes the column sum by the difference of its terms.
proof fn lemma_columns_update(
    n: NetParams,
    perspective: Color,
    sq: Seq<Option<Piece>>,
    a: int,
    v: Option<Piece>,
    h: int,
    k: int,
)
    requires
        0 <= a < sq.len(),
        0 <= k <= sq.len(),
    ensures
        columns_sum(n, perspective, sq.update(a, v), h, k) == columns_sum(n, perspective, sq, h, k)
            + if a < k {
            piece_term(n, perspective, v, a, h) - piece_term(n, perspective, sq[a], a, h)
        } else {
            0
        },
    decreases k,
{
    if k > 0 {
        lemma_columns_update(n, perspective, sq, a, v, h, k - 1);
    }
}

/// The incremental update agrees with a full refresh: the accumulator of the
/// position after `m` is the accumulator before it plus `move_delta`.
pub proof fn law_incremental_matches_refresh(n: NetParams, perspective: Color, p: Position, m: Move)
    requires
        p.squares.len() == 64,
        move_applicable(p, m),
    ensures
        fresh_units(n, perspective, make_spec(p, m).squares) == Seq::new(
            256,
            |h: int| fresh_units(n, perspective, p.squares)[h] + move_delta(n, perspective, p, m, h),
        ),
{
    lemma_move_bounds(m);
    let us = p.side;
    let them = us.opp();
    let from = m.from_sq();
    let to = m.to_sq();
    let flag = m.flag_of();
    let moving = p.squares[from]->0.piece_type;
    let placed_kind = match m.promotion_spec() {
        Some(promo) => promo,
        None => moving,
    };
    let placed = Piece { color: us, piece_type: placed_kind };
    let ep = ep_victim_square(us, to);
    let s0 = p.squares;
    let s1 = if flag == 5 {
        s0.update(ep, None)
    } else {
        s0
    };
    let s1a = s1.update(from, None);
    let s2 = s1a.update(to, Some(placed));
    let (rf, rt) = castle_rook(us, flag == 2);
    let s3 = if flag == 2 || flag == 3 {
        s2.update(rf, None).update(rt, s2[rf])
    } else {
        s2
    };
    assert(make_spec(p, m).squares == s3);
    assert forall|h: int| 0 <= h < 256 implies #[trigger] columns_sum(n, perspective, s3, h, 64)
        == columns_sum(n, perspective, s0, h, 64) + move_delta(n, perspective, p, m, h) by {
        if flag == 5 {
            lemma_columns_update(n, perspective, s0, ep, None, h, 64);
            assert(from != ep);
            assert(to != ep);
        }
        lemma_columns_update(n, perspective, s1, from, None, h, 64);
        lemma_columns_update(n, perspective, s1a, to, Some(placed), h, 64);
        assert(s1[from] == s0[from]);
        assert(s1a[to] == s0[to]);
        if flag == 2 || flag == 3 {
            lemma_columns_update(n, perspective, s2, rf, None, h, 64);
            lemma_columns_update(n, perspective, s2.update(rf, None), rt, s2[rf], h, 64);
            assert(s2[rf] == s0[rf]);
            assert(s2.update(rf, None)[rt] == s0[rt]);
        }
    }
    assert(fresh_units(n, perspective, make_spec(p, m).squares) =~= Seq::new(
        256,
        |h: int| fresh_units(n, perspective, p.squares)[h] + move_delta(n, perspective, p, m, h),
    ));
}

/// Every unit lies within `b` of zero.
pub open spec fn within(units: Seq<int>, b: int) -> bool {
    forall|h: int| 0 <= h < units.len() ==> -b <= #[trigger] units[h] <= b
}

proof fn lemma_shift_within(units: Seq<int>, n: NetParams, f: int, sign: int, b: int)
    requires
        within(units, b),
        sign == 1 || sign == -1,
    ensures
        within(shifted(units, n, f, sign), b + 32768),
{
    assert forall|h: int| 0 <= h < units.len() implies -(b + 32768) <= #[trigger] shifted(
        units,
        n,
        f,
        sign,
    )[h] <= b + 32768 by {
        let w = n.feature_weights[f * 256 + h];
        assert(-32768 <= w <= 32767);
    }
}

proof fn lemma_within_room(units: Seq<int>, b: int)
    requires
        within(units, b),
        b <= 0x7FFF_7FFF,
    ensures
        unit_room(units),
{
}

impl Network {
    /// Update both accumulators for `mv`, mirroring `Board::make_move`'s piece
    /// changes — capture, en passant, promotion, and castling each shift the
    /// same pieces the board does, so a fresh accumulator of the board becomes
    /// the fresh accumulator of the position after the move. `board` is the
    /// position *before* `mv`.
    pub fn apply_move(&self, acc: &mut Accumulator, board: &Board, mv: Move)
        requires
            board.bits_ok(),
            move_applicable(board@, mv),
            within(old(acc).white_units(), 0x4000_0000),
            within(old(acc).black_units(), 0x4000_0000),
        ensures
            final(acc).white_units() == Seq::new(
                256,
                |h: int| old(acc).white_units()[h] + move_delta(self@, Color::White, board@, mv, h),
            ),
            final(acc).black_units() == Seq::new(
                256,
                |h: int| old(acc).black_units()[h] + move_delta(self@, Color::Black, board@, mv, h),
            ),
            old(acc).white_units() == fresh_units(self@, Color::White, board@.squares)
                ==> final(acc).white_units() == fresh_units(
                self@,
                Color::White,
                make_spec(board@, mv).squares,
            ),
            old(acc).black_units() == fresh_units(self@, Color::Black, board@.squares)
                ==> final(acc).black_units() == fresh_units(
                self@,
                Color::Black,
                make_spec(board@, mv).squares,
            ),
    {
        proof {
            lemma_move_bounds(mv);
        }
        let ghost n = self@;
        let ghost p = board@;
        let ghost w0 = acc.white_units();
        let ghost b0 = acc.black_units();
        let us = board.side_to_move();
        let them = us.opponent();
        let from = mv.from();
        let to = mv.to();
        let moving = board.piece_at(from).unwrap().piece_type;
        let ghost mut bound: int = 0x4000_0000;

        if mv.is_en_passant() {
            let captured = if us == Color::White {
                to - 8
            } else {
                to + 8
            };
            proof {
                lemma_within_room(acc.white_units(), bound);
                lemma_within_room(acc.black_units(), bound);
            }
            let ghost (w, b) = (acc.white_units(), acc.black_units());
            self.remove_piece(acc, them, PieceType::Pawn, captured);
            proof {
                lemma_shift_within(w, n, feature(Color::White, them, PieceType::Pawn, captured as int), -1, bound);
                lemma_shift_within(b, n, feature(Color::Black, them, PieceType::Pawn, captured as int), -1, bound);
                bound = bound + 32768;
            }
        } else if mv.is_capture() {
            let victim = board.piece_at(to).unwrap();
            proof {
                lemma_within_room(acc.white_units(), bound);
                lemma_within_room(acc.black_units(), bound);
            }
            let ghost (w, b) = (acc.white_units(), acc.black_units());
            self.remove_piece(acc, victim.color, victim.piece_type, to);
            proof {
                lemma_shift_within(w, n, feature(Color::White, victim.color, victim.piece_type, to as int), -1, bound);
                lemma_shift_within(b, n, feature(Color::Black, victim.color, victim.piece_type, to as int), -1, bound);
                bound = bound + 32768;
            }
        }
        let ghost w1 = acc.white_units();
        let ghost b1 = acc.black_units();

        let placed = match mv.promotion() {
            Some(promotion) => promotion,
            None => moving,
        };
        proof {
            lemma_within_room(acc.white_units(), bound);
            lemma_within_room(acc.black_units(), bound);
        }
        let ghost (w, b) = (acc.white_units(), acc.black_units());
        self.remove_piece(acc, us, moving, from);
        proof {
            lemma_shift_within(w, n, feature(Color::White, us, moving, from as int), -1, bound);
            lemma_shift_within(b, n, feature(Color::Black, us, moving, from as int), -1, bound);
            bound = bound + 32768;
            lemma_within_room(acc.white_units(), bound);
            lemma_within_room(acc.black_units(), bound);
        }
        let ghost (w, b) = (acc.white_units(), acc.black_units());
        self.add_piece(acc, us, placed, to);
        proof {
            lemma_shift_within(w, n, feature(Color::White, us, placed, to as int), 1, bound);
            lemma_shift_within(b, n, feature(Color::Black, us, placed, to as int), 1, bound);
            bound = bound + 32768;
        }
        let ghost w2 = acc.white_units();
        let ghost b2 = acc.black_units();

        if mv.is_king_castle() || mv.is_queen_castle() {
            let (rook_from, rook_to): (u8, u8) = if mv.is_king_castle() {
                if us == Color::White {
                    (7, 5)
                } else {
                    (63, 61)
                }
            } else {
                if us == Color::White {
                    (0, 3)
                } else {
                    (56, 59)
                }
            };
            proof {
                lemma_within_room(acc.white_units(), bound);
                lemma_within_room(acc.black_units(), bound);
            }
            let ghost (w, b) = (acc.white_units(), acc.black_units());
            self.remove_piece(acc, us, PieceType::Rook, rook_from);
            proof {
                lemma_shift_within(w, n, feature(Color::White, us, PieceType::Rook, rook_from as int), -1, bound);
                lemma_shift_within(b, n, feature(Color::Black, us, PieceType::Rook, rook_from as int), -1, bound);
                bound = bound + 32768;
                lemma_within_room(acc.white_units(), bound);
                lemma_within_room(acc.black_units(), bound);
            }
            self.add_piece(acc, us, PieceType::Rook, rook_to);
        }
        proof {
            assert(acc.white_units() =~= Seq::new(
                256,
                |h: int| w0[h] + move_delta(n, Color::White, p, mv, h),
            ));
            assert(acc.black_units() =~= Seq::new(
                256,
                |h: int| b0[h] + move_delta(n, Color::Black, p, mv, h),
            ));
            law_incremental_matches_refresh(n, Color::White, p, mv);
            law_incremental_matches_refresh(n, Color::Black, p, mv);
        }
    }
}

} // verus!
