//! The evaluation is antisymmetric: the board seen from the other side, ranks
//! flipped and colors swapped, evaluates to the negated score.
use vstd::prelude::*;

use super::{
    div_toward_zero, evaluation, kind_material, kind_mobility, kind_pressure, king_safety_score,
    kinds_sum, material_score, material_term, mobility_score, mobility_weight, on, phase_of,
    phase_value, reach, ring_hits, ring_weight, shield_square, side_material, side_mobility,
    side_phase, side_safety, sign, square_value, tapered_value, PHASE_MAX,
};
use crate::attacks::{
    abs, bishop_attack, forward, king_target, occupied_in, on_board, piece_attacks, ray_hits,
    rook_attack,
};
use crate::board::{mirrored, Position};
use crate::movegen::{
    color_at, holds, king_square_of, lemma_first_piece, lemma_first_piece_holds, one_king,
};
use crate::sums::{count_where, lemma_sum_flip, lemma_sum_neg, sum_where};
use crate::types::{flip_square, lemma_flip_square, piece_type_of_index, Color, Piece, PieceType};

verus! {

/// A ray walked on the board seen from the other side: same file steps,
/// reversed rank steps, through the flipped occupancy.
proof fn lemma_ray_flip(
    f: int,
    r: int,
    df: int,
    dr: int,
    occ: spec_fn(int) -> bool,
    flipped: spec_fn(int) -> bool,
    t: int,
    n: nat,
)
    requires
        0 <= f < 8,
        0 <= r < 8,
        0 <= t < 64,
        forall|y: int| 0 <= y < 64 ==> #[trigger] flipped(y) == occ(flip_square(y)),
    ensures
        ray_hits(f, r, df, dr, flipped, t, n) == ray_hits(f, 7 - r, df, -dr, occ, flip_square(t), n),
    decreases n,
{
    lemma_flip_square(t);
    if n > 0 {
        let nf = f + df;
        let nr = r + dr;
        if on_board(nf, nr) {
            let y = nr * 8 + nf;
            assert(y / 8 == nr && y % 8 == nf);
            lemma_flip_square(y);
            assert(flip_square(y) == (7 - nr) * 8 + nf);
            assert((t == y) == (flip_square(t) == flip_square(y)));
            assert(flipped(y) == occ(flip_square(y)));
            lemma_ray_flip(nf, nr, df, dr, occ, flipped, t, (n - 1) as nat);
            assert(7 - r + -dr == 7 - nr);
        } else {
            assert(!on_board(nf, 7 - r + -dr));
        }
    }
}

/// A piece attacks the same squares on the board seen from the other side,
/// with its color swapped.
proof fn lemma_piece_attacks_flip(
    pc: Piece,
    s: int,
    occ: spec_fn(int) -> bool,
    flipped: spec_fn(int) -> bool,
    t: int,
)
    requires
        0 <= s < 64,
        0 <= t < 64,
        forall|y: int| 0 <= y < 64 ==> #[trigger] flipped(y) == occ(flip_square(y)),
    ensures
        piece_attacks(Piece { color: pc.color.opp(), piece_type: pc.piece_type }, s, flipped, t)
            == piece_attacks(pc, flip_square(s), occ, flip_square(t)),
{
    lemma_flip_square(s);
    lemma_flip_square(t);
    let fs = flip_square(s);
    let ft = flip_square(t);
    let (f, r) = (s % 8, s / 8);
    assert(fs % 8 == f && fs / 8 == 7 - r);
    assert(ft % 8 == t % 8 && ft / 8 == 7 - t / 8);
    lemma_ray_flip(f, r, 1, 0, occ, flipped, t, 7);
    lemma_ray_flip(f, r, -1, 0, occ, flipped, t, 7);
    lemma_ray_flip(f, r, 0, 1, occ, flipped, t, 7);
    lemma_ray_flip(f, r, 0, -1, occ, flipped, t, 7);
    lemma_ray_flip(f, r, 1, 1, occ, flipped, t, 7);
    lemma_ray_flip(f, r, 1, -1, occ, flipped, t, 7);
    lemma_ray_flip(f, r, -1, 1, occ, flipped, t, 7);
    lemma_ray_flip(f, r, -1, -1, occ, flipped, t, 7);
    assert(rook_attack(s, flipped, t) == rook_attack(fs, occ, ft));
    assert(bishop_attack(s, flipped, t) == bishop_attack(fs, occ, ft));
    assert(abs(ft / 8 - fs / 8) == abs(t / 8 - s / 8));
    assert(forward(pc.color.opp()) == -forward(pc.color));
}

/// `q`'s squares are `p`'s seen from the other side.
pub open spec fn mirror_of(q: Position, p: Position) -> bool {
    &&& p.squares.len() == 64
    &&& q.squares == mirrored(p.squares)
}

/// What stands on a square of the mirror stands, color swapped, on the
/// flipped square of the board it mirrors.
proof fn lemma_mirror_squares(q: Position, p: Position)
    requires
        mirror_of(q, p),
    ensures
        q.squares.len() == 64,
        forall|x: int, c: Color, t: PieceType|
            0 <= x < 64 ==> #[trigger] holds(q, x, c, t) == holds(p, flip_square(x), c.opp(), t),
        forall|x: int, c: Color|
            0 <= x < 64 ==> #[trigger] color_at(q, x, c) == color_at(p, flip_square(x), c.opp()),
        forall|y: int| 0 <= y < 64 ==> #[trigger] occupied_in(q)(y) == occupied_in(p)(flip_square(y)),
{
    assert forall|x: int, c: Color, t: PieceType|
        0 <= x < 64 implies #[trigger] holds(q, x, c, t) == holds(p, flip_square(x), c.opp(), t) by {
        lemma_flip_square(x);
        assert(c.opp().opp() == c);
        if let Some(pc) = p.squares[flip_square(x)] {
            assert(pc.color.opp() == c <==> pc.color == c.opp());
        }
    }
    assert forall|x: int, c: Color|
        0 <= x < 64 implies #[trigger] color_at(q, x, c) == color_at(p, flip_square(x), c.opp()) by {
        lemma_flip_square(x);
        if let Some(pc) = p.squares[flip_square(x)] {
            assert(pc.color.opp() == c <==> pc.color == c.opp());
        }
    }
    assert forall|y: int| 0 <= y < 64 implies #[trigger] occupied_in(q)(y) == occupied_in(p)(
        flip_square(y),
    ) by {
        lemma_flip_square(y);
    }
}

/// A sum over the six piece kinds, written out.
proof fn lemma_kinds_six(f: spec_fn(PieceType) -> int)
    ensures
        kinds_sum(f, 6) == f(PieceType::Pawn) + f(PieceType::Knight) + f(PieceType::Bishop) + f(
            PieceType::Rook,
        ) + f(PieceType::Queen) + f(PieceType::King),
{
    assert(kinds_sum(f, 0) == 0);
    assert(piece_type_of_index(0) == PieceType::Pawn);
    assert(piece_type_of_index(1) == PieceType::Knight);
    assert(piece_type_of_index(2) == PieceType::Bishop);
    assert(piece_type_of_index(3) == PieceType::Rook);
    assert(piece_type_of_index(4) == PieceType::Queen);
    assert(piece_type_of_index(5) == PieceType::King);
    assert(kinds_sum(f, 1) == f(PieceType::Pawn));
    assert(kinds_sum(f, 2) == kinds_sum(f, 1) + f(PieceType::Knight));
    assert(kinds_sum(f, 3) == kinds_sum(f, 2) + f(PieceType::Bishop));
    assert(kinds_sum(f, 4) == kinds_sum(f, 3) + f(PieceType::Rook));
    assert(kinds_sum(f, 5) == kinds_sum(f, 4) + f(PieceType::Queen));
    assert(kinds_sum(f, 6) == kinds_sum(f, 5) + f(PieceType::King));
}

/// A piece's bonus on a square is the other color's bonus on the flipped
/// square.
proof fn lemma_square_value_flip(mg: bool, c: Color, t: PieceType, s: int)
    requires
        0 <= s < 64,
    ensures
        square_value(mg, c, t, s) == square_value(mg, c.opp(), t, flip_square(s)),
{
    lemma_flip_square(s);
    lemma_flip_square(flip_square(s));
}

/// The mirror's material of one kind and color is the negated material of
/// the other color's pieces of that kind.
proof fn lemma_kind_material(q: Position, p: Position, mg: bool, c: Color, t: PieceType)
    requires
        mirror_of(q, p),
    ensures
        kind_material(q, mg, c, t) == -kind_material(p, mg, c.opp(), t),
{
    lemma_mirror_squares(q, p);
    let f1 = |s: int| material_term(mg, c.opp(), t, s);
    let g1 = |s: int| -material_term(mg, c.opp(), t, s);
    let f2 = |s: int| material_term(mg, c, t, s);
    assert forall|s: int| 0 <= s < 64 implies #[trigger] on(q, c, t)(s) == on(p, c.opp(), t)(
        flip_square(s),
    ) by {
        assert(holds(q, s, c, t) == holds(p, flip_square(s), c.opp(), t));
    }
    assert forall|s: int| 0 <= s < 64 && #[trigger] on(q, c, t)(s) implies f2(s) == g1(
        flip_square(s),
    ) by {
        lemma_square_value_flip(mg, c, t, s);
    }
    lemma_sum_flip(on(p, c.opp(), t), g1, on(q, c, t), f2);
    lemma_sum_neg(on(p, c.opp(), t), f1, g1, 64);
}

/// The mirror's material of one color is the negated material of the other.
proof fn lemma_side_material(q: Position, p: Position, mg: bool, c: Color)
    requires
        mirror_of(q, p),
    ensures
        side_material(q, mg, c) == -side_material(p, mg, c.opp()),
{
    lemma_kind_material(q, p, mg, c, PieceType::Pawn);
    lemma_kind_material(q, p, mg, c, PieceType::Knight);
    lemma_kind_material(q, p, mg, c, PieceType::Bishop);
    lemma_kind_material(q, p, mg, c, PieceType::Rook);
    lemma_kind_material(q, p, mg, c, PieceType::Queen);
    lemma_kind_material(q, p, mg, c, PieceType::King);
    lemma_kinds_six(|t: PieceType| kind_material(q, mg, c, t));
    lemma_kinds_six(|t: PieceType| kind_material(p, mg, c.opp(), t));
}

/// The mirror counts as many pieces of a kind and color as the board it mirrors
/// counts of the other color.
proof fn lemma_count_on(q: Position, p: Position, c: Color, t: PieceType)
    requires
        mirror_of(q, p),
    ensures
        count_where(on(q, c, t), 64) == count_where(on(p, c.opp(), t), 64),
{
    lemma_mirror_squares(q, p);
    assert forall|s: int| 0 <= s < 64 implies #[trigger] on(q, c, t)(s) == on(p, c.opp(), t)(
        flip_square(s),
    ) by {
        assert(holds(q, s, c, t) == holds(p, flip_square(s), c.opp(), t));
    }
    lemma_sum_flip(on(p, c.opp(), t), |s: int| 1int, on(q, c, t), |s: int| 1int);
}

/// The mirror's phase weight of one color is the other color's.
proof fn lemma_side_phase(q: Position, p: Position, c: Color)
    requires
        mirror_of(q, p),
    ensures
        side_phase(q, c) == side_phase(p, c.opp()),
{
    lemma_count_on(q, p, c, PieceType::Pawn);
    lemma_count_on(q, p, c, PieceType::Knight);
    lemma_count_on(q, p, c, PieceType::Bishop);
    lemma_count_on(q, p, c, PieceType::Rook);
    lemma_count_on(q, p, c, PieceType::Queen);
    lemma_count_on(q, p, c, PieceType::King);
    lemma_kinds_six(|t: PieceType| count_where(on(q, c, t), 64) * phase_value(t));
    lemma_kinds_six(|t: PieceType| count_where(on(p, c.opp(), t), 64) * phase_value(t));
}

/// The mirror is in the same game phase.
proof fn lemma_phase(q: Position, p: Position)
    requires
        mirror_of(q, p),
    ensures
        phase_of(q) == phase_of(p),
{
    lemma_side_phase(q, p, Color::White);
    lemma_side_phase(q, p, Color::Black);
}

/// A piece of the mirror reaches as many squares as the color-swapped piece
/// on the flipped square of the board it mirrors.
proof fn lemma_reach(q: Position, p: Position, c: Color, t: PieceType, s: int)
    requires
        mirror_of(q, p),
        0 <= s < 64,
    ensures
        reach(q, c, t, s) == reach(p, c.opp(), t, flip_square(s)),
{
    lemma_mirror_squares(q, p);
    lemma_flip_square(s);
    let pc = Piece { color: c.opp(), piece_type: t };
    assert(Piece { color: pc.color.opp(), piece_type: pc.piece_type } == Piece { color: c, piece_type: t });
    let pq = |x: int|
        piece_attacks(Piece { color: c, piece_type: t }, s, occupied_in(q), x) && !color_at(q, x, c);
    let pp = |x: int|
        piece_attacks(pc, flip_square(s), occupied_in(p), x) && !color_at(p, x, c.opp());
    assert forall|x: int| 0 <= x < 64 implies #[trigger] pq(x) == pp(flip_square(x)) by {
        lemma_piece_attacks_flip(pc, s, occupied_in(p), occupied_in(q), x);
    }
    lemma_sum_flip(pp, |x: int| 1int, pq, |x: int| 1int);
}

/// The mirror's mobility of one kind and color is the negated mobility of
/// the other color's pieces of that kind.
proof fn lemma_kind_mobility(q: Position, p: Position, mg: bool, c: Color, t: PieceType)
    requires
        mirror_of(q, p),
    ensures
        kind_mobility(q, mg, c, t) == -kind_mobility(p, mg, c.opp(), t),
{
    lemma_mirror_squares(q, p);
    let w = mobility_weight(mg, t);
    let f1 = |s: int| reach(p, c.opp(), t, s) * w * sign(c.opp());
    let g1 = |s: int| -(reach(p, c.opp(), t, s) * w * sign(c.opp()));
    let f2 = |s: int| reach(q, c, t, s) * w * sign(c);
    assert forall|s: int| 0 <= s < 64 implies #[trigger] on(q, c, t)(s) == on(p, c.opp(), t)(
        flip_square(s),
    ) by {
        assert(holds(q, s, c, t) == holds(p, flip_square(s), c.opp(), t));
    }
    assert forall|s: int| 0 <= s < 64 && #[trigger] on(q, c, t)(s) implies f2(s) == g1(
        flip_square(s),
    ) by {
        lemma_reach(q, p, c, t, s);
        let r = reach(p, c.opp(), t, flip_square(s));
        if c == Color::White {
            assert(r * w * 1 == -(r * w * -1)) by (nonlinear_arith);
        } else {
            assert(r * w * -1 == -(r * w * 1)) by (nonlinear_arith);
        }
    }
    lemma_sum_flip(on(p, c.opp(), t), g1, on(q, c, t), f2);
    lemma_sum_neg(on(p, c.opp(), t), f1, g1, 64);
}

/// The mirror's mobility of one color is the negated mobility of the other.
proof fn lemma_side_mobility(q: Position, p: Position, mg: bool, c: Color)
    requires
        mirror_of(q, p),
    ensures
        side_mobility(q, mg, c) == -side_mobility(p, mg, c.opp()),
{
    lemma_kind_mobility(q, p, mg, c, PieceType::Knight);
    lemma_kind_mobility(q, p, mg, c, PieceType::Bishop);
    lemma_kind_mobility(q, p, mg, c, PieceType::Rook);
    lemma_kind_mobility(q, p, mg, c, PieceType::Queen);
}

/// The mirror's mobility is the negated mobility.
proof fn lemma_mobility(q: Position, p: Position, mg: bool)
    requires
        mirror_of(q, p),
    ensures
        mobility_score(q, mg) == -mobility_score(p, mg),
{
    lemma_side_mobility(q, p, mg, Color::White);
    lemma_side_mobility(q, p, mg, Color::Black);
}

/// The mirror's material is the negated material.
proof fn lemma_material(q: Position, p: Position, mg: bool)
    requires
        mirror_of(q, p),
    ensures
        material_score(q, mg) == -material_score(p, mg),
{
    lemma_side_material(q, p, mg, Color::White);
    lemma_side_material(q, p, mg, Color::Black);
}

/// The mirror's king of a color stands on the flipped square of the other
/// color's king.
proof fn lemma_king_square(q: Position, p: Position, c: Color)
    requires
        mirror_of(q, p),
        one_king(p, c.opp()),
    ensures
        king_square_of(q, c) == flip_square(king_square_of(p, c.opp())),
        one_king(q, c),
{
    lemma_mirror_squares(q, p);
    let k = king_square_of(p, c.opp());
    lemma_first_piece_holds(p, c.opp(), PieceType::King, 0);
    lemma_flip_square(k);
    let r = flip_square(k);
    assert forall|x: int| 0 <= x < r implies !#[trigger] holds(q, x, c, PieceType::King) by {
        lemma_flip_square(x);
        if holds(q, x, c, PieceType::King) {
            assert(holds(p, flip_square(x), c.opp(), PieceType::King));
        }
    }
    lemma_first_piece_holds(p, c.opp(), PieceType::King, 0);
    assert(holds(q, r, c, PieceType::King));
    lemma_first_piece(q, c, PieceType::King, 0, r);
    assert forall|x: int| #[trigger] holds(q, x, c, PieceType::King) implies x == king_square_of(q, c) by {
        lemma_flip_square(x);
        assert(holds(p, flip_square(x), c.opp(), PieceType::King));
    }
}

/// The pieces of one color and kind press on a king ring of the mirror as
/// the color-swapped pieces press on the flipped ring of the board it mirrors.
proof fn lemma_kind_pressure(q: Position, p: Position, a: Color, t: PieceType, kq: int, kp: int)
    requires
        mirror_of(q, p),
        0 <= kp < 64,
        kq == flip_square(kp),
    ensures
        kind_pressure(q, a, t, |x: int| king_target(kq, x)) == kind_pressure(
            p,
            a.opp(),
            t,
            |x: int| king_target(kp, x),
        ),
{
    lemma_mirror_squares(q, p);
    lemma_flip_square(kp);
    let ring_q = |x: int| king_target(kq, x);
    let ring_p = |x: int| king_target(kp, x);
    let f1 = |s: int| ring_hits(p, a.opp(), t, s, ring_p) * ring_weight(t);
    let f2 = |s: int| ring_hits(q, a, t, s, ring_q) * ring_weight(t);
    assert forall|s: int| 0 <= s < 64 implies #[trigger] on(q, a, t)(s) == on(p, a.opp(), t)(
        flip_square(s),
    ) by {
        assert(holds(q, s, a, t) == holds(p, flip_square(s), a.opp(), t));
    }
    assert forall|s: int| 0 <= s < 64 && #[trigger] on(q, a, t)(s) implies f2(s) == f1(
        flip_square(s),
    ) by {
        lemma_flip_square(s);
        let pc = Piece { color: a.opp(), piece_type: t };
        assert(Piece { color: pc.color.opp(), piece_type: pc.piece_type } == Piece {
            color: a,
            piece_type: t,
        });
        let pq = |x: int| piece_attacks(Piece { color: a, piece_type: t }, s, occupied_in(q), x) && ring_q(x);
        let pp = |x: int| piece_attacks(pc, flip_square(s), occupied_in(p), x) && ring_p(x);
        assert forall|x: int| 0 <= x < 64 implies #[trigger] pq(x) == pp(flip_square(x)) by {
            lemma_piece_attacks_flip(pc, s, occupied_in(p), occupied_in(q), x);
            lemma_flip_square(x);
            assert(king_target(kq, x) == king_target(kp, flip_square(x)));
        }
        lemma_sum_flip(pp, |x: int| 1int, pq, |x: int| 1int);
    }
    lemma_sum_flip(on(p, a.opp(), t), f1, on(q, a, t), f2);
}

/// A king of the mirror is as safe as the color-swapped king of the board it mirrors.
proof fn lemma_side_safety(q: Position, p: Position, c: Color)
    requires
        mirror_of(q, p),
        one_king(p, c.opp()),
    ensures
        side_safety(q, c) == side_safety(p, c.opp()),
{
    lemma_mirror_squares(q, p);
    lemma_king_square(q, p, c);
    let kp = king_square_of(p, c.opp());
    let kq = king_square_of(q, c);
    lemma_flip_square(kp);
    let sq_q = |x: int| shield_square(c, kq, x) && holds(q, x, c, PieceType::Pawn);
    let sq_p = |x: int| shield_square(c.opp(), kp, x) && holds(p, x, c.opp(), PieceType::Pawn);
    assert forall|x: int| 0 <= x < 64 implies #[trigger] sq_q(x) == sq_p(flip_square(x)) by {
        lemma_flip_square(x);
        assert(crate::attacks::forward(c) == -crate::attacks::forward(c.opp()));
        assert(holds(q, x, c, PieceType::Pawn) == holds(p, flip_square(x), c.opp(), PieceType::Pawn));
    }
    lemma_sum_flip(sq_p, |x: int| 1int, sq_q, |x: int| 1int);
    lemma_kind_pressure(q, p, c.opp(), PieceType::Pawn, kq, kp);
    lemma_kind_pressure(q, p, c.opp(), PieceType::Knight, kq, kp);
    lemma_kind_pressure(q, p, c.opp(), PieceType::Bishop, kq, kp);
    lemma_kind_pressure(q, p, c.opp(), PieceType::Rook, kq, kp);
    lemma_kind_pressure(q, p, c.opp(), PieceType::Queen, kq, kp);
    lemma_kind_pressure(q, p, c.opp(), PieceType::King, kq, kp);
    assert(c.opp().opp() == c);
    lemma_kinds_six(|t: PieceType| kind_pressure(q, c.opp(), t, |x: int| king_target(kq, x)));
    lemma_kinds_six(|t: PieceType| kind_pressure(p, c, t, |x: int| king_target(kp, x)));
}

/// Blending negated scores gives the negated blend.
proof fn lemma_tapered_neg(mg: int, eg: int, phase: int)
    ensures
        tapered_value(-mg, -eg, phase) == -tapered_value(mg, eg, phase),
{
    assert((-mg) * phase + (-eg) * (PHASE_MAX - phase) == -(mg * phase + eg * (PHASE_MAX - phase)))
        by (nonlinear_arith);
}

/// The board seen from the other side — ranks flipped, colors swapped —
/// evaluates to the negated score, when each side has exactly one king.
pub proof fn law_mirror_negates_evaluation(p: Position, q: Position)
    requires
        p.squares.len() == 64,
        one_king(p, Color::White),
        one_king(p, Color::Black),
        q.squares == mirrored(p.squares),
    ensures
        evaluation(q) == -evaluation(p),
{
    lemma_material(q, p, true);
    lemma_material(q, p, false);
    lemma_mobility(q, p, true);
    lemma_mobility(q, p, false);
    lemma_phase(q, p);
    lemma_side_safety(q, p, Color::White);
    lemma_side_safety(q, p, Color::Black);
    lemma_tapered_neg(
        material_score(p, true) + king_safety_score(p) + mobility_score(p, true),
        material_score(p, false) + mobility_score(p, false),
        phase_of(p),
    );
}

} // verus!
