//! Attack generation: the squares each kind of piece attacks from a square.
//!
//! Leapers (knight, king, pawn) attack fixed offsets that stay on the board;
//! sliders (bishop, rook, queen) attack along rays up to and including the
//! first occupied square. Everything is computed on demand from the square
//! and the occupancy; the precomputed tables in `magic` are proved to give
//! the same sets.
use vstd::prelude::*;

use crate::board::{Board, Position};
use crate::types::{
    file_of, group_bitboard, in_bb, lemma_empty_iff_zero, make_square, rank_of, square_bb,
    Bitboard, Color, Piece, PieceType, Square,
};

verus! {

broadcast use group_bitboard;

pub open spec fn on_board(f: int, r: int) -> bool {
    0 <= f < 8 && 0 <= r < 8
}

/// The squares of a bitboard, as a predicate.
pub open spec fn bits(b: u64) -> spec_fn(int) -> bool {
    |s: int| in_bb(b, s)
}

pub open spec fn abs(x: int) -> int {
    if x < 0 {
        -x
    } else {
        x
    }
}

/// A knight on `s` attacks `t`.
pub open spec fn knight_target(s: int, t: int) -> bool {
    let df = abs(t % 8 - s % 8);
    let dr = abs(t / 8 - s / 8);
    0 <= s < 64 && 0 <= t < 64 && ((df == 1 && dr == 2) || (df == 2 && dr == 1))
}

/// A king on `s` attacks `t`.
pub open spec fn king_target(s: int, t: int) -> bool {
    let df = abs(t % 8 - s % 8);
    let dr = abs(t / 8 - s / 8);
    0 <= s < 64 && 0 <= t < 64 && df <= 1 && dr <= 1 && (df == 1 || dr == 1)
}

/// The rank direction a pawn of `color` advances in.
pub open spec fn forward(color: Color) -> int {
    match color {
        Color::White => 1,
        Color::Black => -1,
    }
}

/// A pawn of `color` on `s` attacks `t` (one file aside, one rank forward).
pub open spec fn pawn_target(color: Color, s: int, t: int) -> bool {
    0 <= s < 64 && 0 <= t < 64 && abs(t % 8 - s % 8) == 1 && t / 8 - s / 8 == forward(color)
}

/// Walking from (f, r) in direction (df, dr) for at most `n` steps, the walk
/// reaches `t` before or at the first occupied square.
pub open spec fn ray_hits(
    f: int,
    r: int,
    df: int,
    dr: int,
    occ: spec_fn(int) -> bool,
    t: int,
    n: nat,
) -> bool
    decreases n,
{
    if n == 0 {
        false
    } else {
        let nf = f + df;
        let nr = r + dr;
        if !on_board(nf, nr) {
            false
        } else if t == nr * 8 + nf {
            true
        } else if occ(nr * 8 + nf) {
            false
        } else {
            ray_hits(nf, nr, df, dr, occ, t, (n - 1) as nat)
        }
    }
}

/// The ray from `s` in direction (df, dr) reaches `t` unobstructed.
pub open spec fn ray_attack(s: int, df: int, dr: int, occ: spec_fn(int) -> bool, t: int) -> bool {
    ray_hits(s % 8, s / 8, df, dr, occ, t, 7)
}

/// A rook on `s` attacks `t` under occupancy `occ`.
pub open spec fn rook_attack(s: int, occ: spec_fn(int) -> bool, t: int) -> bool {
    ray_attack(s, 1, 0, occ, t) || ray_attack(s, -1, 0, occ, t) || ray_attack(s, 0, 1, occ, t)
        || ray_attack(s, 0, -1, occ, t)
}

/// A bishop on `s` attacks `t` under occupancy `occ`.
pub open spec fn bishop_attack(s: int, occ: spec_fn(int) -> bool, t: int) -> bool {
    ray_attack(s, 1, 1, occ, t) || ray_attack(s, 1, -1, occ, t) || ray_attack(s, -1, 1, occ, t)
        || ray_attack(s, -1, -1, occ, t)
}

/// A ray never leaves the board.
pub proof fn lemma_ray_on_board(
    f: int,
    r: int,
    df: int,
    dr: int,
    occ: spec_fn(int) -> bool,
    t: int,
    n: nat,
)
    requires
        ray_hits(f, r, df, dr, occ, t, n),
    ensures
        0 <= t < 64,
    decreases n,
{
    if n > 0 {
        let nf = f + df;
        let nr = r + dr;
        if on_board(nf, nr) && t != nr * 8 + nf && !occ(nr * 8 + nf) {
            lemma_ray_on_board(nf, nr, df, dr, occ, t, (n - 1) as nat);
        }
    }
}

/// `x` moved `k` steps in direction `d` (each of -1, 0, 1).
pub open spec fn step(x: int, d: int, k: int) -> int {
    if d == 1 {
        x + k
    } else if d == -1 {
        x - k
    } else {
        x
    }
}

/// The square `k` steps from (f, r) in direction (df, dr).
pub open spec fn ray_square(f: int, r: int, df: int, dr: int, k: int) -> int {
    step(r, dr, k) * 8 + step(f, df, k)
}

/// The walk from (f, r) reaches `t` after exactly `k` steps, every square
/// before it being empty.
pub open spec fn reaches_in(
    f: int,
    r: int,
    df: int,
    dr: int,
    occ: spec_fn(int) -> bool,
    t: int,
    k: int,
) -> bool {
    &&& 1 <= k
    &&& on_board(step(f, df, k), step(r, dr, k))
    &&& t == ray_square(f, r, df, dr, k)
    &&& forall|j: int| 1 <= j < k ==> !occ(#[trigger] ray_square(f, r, df, dr, j))
}

pub open spec fn unit(d: int) -> bool {
    d == -1 || d == 0 || d == 1
}

/// The walking definition of a ray agrees with the closed form.
pub proof fn lemma_ray_closed_form(
    f: int,
    r: int,
    df: int,
    dr: int,
    occ: spec_fn(int) -> bool,
    t: int,
    n: nat,
)
    requires
        on_board(f, r),
        unit(df),
        unit(dr),
        !(df == 0 && dr == 0),
    ensures
        ray_hits(f, r, df, dr, occ, t, n) == exists|k: int|
            k <= n && #[trigger] reaches_in(f, r, df, dr, occ, t, k),
    decreases n,
{
    if n == 0 {
        assert forall|k: int| !(k <= n && #[trigger] reaches_in(f, r, df, dr, occ, t, k)) by {}
    } else {
        let nf = f + df;
        let nr = r + dr;
        assert(step(f, df, 1) == nf && step(r, dr, 1) == nr);
        if !on_board(nf, nr) {
            assert forall|k: int| !(k <= n && #[trigger] reaches_in(f, r, df, dr, occ, t, k)) by {
                if 1 <= k {
                    assert(!on_board(step(f, df, k), step(r, dr, k)));
                }
            }
        } else if t == nr * 8 + nf {
            assert(reaches_in(f, r, df, dr, occ, t, 1));
        } else if occ(nr * 8 + nf) {
            assert forall|k: int| !(k <= n && #[trigger] reaches_in(f, r, df, dr, occ, t, k)) by {
                if k > 1 && reaches_in(f, r, df, dr, occ, t, k) {
                    assert(!occ(ray_square(f, r, df, dr, 1)));
                }
            }
        } else {
            lemma_ray_closed_form(nf, nr, df, dr, occ, t, (n - 1) as nat);
            if ray_hits(nf, nr, df, dr, occ, t, (n - 1) as nat) {
                let k = choose|k: int|
                    k <= n - 1 && #[trigger] reaches_in(nf, nr, df, dr, occ, t, k);
                assert forall|j: int| 1 <= j < k + 1 implies !occ(
                    #[trigger] ray_square(f, r, df, dr, j),
                ) by {
                    if j > 1 {
                        assert(ray_square(f, r, df, dr, j) == ray_square(nf, nr, df, dr, j - 1));
                    }
                }
                assert(reaches_in(f, r, df, dr, occ, t, k + 1));
            } else {
                assert forall|k: int| !(k <= n && #[trigger] reaches_in(f, r, df, dr, occ, t, k)) by {
                    if k <= n && reaches_in(f, r, df, dr, occ, t, k) {
                        assert(k != 1);
                        assert forall|j: int| 1 <= j < k - 1 implies !occ(
                            #[trigger] ray_square(nf, nr, df, dr, j),
                        ) by {
                            assert(ray_square(nf, nr, df, dr, j) == ray_square(f, r, df, dr, j + 1));
                        }
                        assert(reaches_in(nf, nr, df, dr, occ, t, k - 1));
                    }
                }
            }
        }
    }
}

/// Line of sight is symmetric: if the ray from `a` in direction (df, dr)
/// reaches `b`, the ray from `b` in the opposite direction reaches `a`.
pub proof fn lemma_ray_symmetric(a: int, b: int, df: int, dr: int, occ: spec_fn(int) -> bool)
    requires
        0 <= a < 64,
        unit(df),
        unit(dr),
        !(df == 0 && dr == 0),
        ray_attack(a, df, dr, occ, b),
    ensures
        ray_attack(b, -df, -dr, occ, a),
{
    lemma_ray_closed_form(a % 8, a / 8, df, dr, occ, b, 7);
    let k = choose|k: int| k <= 7 && #[trigger] reaches_in(a % 8, a / 8, df, dr, occ, b, k);
    assert(0 <= b < 64);
    assert(b % 8 == step(a % 8, df, k) && b / 8 == step(a / 8, dr, k));
    assert forall|j: int| 1 <= j < k implies !occ(
        #[trigger] ray_square(b % 8, b / 8, -df, -dr, j),
    ) by {
        assert(ray_square(b % 8, b / 8, -df, -dr, j) == ray_square(a % 8, a / 8, df, dr, k - j));
    }
    assert(reaches_in(b % 8, b / 8, -df, -dr, occ, a, k));
    lemma_ray_closed_form(b % 8, b / 8, -df, -dr, occ, a, 7);
}

/// The bit of the square `delta` away from (file, rank), or nothing if off the board.
pub fn offset_bit(file: i8, rank: i8, df: i8, dr: i8) -> (r: Bitboard)
    requires
        0 <= file < 8,
        0 <= rank < 8,
        -2 <= df <= 2,
        -2 <= dr <= 2,
    ensures
        forall|t: int| #[trigger]
            in_bb(r, t) == (on_board(file + df, rank + dr) && t == (rank + dr) * 8 + file + df),
{
    let nf = file + df;
    let nr = rank + dr;
    if 0 <= nf && nf <= 7 && 0 <= nr && nr <= 7 {
        square_bb(make_square(nf as u8, nr as u8))
    } else {
        0
    }
}

pub fn knight_attacks(square: Square) -> (r: Bitboard)
    requires
        square < 64,
    ensures
        forall|t: int| #[trigger] in_bb(r, t) == knight_target(square as int, t),
{
    let f = file_of(square) as i8;
    let rk = rank_of(square) as i8;
    let r = offset_bit(f, rk, 1, 2) | offset_bit(f, rk, 2, 1) | offset_bit(f, rk, 2, -1)
        | offset_bit(f, rk, 1, -2) | offset_bit(f, rk, -1, -2) | offset_bit(f, rk, -2, -1)
        | offset_bit(f, rk, -2, 1) | offset_bit(f, rk, -1, 2);
    proof {
        assert forall|t: int| #[trigger] in_bb(r, t) == knight_target(square as int, t) by {
            if 0 <= t < 64 {
                assert(t == (t / 8) * 8 + t % 8);
            }
        }
    }
    r
}

#[verifier::rlimit(50)]
pub fn king_attacks(square: Square) -> (r: Bitboard)
    requires
        square < 64,
    ensures
        forall|t: int| #[trigger] in_bb(r, t) == king_target(square as int, t),
{
    let f = file_of(square) as i8;
    let rk = rank_of(square) as i8;
    let r = offset_bit(f, rk, 1, 0) | offset_bit(f, rk, 1, 1) | offset_bit(f, rk, 0, 1)
        | offset_bit(f, rk, -1, 1) | offset_bit(f, rk, -1, 0) | offset_bit(f, rk, -1, -1)
        | offset_bit(f, rk, 0, -1) | offset_bit(f, rk, 1, -1);
    proof {
        assert forall|t: int| #[trigger] in_bb(r, t) == king_target(square as int, t) by {
            if 0 <= t < 64 {
                assert(t == (t / 8) * 8 + t % 8);
            }
        }
    }
    r
}

pub fn pawn_attacks(color: Color, square: Square) -> (r: Bitboard)
    requires
        square < 64,
    ensures
        forall|t: int| #[trigger] in_bb(r, t) == pawn_target(color, square as int, t),
{
    let f = file_of(square) as i8;
    let rk = rank_of(square) as i8;
    let fwd: i8 = match color {
        Color::White => 1,
        Color::Black => -1,
    };
    let r = offset_bit(f, rk, -1, fwd) | offset_bit(f, rk, 1, fwd);
    proof {
        assert forall|t: int| #[trigger] in_bb(r, t) == pawn_target(color, square as int, t) by {
            if 0 <= t < 64 {
                assert(t == (t / 8) * 8 + t % 8);
            }
        }
    }
    r
}

/// The squares along one ray from `square`, up to and including the first
/// occupied square.
pub fn ray_attacks(square: Square, occupancy: Bitboard, df: i8, dr: i8) -> (r: Bitboard)
    requires
        square < 64,
        -1 <= df <= 1,
        -1 <= dr <= 1,
    ensures
        forall|t: int| #[trigger] in_bb(r, t) == ray_attack(square as int, df as int, dr as int, bits(occupancy), t),
{
    let mut f = file_of(square) as i8;
    let mut rk = rank_of(square) as i8;
    let ghost f0 = f as int;
    let ghost r0 = rk as int;
    let mut attacks: u64 = 0;
    let mut n: u8 = 7;
    let mut done = false;
    while n > 0 && !done
        invariant
            0 <= f < 8,
            0 <= rk < 8,
            n <= 7,
            -1 <= df <= 1,
            -1 <= dr <= 1,
            f0 == square % 8,
            r0 == square / 8,
            forall|t: int|
                #![trigger in_bb(attacks, t)]
                0 <= t < 64 ==> (ray_hits(f0, r0, df as int, dr as int, bits(occupancy), t, 7) == (
                in_bb(attacks, t) || (!done && ray_hits(
                    f as int,
                    rk as int,
                    df as int,
                    dr as int,
                    bits(occupancy),
                    t,
                    n as nat,
                )))),
            forall|t: int| #[trigger] in_bb(attacks, t) ==> 0 <= t < 64,
        decreases 2 * n + if done {
            0int
        } else {
            1int
        },
    {
        let nf = f + df;
        let nr = rk + dr;
        let ghost old_attacks = attacks;
        let ghost of = f as int;
        let ghost orr = rk as int;
        let ghost on = n as nat;
        assert(forall|t: int|
            0 <= t < 64 ==> (ray_hits(f0, r0, df as int, dr as int, bits(occupancy), t, 7) == (in_bb(
                old_attacks,
                t,
            ) || ray_hits(of, orr, df as int, dr as int, bits(occupancy), t, on))));
        if !(0 <= nf && nf <= 7 && 0 <= nr && nr <= 7) {
            done = true;
        } else {
            let target = make_square(nf as u8, nr as u8);
            let bit = square_bb(target);
            attacks = attacks | bit;
            if occupancy & bit != 0 {
                proof {
                    lemma_empty_iff_zero(occupancy & bit);
                    assert(in_bb(occupancy, target as int));
                }
                done = true;
            } else {
                proof {
                    assert(in_bb(occupancy & bit, target as int) == in_bb(0u64, target as int));
                    assert(!in_bb(occupancy, target as int));
                }
                f = nf;
                rk = nr;
                n = n - 1;
            }
        }
        proof {
            assert forall|t: int| 0 <= t < 64 implies (ray_hits(
                f0,
                r0,
                df as int,
                dr as int,
                bits(occupancy),
                t,
                7,
            ) == (in_bb(attacks, t) || (!done && ray_hits(
                f as int,
                rk as int,
                df as int,
                dr as int,
                bits(occupancy),
                t,
                n as nat,
            )))) by {
                assert(ray_hits(f0, r0, df as int, dr as int, bits(occupancy), t, 7) == (in_bb(
                    old_attacks,
                    t,
                ) || ray_hits(of, orr, df as int, dr as int, bits(occupancy), t, on)));
                let tf = of + df;
                let tr = orr + dr;
                assert(on > 0);
                assert(ray_hits(of, orr, df as int, dr as int, bits(occupancy), t, on) == if !on_board(
                    tf,
                    tr,
                ) {
                    false
                } else if t == tr * 8 + tf {
                    true
                } else if bits(occupancy)(tr * 8 + tf) {
                    false
                } else {
                    ray_hits(tf, tr, df as int, dr as int, bits(occupancy), t, (on - 1) as nat)
                });
            }
        }
    }
    proof {
        assert forall|t: int| #[trigger]
            in_bb(attacks, t) == ray_attack(square as int, df as int, dr as int, bits(occupancy), t) by {
            if !(0 <= t < 64) && ray_attack(square as int, df as int, dr as int, bits(occupancy), t) {
                lemma_ray_on_board(f0, r0, df as int, dr as int, bits(occupancy), t, 7);
            }
        }
    }
    attacks
}

/// The four rook directions.
pub fn rook_deltas() -> (r: [(i8, i8); 4])
    ensures
        r@ == seq![(1i8, 0i8), (-1i8, 0i8), (0i8, 1i8), (0i8, -1i8)],
{
    let r = [(1, 0), (-1, 0), (0, 1), (0, -1)];
    proof {
        assert(r@ =~= seq![(1i8, 0i8), (-1i8, 0i8), (0i8, 1i8), (0i8, -1i8)]);
    }
    r
}

/// The four bishop directions.
pub fn bishop_deltas() -> (r: [(i8, i8); 4])
    ensures
        r@ == seq![(1i8, 1i8), (1i8, -1i8), (-1i8, 1i8), (-1i8, -1i8)],
{
    let r = [(1, 1), (1, -1), (-1, 1), (-1, -1)];
    proof {
        assert(r@ =~= seq![(1i8, 1i8), (1i8, -1i8), (-1i8, 1i8), (-1i8, -1i8)]);
    }
    r
}

/// All squares a slider on `square` attacks given `occupancy`, walking each ray
/// of `deltas` until it hits an occupied square (inclusive).
pub fn slider_attacks_on_the_fly(square: Square, occupancy: Bitboard, deltas: &[(i8, i8)]) -> (r:
    Bitboard)
    requires
        square < 64,
        forall|i: int|
            0 <= i < deltas@.len() ==> -1 <= #[trigger] deltas@[i].0 <= 1 && -1 <= deltas@[i].1
                <= 1,
    ensures
        forall|t: int| #[trigger]
            in_bb(r, t) == exists|i: int|
                0 <= i < deltas@.len() && #[trigger] ray_attack(
                    square as int,
                    deltas@[i].0 as int,
                    deltas@[i].1 as int,
                    bits(occupancy),
                    t,
                ),
{
    let mut attacks: u64 = 0;
    let mut k: usize = 0;
    while k < deltas.len()
        invariant
            square < 64,
            k <= deltas@.len(),
            forall|i: int|
                0 <= i < deltas@.len() ==> -1 <= #[trigger] deltas@[i].0 <= 1 && -1
                    <= deltas@[i].1 <= 1,
            forall|t: int| #[trigger]
                in_bb(attacks, t) == exists|i: int|
                    0 <= i < k && #[trigger] ray_attack(
                        square as int,
                        deltas@[i].0 as int,
                        deltas@[i].1 as int,
                        bits(occupancy),
                        t,
                    ),
        decreases deltas@.len() - k,
    {
        let (df, dr) = deltas[k];
        let ray = ray_attacks(square, occupancy, df, dr);
        proof {
            assert forall|t: int| #[trigger]
                in_bb(attacks | ray, t) == exists|i: int|
                    0 <= i < k + 1 && #[trigger] ray_attack(
                        square as int,
                        deltas@[i].0 as int,
                        deltas@[i].1 as int,
                        bits(occupancy),
                        t,
                    ) by {
                if in_bb(ray, t) {
                    assert(ray_attack(
                        square as int,
                        deltas@[k as int].0 as int,
                        deltas@[k as int].1 as int,
                        bits(occupancy),
                        t,
                    ));
                }
            }
        }
        attacks = attacks | ray;
        k = k + 1;
    }
    attacks
}

pub fn bishop_attacks(square: Square, occupancy: Bitboard) -> (r: Bitboard)
    requires
        square < 64,
    ensures
        forall|t: int| #[trigger] in_bb(r, t) == bishop_attack(square as int, bits(occupancy), t),
{
    ray_attacks(square, occupancy, 1, 1) | ray_attacks(square, occupancy, 1, -1) | ray_attacks(
        square,
        occupancy,
        -1,
        1,
    ) | ray_attacks(square, occupancy, -1, -1)
}

pub fn rook_attacks(square: Square, occupancy: Bitboard) -> (r: Bitboard)
    requires
        square < 64,
    ensures
        forall|t: int| #[trigger] in_bb(r, t) == rook_attack(square as int, bits(occupancy), t),
{
    ray_attacks(square, occupancy, 1, 0) | ray_attacks(square, occupancy, -1, 0) | ray_attacks(
        square,
        occupancy,
        0,
        1,
    ) | ray_attacks(square, occupancy, 0, -1)
}

pub fn queen_attacks(square: Square, occupancy: Bitboard) -> (r: Bitboard)
    requires
        square < 64,
    ensures
        forall|t: int| #[trigger]
            in_bb(r, t) == (bishop_attack(square as int, bits(occupancy), t) || rook_attack(
                square as int,
                bits(occupancy),
                t,
            )),
{
    bishop_attacks(square, occupancy) | rook_attacks(square, occupancy)
}

/// Sliding line of sight is symmetric for bishops and rooks.
pub proof fn lemma_slider_symmetric(a: int, b: int, occ: spec_fn(int) -> bool)
    requires
        0 <= a < 64,
        0 <= b < 64,
    ensures
        bishop_attack(a, occ, b) == bishop_attack(b, occ, a),
        rook_attack(a, occ, b) == rook_attack(b, occ, a),
{
    assert forall|x: int, y: int, df: int, dr: int|
        0 <= x < 64 && unit(df) && unit(dr) && !(df == 0 && dr == 0) && #[trigger] ray_attack(
            x,
            df,
            dr,
            occ,
            y,
        ) implies ray_attack(y, -df, -dr, occ, x) by {
        lemma_ray_symmetric(x, y, df, dr, occ);
    }
}

/// The occupied squares of a position.
pub open spec fn occupied_in(p: Position) -> spec_fn(int) -> bool {
    |s: int| 0 <= s < 64 && p.squares[s] is Some
}

/// A piece standing on `s` attacks `t`, given the occupied squares.
pub open spec fn piece_attacks(pc: Piece, s: int, occ: spec_fn(int) -> bool, t: int) -> bool {
    match pc.piece_type {
        PieceType::Pawn => pawn_target(pc.color, s, t),
        PieceType::Knight => knight_target(s, t),
        PieceType::Bishop => bishop_attack(s, occ, t),
        PieceType::Rook => rook_attack(s, occ, t),
        PieceType::Queen => bishop_attack(s, occ, t) || rook_attack(s, occ, t),
        PieceType::King => king_target(s, t),
    }
}

/// Some piece of color `by` on the square `s` attacks `sq`.
pub open spec fn attacks_from(p: Position, s: int, by: Color, sq: int) -> bool {
    &&& 0 <= s < 64
    &&& p.squares[s] is Some
    &&& p.squares[s]->0.color == by
    &&& piece_attacks(p.squares[s]->0, s, occupied_in(p), sq)
}

/// Square `sq` is attacked by a piece of color `by` in position `p`.
pub open spec fn attacked(p: Position, sq: int, by: Color) -> bool {
    exists|s: int| #[trigger] attacks_from(p, s, by, sq)
}

/// Two bitboards share a square exactly when their intersection is non-zero.
pub proof fn lemma_meet(a: u64, b: u64)
    ensures
        (a & b != 0) == exists|s: int| in_bb(a, s) && in_bb(b, s),
{
    lemma_empty_iff_zero(a & b);
    if a & b != 0 {
        let s = choose|s: int| in_bb(a & b, s);
        assert(in_bb(a, s) && in_bb(b, s));
    } else {
        assert forall|s: int| !(in_bb(a, s) && in_bb(b, s)) by {
            assert(!in_bb(a & b, s));
        }
    }
}

/// Is `square` attacked by any piece of color `by`?
pub fn is_square_attacked(board: &Board, square: Square, by: Color) -> (r: bool)
    requires
        square < 64,
        board.bits_ok(),
    ensures
        r == attacked(board@, square as int, by),
{
    let ghost sq = square as int;
    let ghost p = board@;
    // A `by` pawn attacks `square` from where a pawn of the other color on
    // `square` would attack.
    let pa = pawn_attacks(by.opponent(), square);
    let pawns = pa & board.pieces(by, PieceType::Pawn);
    proof {
        lemma_meet(pa, board.bb(by, PieceType::Pawn));
    }
    if pawns != 0 {
        proof {
            let s = choose|s: int| in_bb(pa, s) && in_bb(board.bb(by, PieceType::Pawn), s);
            assert(attacks_from(p, s, by, sq));
        }
        return true;
    }
    let na = knight_attacks(square);
    let knights = na & board.pieces(by, PieceType::Knight);
    proof {
        lemma_meet(na, board.bb(by, PieceType::Knight));
    }
    if knights != 0 {
        proof {
            let s = choose|s: int| in_bb(na, s) && in_bb(board.bb(by, PieceType::Knight), s);
            assert(attacks_from(p, s, by, sq));
        }
        return true;
    }
    let ka = king_attacks(square);
    let kings = ka & board.pieces(by, PieceType::King);
    proof {
        lemma_meet(ka, board.bb(by, PieceType::King));
    }
    if kings != 0 {
        proof {
            let s = choose|s: int| in_bb(ka, s) && in_bb(board.bb(by, PieceType::King), s);
            assert(attacks_from(p, s, by, sq));
        }
        return true;
    }
    let occupancy = board.occupied();
    proof {
        assert(bits(occupancy) =~= occupied_in(p));
    }
    let diagonal = board.pieces(by, PieceType::Bishop) | board.pieces(by, PieceType::Queen);
    let ba = bishop_attacks(square, occupancy);
    let diag = ba & diagonal;
    proof {
        lemma_meet(ba, diagonal);
    }
    if diag != 0 {
        proof {
            let s = choose|s: int| in_bb(ba, s) && in_bb(diagonal, s);
            lemma_slider_symmetric(sq, s, occupied_in(p));
            assert(attacks_from(p, s, by, sq));
        }
        return true;
    }
    let orthogonal = board.pieces(by, PieceType::Rook) | board.pieces(by, PieceType::Queen);
    let ra = rook_attacks(square, occupancy);
    let orth = ra & orthogonal;
    proof {
        lemma_meet(ra, orthogonal);
    }
    if orth != 0 {
        proof {
            let s = choose|s: int| in_bb(ra, s) && in_bb(orthogonal, s);
            lemma_slider_symmetric(sq, s, occupied_in(p));
            assert(attacks_from(p, s, by, sq));
        }
        return true;
    }
    proof {
        assert forall|s: int| !#[trigger] attacks_from(p, s, by, sq) by {
            if 0 <= s < 64 && p.squares[s] is Some && p.squares[s]->0.color == by {
                let pc = p.squares[s]->0;
                assert(in_bb(board.bb(by, pc.piece_type), s));
                lemma_slider_symmetric(sq, s, occupied_in(p));
                assert(in_bb(pa, s) == pawn_target(by.opp(), sq, s));
                assert(in_bb(na, s) == knight_target(sq, s));
                assert(in_bb(ka, s) == king_target(sq, s));
                assert(in_bb(ba, s) == bishop_attack(sq, occupied_in(p), s));
                assert(in_bb(ra, s) == rook_attack(sq, occupied_in(p), s));
            }
        }
    }
    false
}

} // verus!
