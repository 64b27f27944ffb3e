//! Move generation: pseudo-legal moves filtered to legal by make/unmake plus a
//! king-safety check, and `perft` — the leaf-node count that validates it all.
use vstd::prelude::*;
use vstd::string::StringSliceAdditionalSpecFns;

use crate::attacks::{
    attacked, bishop_attack, bishop_attacks, bits, is_square_attacked, king_attacks, king_target,
    knight_attacks, knight_target, occupied_in, pawn_attacks, pawn_target, queen_attacks,
    rook_attack, rook_attacks,
};
use crate::board::{Board, Position};
use crate::chess_move::{
    flag, lemma_move_bounds, lemma_move_fields_eq, parse_uci, parse_uci_bytes, Move,
};
use crate::types::{group_bitboard, in_bb, pop_lsb, square_bb, Bitboard, Color, PieceType, Square};

verus! {

broadcast use group_bitboard;

/// `c`'s piece of kind `t` stands on `s`.
pub open spec fn holds(p: Position, s: int, c: Color, t: PieceType) -> bool {
    0 <= s < 64 && p.squares[s] == Some(crate::types::Piece { color: c, piece_type: t })
}

/// A piece of color `c` stands on `s`.
pub open spec fn color_at(p: Position, s: int, c: Color) -> bool {
    0 <= s < 64 && p.squares[s] is Some && p.squares[s]->0.color == c
}

/// `s` is an empty square of the board.
pub open spec fn empty_at(p: Position, s: int) -> bool {
    0 <= s < 64 && p.squares[s] is None
}

/// The flag of a plain move to `t`: a capture when an enemy stands there.
pub open spec fn plain_flag(p: Position, us: Color, t: int) -> int {
    if color_at(p, t, us.opp()) {
        4
    } else {
        0
    }
}

/// `new` is `old` followed by moves, none repeated, that are exactly those
/// satisfying `pred`.
pub open spec fn appended(old: Seq<Move>, new: Seq<Move>, pred: spec_fn(Move) -> bool) -> bool {
    &&& new.len() >= old.len()
    &&& new.subrange(0, old.len() as int) == old
    &&& forall|m: Move| #[trigger] new.skip(old.len() as int).contains(m) == pred(m)
    &&& new.skip(old.len() as int).no_duplicates()
}

/// A move of a knight, bishop, rook, queen or king of the side to move from
/// `from` to `to`: the target holds no own piece, and the move is flagged a
/// capture exactly when an enemy piece stands there.
pub open spec fn plain_move(p: Position, m: Move, kind: PieceType) -> bool {
    let us = p.side;
    let from = m.from_sq();
    let to = m.to_sq();
    &&& holds(p, from, us, kind)
    &&& !color_at(p, to, us)
    &&& m.flag_of() == plain_flag(p, us, to)
    &&& match kind {
        PieceType::Knight => knight_target(from, to),
        PieceType::Bishop => bishop_attack(from, occupied_in(p), to),
        PieceType::Rook => rook_attack(from, occupied_in(p), to),
        PieceType::Queen => bishop_attack(from, occupied_in(p), to) || rook_attack(
            from,
            occupied_in(p),
            to,
        ),
        PieceType::King => king_target(from, to),
        PieceType::Pawn => false,
    }
}

/// What a sequence with one more element contains.
pub proof fn lemma_push_contains<T>(s: Seq<T>, x: T, y: T)
    ensures
        s.push(x).contains(y) == (s.contains(y) || y == x),
{
    if s.contains(y) {
        let i = choose|i: int| 0 <= i < s.len() && s[i] == y;
        assert(s.push(x)[i] == y);
    }
    if y == x {
        assert(s.push(x)[s.len() as int] == y);
    }
    if s.push(x).contains(y) {
        let i = choose|i: int| 0 <= i < s.push(x).len() && s.push(x)[i] == y;
        if i < s.len() {
            assert(s[i] == y);
        }
    }
}

/// Appends a move from `from` to each square of `targets`, flagged a capture
/// when the target is in `enemy`.
fn push_targets(moves: &mut Vec<Move>, from: Square, targets: Bitboard, enemy: Bitboard)
    requires
        from < 64,
    ensures
        appended(
            old(moves)@,
            final(moves)@,
            |m: Move|
                m.from_sq() == from && in_bb(targets, m.to_sq()) && m.flag_of() == if in_bb(
                    enemy,
                    m.to_sq(),
                ) {
                    4int
                } else {
                    0int
                },
        ),
{
    let ghost old_seq = moves@;
    let ghost n0 = moves@.len();
    let mut rest = targets;
    let ghost mut lo: int = 0;
    proof {
        assert(moves@.skip(n0 as int) =~= Seq::<Move>::empty());
        assert(moves@.subrange(0, n0 as int) =~= old_seq);
    }
    while rest != 0
        invariant
            from < 64,
            n0 == old_seq.len(),
            moves@.len() >= n0,
            moves@.subrange(0, n0 as int) == old_seq,
            0 <= lo <= 64,
            forall|s: int| #[trigger] in_bb(rest, s) == (in_bb(targets, s) && s >= lo),
            forall|m: Move| #[trigger]
                moves@.skip(n0 as int).contains(m) == (m.from_sq() == from && in_bb(
                    targets,
                    m.to_sq(),
                ) && m.to_sq() < lo && m.flag_of() == if in_bb(enemy, m.to_sq()) {
                    4int
                } else {
                    0int
                }),
            moves@.skip(n0 as int).no_duplicates(),
        decreases 64 - lo,
    {
        let ghost before = rest;
        let ghost added = moves@.skip(n0 as int);
        let to = pop_lsb(&mut rest);
        let bit = square_bb(to);
        let f = if enemy & bit != 0 {
            flag::CAPTURE
        } else {
            flag::QUIET
        };
        let mv = Move::new(from, to, f);
        proof {
            crate::types::lemma_empty_iff_zero(enemy & bit);
            assert(in_bb(enemy & bit, to as int) == in_bb(enemy, to as int));
            assert forall|s: int| 0 <= s < 64 && s != to implies !#[trigger] in_bb(
                enemy & bit,
                s,
            ) by {}
            assert(mv.flag_of() == if in_bb(enemy, to as int) {
                4int
            } else {
                0int
            });
            assert(!added.contains(mv));
        }
        moves.push(mv);
        proof {
            assert(moves@.skip(n0 as int) =~= added.push(mv));
            assert(moves@.subrange(0, n0 as int) =~= old_seq);
            assert forall|m: Move| #[trigger]
                moves@.skip(n0 as int).contains(m) == (m.from_sq() == from && in_bb(
                    targets,
                    m.to_sq(),
                ) && m.to_sq() < to + 1 && m.flag_of() == if in_bb(enemy, m.to_sq()) {
                    4int
                } else {
                    0int
                }) by {
                if m.from_sq() == from && m.to_sq() == to && m.flag_of() == mv.flag_of() {
                    lemma_move_fields_eq(m, mv);
                }
                if m.from_sq() == from && in_bb(targets, m.to_sq()) && lo <= m.to_sq() < to {
                    assert(in_bb(before, m.to_sq()));
                }
                if m == mv {
                    assert(in_bb(before, to as int));
                }
                lemma_push_contains(added, mv, m);
            }
            lo = to + 1;
        }
    }
    proof {
        crate::types::lemma_empty_iff_zero(rest);
        assert forall|m: Move| #[trigger]
            moves@.skip(n0 as int).contains(m) == (m.from_sq() == from && in_bb(
                targets,
                m.to_sq(),
            ) && m.flag_of() == if in_bb(enemy, m.to_sq()) {
                4int
            } else {
                0int
            }) by {
            lemma_move_bounds(m);
            if in_bb(targets, m.to_sq()) && m.to_sq() >= lo {
                assert(in_bb(rest, m.to_sq()));
            }
        }
    }
}

/// Splitting a grown sequence at an intermediate length.
proof fn lemma_append_step(mid: Seq<Move>, new: Seq<Move>, n0: int)
    requires
        0 <= n0 <= mid.len(),
        new.len() >= mid.len(),
        new.subrange(0, mid.len() as int) == mid,
    ensures
        new.subrange(0, n0) == mid.subrange(0, n0),
        new.skip(n0) == mid.skip(n0) + new.skip(mid.len() as int),
{
    assert(new.subrange(0, n0) =~= mid.subrange(0, n0));
    assert(new.skip(n0) =~= mid.skip(n0) + new.skip(mid.len() as int));
}

/// What a concatenation contains, and when it repeats nothing.
pub proof fn lemma_concat(a: Seq<Move>, b: Seq<Move>)
    ensures
        forall|m: Move| #[trigger] (a + b).contains(m) == (a.contains(m) || b.contains(m)),
        a.no_duplicates() && b.no_duplicates() && (forall|m: Move|
            a.contains(m) ==> !b.contains(m)) ==> (a + b).no_duplicates(),
{
    assert forall|m: Move| #[trigger] (a + b).contains(m) == (a.contains(m) || b.contains(m)) by {
        if a.contains(m) {
            let i = choose|i: int| 0 <= i < a.len() && a[i] == m;
            assert((a + b)[i] == m);
        }
        if b.contains(m) {
            let i = choose|i: int| 0 <= i < b.len() && b[i] == m;
            assert((a + b)[a.len() + i] == m);
        }
        if (a + b).contains(m) {
            let i = choose|i: int| 0 <= i < (a + b).len() && (a + b)[i] == m;
            if i < a.len() {
                assert(a[i] == m);
            } else {
                assert(b[i - a.len()] == m);
            }
        }
    }
    if a.no_duplicates() && b.no_duplicates() && (forall|m: Move| a.contains(m) ==> !b.contains(m)) {
        assert forall|i: int, j: int|
            0 <= i < (a + b).len() && 0 <= j < (a + b).len() && i != j implies (a + b)[i] != (a
            + b)[j] by {
            if i < a.len() && j >= a.len() {
                assert(a.contains(a[i]));
                assert(b.contains(b[j - a.len()]));
            } else if j < a.len() && i >= a.len() {
                assert(a.contains(a[j]));
                assert(b.contains(b[i - a.len()]));
            }
        }
    }
}

/// The square sets a plain move's target may be drawn from: not an own
/// piece, flagged by the enemy bitboard.
proof fn lemma_plain_targets(board: Board, us: Color, enemy: u64, m: Move)
    requires
        board.bits_ok(),
        enemy == board.occ_bb(us.opp()),
    ensures
        (in_bb(enemy, m.to_sq()) == color_at(board@, m.to_sq(), us.opp())),
        (in_bb(board.occ_bb(us), m.to_sq()) == color_at(board@, m.to_sq(), us)),
{
}

fn generate_knight_moves(board: &Board, us: Color, moves: &mut Vec<Move>)
    requires
        board.bits_ok(),
        us == board@.side,
    ensures
        appended(old(moves)@, final(moves)@, |m: Move| plain_move(board@, m, PieceType::Knight)),
{
    generate_piece_moves(board, us, PieceType::Knight, moves);
}

fn generate_slider_moves(board: &Board, us: Color, piece_type: PieceType, moves: &mut Vec<Move>)
    requires
        board.bits_ok(),
        us == board@.side,
        piece_type == PieceType::Bishop || piece_type == PieceType::Rook || piece_type
            == PieceType::Queen,
    ensures
        appended(old(moves)@, final(moves)@, |m: Move| plain_move(board@, m, piece_type)),
{
    generate_piece_moves(board, us, piece_type, moves);
}

/// The plain moves of every `kind` piece of the side to move.
fn generate_piece_moves(board: &Board, us: Color, kind: PieceType, moves: &mut Vec<Move>)
    requires
        board.bits_ok(),
        us == board@.side,
        kind != PieceType::Pawn,
        kind != PieceType::King,
    ensures
        appended(old(moves)@, final(moves)@, |m: Move| plain_move(board@, m, kind)),
{
    let ghost p = board@;
    let ghost old_seq = moves@;
    let ghost n0 = moves@.len();
    let own = board.occupancy(us);
    let enemy = board.occupancy(us.opponent());
    let occupied = board.occupied();
    proof {
        assert(bits(occupied) =~= occupied_in(p));
        assert(moves@.skip(n0 as int) =~= Seq::<Move>::empty());
        assert(moves@.subrange(0, n0 as int) =~= old_seq);
    }
    let orig = board.pieces(us, kind);
    let mut pieces = orig;
    let ghost mut lo: int = 0;
    while pieces != 0
        invariant
            board.bits_ok(),
            p == board@,
            us == p.side,
            kind != PieceType::Pawn,
            kind != PieceType::King,
            own == board.occ_bb(us),
            enemy == board.occ_bb(us.opp()),
            bits(occupied) == occupied_in(p),
            orig == board.bb(us, kind),
            n0 == old_seq.len(),
            moves@.len() >= n0,
            moves@.subrange(0, n0 as int) == old_seq,
            0 <= lo <= 64,
            forall|s: int| #[trigger] in_bb(pieces, s) == (in_bb(orig, s) && s >= lo),
            forall|m: Move| #[trigger]
                moves@.skip(n0 as int).contains(m) == (plain_move(p, m, kind) && m.from_sq() < lo),
            moves@.skip(n0 as int).no_duplicates(),
        decreases 64 - lo,
    {
        let ghost before = pieces;
        let ghost mid = moves@;
        let from = pop_lsb(&mut pieces);
        let attacks = match kind {
            PieceType::Knight => knight_attacks(from),
            PieceType::Bishop => bishop_attacks(from, occupied),
            PieceType::Rook => rook_attacks(from, occupied),
            PieceType::Queen => queen_attacks(from, occupied),
            _ => 0,
        };
        let targets = attacks & !own;
        push_targets(moves, from, targets, enemy);
        proof {
            lemma_append_step(mid, moves@, n0 as int);
            let a = mid.skip(n0 as int);
            let b = moves@.skip(mid.len() as int);
            lemma_concat(a, b);
            assert forall|m: Move| #[trigger]
                b.contains(m) == (plain_move(p, m, kind) && m.from_sq() == from) by {
                lemma_plain_targets(*board, us, enemy, m);
            }
            assert forall|m: Move| #[trigger]
                moves@.skip(n0 as int).contains(m) == (plain_move(p, m, kind) && m.from_sq() < from
                    + 1) by {
                if plain_move(p, m, kind) && lo <= m.from_sq() < from {
                    assert(in_bb(orig, m.from_sq()));
                    assert(in_bb(before, m.from_sq()));
                }
                if plain_move(p, m, kind) && m.from_sq() == from {
                    assert(b.contains(m));
                }
            }
            lo = from + 1;
        }
    }
    proof {
        crate::types::lemma_empty_iff_zero(pieces);
        assert forall|m: Move| #[trigger]
            moves@.skip(n0 as int).contains(m) == plain_move(p, m, kind) by {
            lemma_move_bounds(m);
            if plain_move(p, m, kind) && m.from_sq() >= lo {
                assert(in_bb(orig, m.from_sq()));
                assert(in_bb(pieces, m.from_sq()));
            }
        }
    }
}

/// The moves of the side to move's king, which stands on its lowest king square.
fn generate_king_moves(board: &Board, us: Color, moves: &mut Vec<Move>)
    requires
        board.bits_ok(),
        us == board@.side,
        board.bb(us, PieceType::King) != 0,
    ensures
        appended(
            old(moves)@,
            final(moves)@,
            |m: Move|
                plain_move(board@, m, PieceType::King) && m.from_sq()
                    == vstd::std_specs::bits::u64_trailing_zeros(board.bb(us, PieceType::King)),
        ),
{
    let own = board.occupancy(us);
    let enemy = board.occupancy(us.opponent());
    let from = board.king_square(us);
    let targets = king_attacks(from) & !own;
    let ghost old_seq = moves@;
    push_targets(moves, from, targets, enemy);
    proof {
        let n0 = old_seq.len();
        assert forall|m: Move| #[trigger]
            moves@.skip(n0 as int).contains(m) == (plain_move(board@, m, PieceType::King)
                && m.from_sq() == from) by {
            lemma_plain_targets(*board, us, enemy, m);
        }
    }
}

/// Growing by one segment after another gives the union of what they hold.
pub proof fn lemma_appended_chain(
    s0: Seq<Move>,
    s1: Seq<Move>,
    s2: Seq<Move>,
    p: spec_fn(Move) -> bool,
    q: spec_fn(Move) -> bool,
)
    requires
        appended(s0, s1, p),
        appended(s1, s2, q),
        forall|m: Move| !(#[trigger] p(m) && q(m)),
    ensures
        appended(s0, s2, |m: Move| p(m) || q(m)),
{
    let n0 = s0.len() as int;
    lemma_append_step(s1, s2, n0);
    let a = s1.skip(n0);
    let b = s2.skip(s1.len() as int);
    lemma_concat(a, b);
    assert(s2.subrange(0, n0) == s0);
    assert forall|m: Move| a.contains(m) implies !b.contains(m) by {
        assert(p(m));
    }
}

/// Appends one move.
fn push_one(moves: &mut Vec<Move>, mv: Move)
    ensures
        appended(old(moves)@, final(moves)@, |m: Move| m == mv),
        final(moves)@ == old(moves)@.push(mv),
{
    let ghost old_seq = moves@;
    moves.push(mv);
    proof {
        assert(moves@.skip(old_seq.len() as int) =~= seq![mv]);
        assert(moves@.subrange(0, old_seq.len() as int) =~= old_seq);
        assert forall|m: Move| #[trigger] seq![mv].contains(m) == (m == mv) by {
            if m == mv {
                assert(seq![mv][0] == mv);
            }
        }
    }
}

/// Appends the four promotions of a pawn moving from `from` to `to`.
fn push_promotions(moves: &mut Vec<Move>, from: Square, to: Square, capture: bool)
    requires
        from < 64,
        to < 64,
    ensures
        appended(
            old(moves)@,
            final(moves)@,
            |m: Move|
                m.from_sq() == from && m.to_sq() == to && if capture {
                    12 <= m.flag_of() <= 15
                } else {
                    8 <= m.flag_of() <= 11
                },
        ),
{
    let (f0, f1, f2, f3) = if capture {
        (
            flag::PROMO_KNIGHT_CAPTURE,
            flag::PROMO_BISHOP_CAPTURE,
            flag::PROMO_ROOK_CAPTURE,
            flag::PROMO_QUEEN_CAPTURE,
        )
    } else {
        (flag::PROMO_KNIGHT, flag::PROMO_BISHOP, flag::PROMO_ROOK, flag::PROMO_QUEEN)
    };
    let ghost s0 = moves@;
    let m0 = Move::new(from, to, f0);
    let m1 = Move::new(from, to, f1);
    let m2 = Move::new(from, to, f2);
    let m3 = Move::new(from, to, f3);
    push_one(moves, m0);
    let ghost s1 = moves@;
    push_one(moves, m1);
    let ghost s2 = moves@;
    push_one(moves, m2);
    let ghost s3 = moves@;
    push_one(moves, m3);
    proof {
        let p0 = |m: Move| m == m0;
        let p1 = |m: Move| m == m1;
        let p2 = |m: Move| m == m2;
        let p3 = |m: Move| m == m3;
        lemma_appended_chain(s0, s1, s2, p0, p1);
        let p01 = |m: Move| p0(m) || p1(m);
        lemma_appended_chain(s0, s2, s3, p01, p2);
        let p012 = |m: Move| p01(m) || p2(m);
        lemma_appended_chain(s0, s3, moves@, p012, p3);
        let target = |m: Move|
            m.from_sq() == from && m.to_sq() == to && if capture {
                12 <= m.flag_of() <= 15
            } else {
                8 <= m.flag_of() <= 11
            };
        assert forall|m: Move| #[trigger] target(m) == (p012(m) || p3(m)) by {
            if target(m) {
                if m.flag_of() == f0 {
                    lemma_move_fields_eq(m, m0);
                } else if m.flag_of() == f1 {
                    lemma_move_fields_eq(m, m1);
                } else if m.flag_of() == f2 {
                    lemma_move_fields_eq(m, m2);
                } else {
                    lemma_move_fields_eq(m, m3);
                }
            }
        }
        let n0 = s0.len() as int;
        assert forall|m: Move| #[trigger] moves@.skip(n0).contains(m) == target(m) by {
            assert(moves@.skip(n0).contains(m) == (p012(m) || p3(m)));
        }
    }
}

/// Nothing appended: the predicate holds of no move.
proof fn lemma_appended_none(s0: Seq<Move>, p: spec_fn(Move) -> bool)
    requires
        forall|m: Move| !#[trigger] p(m),
    ensures
        appended(s0, s0, p),
{
    assert(s0.skip(s0.len() as int) =~= Seq::<Move>::empty());
    assert(s0.subrange(0, s0.len() as int) =~= s0);
}

/// Two predicates that agree describe the same growth.
proof fn lemma_appended_same(s0: Seq<Move>, s1: Seq<Move>, p: spec_fn(Move) -> bool, q: spec_fn(Move) -> bool)
    requires
        appended(s0, s1, p),
        forall|m: Move| #[trigger] p(m) == q(m),
    ensures
        appended(s0, s1, q),
{
}

pub open spec fn promo_rank(us: Color) -> int {
    if us == Color::White {
        7
    } else {
        0
    }
}

pub open spec fn start_rank(us: Color) -> int {
    if us == Color::White {
        1
    } else {
        6
    }
}

/// The square in front of `s` for a pawn of `us`.
pub open spec fn ahead(us: Color, s: int) -> int {
    if us == Color::White {
        s + 8
    } else {
        s - 8
    }
}

/// A pawn push: one square onto an empty square (the four promotions on the
/// last rank), or two squares from the start rank over an empty square.
pub open spec fn pawn_push_move(p: Position, m: Move) -> bool {
    let us = p.side;
    let from = m.from_sq();
    let to = m.to_sq();
    let f = m.flag_of();
    ||| to == ahead(us, from) && empty_at(p, to) && if to / 8 == promo_rank(us) {
        8 <= f <= 11
    } else {
        f == 0
    }
    ||| f == 1 && from / 8 == start_rank(us) && empty_at(p, ahead(us, from)) && to == ahead(
        us,
        ahead(us, from),
    ) && empty_at(p, to)
}

/// A pawn capture of an enemy piece diagonally ahead (the four promotion
/// captures on the last rank).
pub open spec fn pawn_capture_move(p: Position, m: Move) -> bool {
    let us = p.side;
    let to = m.to_sq();
    let f = m.flag_of();
    &&& pawn_target(us, m.from_sq(), to)
    &&& color_at(p, to, us.opp())
    &&& if to / 8 == promo_rank(us) {
        12 <= f <= 15
    } else {
        f == 4
    }
}

/// An en-passant capture onto the en-passant square.
pub open spec fn pawn_ep_move(p: Position, m: Move) -> bool {
    &&& m.flag_of() == 5
    &&& p.en_passant == Some(m.to_sq() as u8)
    &&& pawn_target(p.side, m.from_sq(), m.to_sq())
}

/// A move of a pawn of the side to move.
pub open spec fn pawn_move(p: Position, m: Move) -> bool {
    &&& holds(p, m.from_sq(), p.side, PieceType::Pawn)
    &&& {
        ||| pawn_push_move(p, m)
        ||| pawn_capture_move(p, m)
        ||| pawn_ep_move(p, m)
    }
}

/// No pawn of `c` stands on the rank it would step off the board from.
pub open spec fn pawns_on_board(p: Position, c: Color) -> bool {
    forall|s: int| #[trigger] holds(p, s, c, PieceType::Pawn) ==> 0 <= ahead(c, s) < 64
}

fn pawn_pushes(board: &Board, us: Color, from: Square, empty: Bitboard, moves: &mut Vec<Move>)
    requires
        board.bits_ok(),
        us == board@.side,
        from < 64,
        0 <= ahead(us, from as int) < 64,
        forall|s: int| #[trigger] in_bb(empty, s) == empty_at(board@, s),
    ensures
        appended(
            old(moves)@,
            final(moves)@,
            |m: Move| m.from_sq() == from && pawn_push_move(board@, m),
        ),
{
    let ghost p = board@;
    let ghost s0 = moves@;
    let ghost target: spec_fn(Move) -> bool = |m: Move| m.from_sq() == from && pawn_push_move(p, m);
    let promo: u8 = if us == Color::White {
        7
    } else {
        0
    };
    let start: u8 = if us == Color::White {
        1
    } else {
        6
    };
    let push = if us == Color::White {
        from + 8
    } else {
        from - 8
    };
    let push_bit = square_bb(push);
    if empty & push_bit != 0 {
        proof {
            crate::types::lemma_empty_iff_zero(empty & push_bit);
        }
        if push / 8 == promo {
            push_promotions(moves, from, push, false);
            proof {
                assert forall|m: Move| (m.from_sq() == from && m.to_sq() == push && 8
                    <= m.flag_of() <= 11) == #[trigger] target(m) by {
                    lemma_move_bounds(m);
                }
                lemma_appended_same(
                    s0,
                    moves@,
                    |m: Move| m.from_sq() == from && m.to_sq() == push && 8 <= m.flag_of() <= 11,
                    target,
                );
            }
        } else {
            let single = Move::new(from, push, flag::QUIET);
            push_one(moves, single);
            let ghost s1 = moves@;
            if from / 8 == start {
                let double = if us == Color::White {
                    push + 8
                } else {
                    push - 8
                };
                let double_bit = square_bb(double);
                if empty & double_bit != 0 {
                    let two = Move::new(from, double, flag::DOUBLE_PAWN_PUSH);
                    push_one(moves, two);
                    proof {
                        crate::types::lemma_empty_iff_zero(empty & double_bit);
                        lemma_appended_chain(s0, s1, moves@, |m: Move| m == single, |m: Move| m == two);
                        assert forall|m: Move| ((m == single) || (m == two)) == #[trigger] target(m) by {
                            lemma_move_bounds(m);
                            if target(m) {
                                if m.flag_of() == 0 {
                                    lemma_move_fields_eq(m, single);
                                } else {
                                    lemma_move_fields_eq(m, two);
                                }
                            }
                        }
                        lemma_appended_same(s0, moves@, |m: Move| (|m: Move| m == single)(m) || (|m: Move| m == two)(m), target);
                    }
                } else {
                    proof {
                        assert(!in_bb(empty, double as int)) by {
                            if in_bb(empty, double as int) {
                                assert(in_bb(empty & double_bit, double as int));
                            }
                        }
                        assert forall|m: Move| (m == single) == #[trigger] target(m) by {
                            lemma_move_bounds(m);
                            if target(m) {
                                lemma_move_fields_eq(m, single);
                            }
                        }
                        lemma_appended_same(s0, moves@, |m: Move| m == single, target);
                    }
                }
            } else {
                proof {
                    assert forall|m: Move| (m == single) == #[trigger] target(m) by {
                        lemma_move_bounds(m);
                        if target(m) {
                            lemma_move_fields_eq(m, single);
                        }
                    }
                    lemma_appended_same(s0, moves@, |m: Move| m == single, target);
                }
            }
        }
    } else {
        proof {
            assert(!in_bb(empty, push as int)) by {
                if in_bb(empty, push as int) {
                    assert(in_bb(empty & push_bit, push as int));
                }
            }
            assert forall|m: Move| !#[trigger] target(m) by {
                lemma_move_bounds(m);
            }
            lemma_appended_none(s0, target);
        }
    }
}

fn pawn_captures(board: &Board, us: Color, from: Square, enemy: Bitboard, moves: &mut Vec<Move>)
    requires
        board.bits_ok(),
        us == board@.side,
        from < 64,
        enemy == board.occ_bb(us.opp()),
    ensures
        appended(
            old(moves)@,
            final(moves)@,
            |m: Move| m.from_sq() == from && pawn_capture_move(board@, m),
        ),
{
    let ghost p = board@;
    let ghost old_seq = moves@;
    let ghost n0 = moves@.len();
    let promo: u8 = if us == Color::White {
        7
    } else {
        0
    };
    let attacks = pawn_attacks(us, from);
    let orig = attacks & enemy;
    let mut captures = orig;
    let ghost mut lo: int = 0;
    let ghost target: spec_fn(Move) -> bool = |m: Move|
        m.from_sq() == from && pawn_capture_move(p, m);
    proof {
        lemma_appended_none(old_seq, |m: Move| false);
    }
    while captures != 0
        invariant
            board.bits_ok(),
            p == board@,
            us == p.side,
            from < 64,
            promo == promo_rank(us),
            enemy == board.occ_bb(us.opp()),
            forall|t: int| #[trigger] in_bb(attacks, t) == pawn_target(us, from as int, t),
            orig == attacks & enemy,
            target == (|m: Move| m.from_sq() == from && pawn_capture_move(p, m)),
            0 <= lo <= 64,
            forall|s: int| #[trigger] in_bb(captures, s) == (in_bb(orig, s) && s >= lo),
            appended(old_seq, moves@, |m: Move| target(m) && m.to_sq() < lo),
        decreases 64 - lo,
    {
        let ghost before = captures;
        let ghost mid = moves@;
        let to = pop_lsb(&mut captures);
        let ghost seg: spec_fn(Move) -> bool = |m: Move|
            m.from_sq() == from && m.to_sq() == to && if to / 8 == promo {
                12 <= m.flag_of() <= 15
            } else {
                m.flag_of() == 4
            };
        if to / 8 == promo {
            push_promotions(moves, from, to, true);
            proof {
                lemma_appended_same(
                    mid,
                    moves@,
                    |m: Move| m.from_sq() == from && m.to_sq() == to && 12 <= m.flag_of() <= 15,
                    seg,
                );
            }
        } else {
            let mv = Move::new(from, to, flag::CAPTURE);
            push_one(moves, mv);
            proof {
                assert forall|m: Move| (m == mv) == #[trigger] seg(m) by {
                    if seg(m) {
                        lemma_move_fields_eq(m, mv);
                    }
                }
                lemma_appended_same(mid, moves@, |m: Move| m == mv, seg);
            }
        }
        proof {
            let prev = |m: Move| target(m) && m.to_sq() < lo;
            lemma_appended_chain(old_seq, mid, moves@, prev, seg);
            assert forall|m: Move| (#[trigger] prev(m) || seg(m)) == (target(m) && m.to_sq() < to
                + 1) by {
                if target(m) {
                    assert(pawn_capture_move(p, m));
                    assert(color_at(p, m.to_sq(), us.opp()));
                    assert(in_bb(board.occ_bb(us.opp()), m.to_sq()));
                    assert(in_bb(attacks, m.to_sq()));
                }
                if target(m) && lo <= m.to_sq() < to {
                    assert(in_bb(orig, m.to_sq()));
                    assert(in_bb(before, m.to_sq()));
                }
                if target(m) && m.to_sq() == to {
                    assert(m.from_sq() == from);
                    assert(if to / 8 == promo {
                        12 <= m.flag_of() <= 15
                    } else {
                        m.flag_of() == 4
                    });
                    assert(seg(m));
                }
                if seg(m) {
                    assert(in_bb(orig, to as int));
                }
            }
            lemma_appended_same(
                old_seq,
                moves@,
                |m: Move| prev(m) || seg(m),
                |m: Move| target(m) && m.to_sq() < to + 1,
            );
            lo = to + 1;
        }
    }
    proof {
        crate::types::lemma_empty_iff_zero(captures);
        assert forall|m: Move| (target(m) && m.to_sq() < lo) == #[trigger] target(m) by {
            lemma_move_bounds(m);
            if target(m) && m.to_sq() >= lo {
                assert(in_bb(orig, m.to_sq()));
                assert(in_bb(captures, m.to_sq()));
            }
        }
        lemma_appended_same(old_seq, moves@, |m: Move| target(m) && m.to_sq() < lo, target);
    }
}

fn pawn_en_passant(board: &Board, us: Color, from: Square, moves: &mut Vec<Move>)
    requires
        board.bits_ok(),
        us == board@.side,
        from < 64,
        board@.en_passant matches Some(e) ==> e < 64,
    ensures
        appended(
            old(moves)@,
            final(moves)@,
            |m: Move| m.from_sq() == from && pawn_ep_move(board@, m),
        ),
{
    let ghost p = board@;
    let ghost s0 = moves@;
    let ghost target: spec_fn(Move) -> bool = |m: Move| m.from_sq() == from && pawn_ep_move(p, m);
    if let Some(ep_square) = board.en_passant() {
        let attacks = pawn_attacks(us, from);
        let ep_bit = square_bb(ep_square);
        if attacks & ep_bit != 0 {
            let mv = Move::new(from, ep_square, flag::EN_PASSANT);
            push_one(moves, mv);
            proof {
                crate::types::lemma_empty_iff_zero(attacks & ep_bit);
                assert forall|m: Move| (m == mv) == #[trigger] target(m) by {
                    lemma_move_bounds(m);
                    if target(m) {
                        lemma_move_fields_eq(m, mv);
                    }
                }
                lemma_appended_same(s0, moves@, |m: Move| m == mv, target);
            }
        } else {
            proof {
                assert forall|m: Move| !#[trigger] target(m) by {
                    lemma_move_bounds(m);
                    if target(m) {
                        assert(in_bb(attacks & ep_bit, ep_square as int));
                    }
                }
                lemma_appended_none(s0, target);
            }
        }
    } else {
        proof {
            lemma_appended_none(s0, target);
        }
    }
}

fn generate_pawn_moves(board: &Board, us: Color, moves: &mut Vec<Move>)
    requires
        board.bits_ok(),
        us == board@.side,
        board@.en_passant matches Some(e) ==> e < 64,
        pawns_on_board(board@, us),
    ensures
        appended(old(moves)@, final(moves)@, |m: Move| pawn_move(board@, m)),
{
    let ghost p = board@;
    let ghost old_seq = moves@;
    let enemy = board.occupancy(us.opponent());
    let occupied = board.occupied();
    let empty = !occupied;
    let orig = board.pieces(us, PieceType::Pawn);
    let mut pawns = orig;
    let ghost mut lo: int = 0;
    proof {
        lemma_appended_none(old_seq, |m: Move| false);
    }
    while pawns != 0
        invariant
            board.bits_ok(),
            p == board@,
            us == p.side,
            p.en_passant matches Some(e) ==> e < 64,
            pawns_on_board(p, us),
            enemy == board.occ_bb(us.opp()),
            forall|s: int| #[trigger] in_bb(empty, s) == empty_at(p, s),
            orig == board.bb(us, PieceType::Pawn),
            0 <= lo <= 64,
            forall|s: int| #[trigger] in_bb(pawns, s) == (in_bb(orig, s) && s >= lo),
            appended(old_seq, moves@, |m: Move| pawn_move(p, m) && m.from_sq() < lo),
        decreases 64 - lo,
    {
        let ghost before = pawns;
        let ghost s1 = moves@;
        let from = pop_lsb(&mut pawns);
        proof {
            assert(holds(p, from as int, us, PieceType::Pawn));
        }
        pawn_pushes(board, us, from, empty, moves);
        let ghost s2 = moves@;
        pawn_captures(board, us, from, enemy, moves);
        let ghost s3 = moves@;
        pawn_en_passant(board, us, from, moves);
        proof {
            let a = |m: Move| m.from_sq() == from && pawn_push_move(p, m);
            let b = |m: Move| m.from_sq() == from && pawn_capture_move(p, m);
            let c = |m: Move| m.from_sq() == from && pawn_ep_move(p, m);
            lemma_appended_chain(s1, s2, s3, a, b);
            let ab = |m: Move| a(m) || b(m);
            lemma_appended_chain(s1, s3, moves@, ab, c);
            let seg = |m: Move| ab(m) || c(m);
            let prev = |m: Move| pawn_move(p, m) && m.from_sq() < lo;
            lemma_appended_chain(old_seq, s1, moves@, prev, seg);
            assert forall|m: Move| (#[trigger] prev(m) || seg(m)) == (pawn_move(p, m) && m.from_sq()
                < from + 1) by {
                if pawn_move(p, m) && lo <= m.from_sq() < from {
                    assert(in_bb(orig, m.from_sq()));
                    assert(in_bb(before, m.from_sq()));
                }
            }
            lemma_appended_same(
                old_seq,
                moves@,
                |m: Move| prev(m) || seg(m),
                |m: Move| pawn_move(p, m) && m.from_sq() < from + 1,
            );
            lo = from + 1;
        }
    }
    proof {
        crate::types::lemma_empty_iff_zero(pawns);
        assert forall|m: Move| (pawn_move(p, m) && m.from_sq() < lo) == #[trigger] pawn_move(p, m) by {
            lemma_move_bounds(m);
            if pawn_move(p, m) && m.from_sq() >= lo {
                assert(in_bb(orig, m.from_sq()));
                assert(in_bb(pawns, m.from_sq()));
            }
        }
        lemma_appended_same(
            old_seq,
            moves@,
            |m: Move| pawn_move(p, m) && m.from_sq() < lo,
            |m: Move| pawn_move(p, m),
        );
    }
}

/// The king's home square of `us`.
pub open spec fn home_square(us: Color) -> int {
    if us == Color::White {
        4
    } else {
        60
    }
}

/// The castling-rights bits of `us` (king side, queen side).
pub open spec fn castle_bits(us: Color) -> (u8, u8) {
    if us == Color::White {
        (1u8, 2u8)
    } else {
        (4u8, 8u8)
    }
}

/// A castle of the side to move: the king's home square is not attacked, the
/// right is held, the squares between king and rook are empty, and the
/// squares the king crosses are not attacked.
pub open spec fn castle_move(p: Position, m: Move) -> bool {
    let us = p.side;
    let them = us.opp();
    let home = home_square(us);
    let (kingside, queenside) = castle_bits(us);
    &&& m.from_sq() == home
    &&& !attacked(p, home, them)
    &&& {
        ||| m.flag_of() == 2 && m.to_sq() == home + 2 && p.castling & kingside != 0 && empty_at(
            p,
            home + 1,
        ) && empty_at(p, home + 2) && !attacked(p, home + 1, them) && !attacked(p, home + 2, them)
        ||| m.flag_of() == 3 && m.to_sq() == home - 2 && p.castling & queenside != 0 && empty_at(
            p,
            home - 1,
        ) && empty_at(p, home - 2) && empty_at(p, home - 3) && !attacked(p, home - 1, them)
            && !attacked(p, home - 2, them)
    }
}

fn generate_castling(board: &Board, us: Color, moves: &mut Vec<Move>)
    requires
        board.bits_ok(),
        us == board@.side,
    ensures
        appended(old(moves)@, final(moves)@, |m: Move| castle_move(board@, m)),
        final(moves)@.len() == old(moves)@.len() + 2 ==> final(moves)@[old(moves)@.len() as int].flag_of()
            == 2,
{
    let ghost p = board@;
    let ghost s0 = moves@;
    let them = us.opponent();
    let king_square: Square = if us == Color::White {
        4
    } else {
        60
    };
    if is_square_attacked(board, king_square, them) {
        proof {
            assert forall|m: Move| !#[trigger] castle_move(p, m) by {}
            lemma_appended_none(s0, |m: Move| castle_move(p, m));
        }
        return ;
    }
    let occupied = board.occupied();
    let rights = board.castling_rights();
    let (kingside, queenside): (u8, u8) = if us == Color::White {
        (1, 2)
    } else {
        (4, 8)
    };
    let ghost ks: spec_fn(Move) -> bool = |m: Move| m.flag_of() == 2 && castle_move(p, m);
    let ghost qs: spec_fn(Move) -> bool = |m: Move| m.flag_of() == 3 && castle_move(p, m);
    let (bishop_square, knight_square): (u8, u8) = if us == Color::White {
        (5, 6)
    } else {
        (61, 62)
    };
    let between = square_bb(bishop_square) | square_bb(knight_square);
    if rights & kingside != 0 && occupied & between == 0 && !is_square_attacked(
        board,
        bishop_square,
        them,
    ) && !is_square_attacked(board, knight_square, them) {
        let mv = Move::new(king_square, knight_square, flag::KING_CASTLE);
        push_one(moves, mv);
        proof {
            crate::types::lemma_empty_iff_zero(occupied & between);
            assert(!in_bb(occupied & between, bishop_square as int));
            assert(!in_bb(occupied & between, knight_square as int));
            assert forall|m: Move| (m == mv) == #[trigger] ks(m) by {
                if ks(m) {
                    lemma_move_fields_eq(m, mv);
                }
            }
            lemma_appended_same(s0, moves@, |m: Move| m == mv, ks);
        }
    } else {
        proof {
            crate::types::lemma_empty_iff_zero(occupied & between);
            assert forall|m: Move| !#[trigger] ks(m) by {
                if ks(m) {
                    assert(!in_bb(occupied, bishop_square as int));
                    assert(!in_bb(occupied, knight_square as int));
                    assert forall|s: int| !#[trigger] in_bb(occupied & between, s) by {}
                }
            }
            lemma_appended_none(s0, ks);
        }
    }
    let ghost s1 = moves@;
    assert(s1.len() == s0.len() + 1 ==> s1[s0.len() as int].flag_of() == 2);
    assert(s1.len() <= s0.len() + 1);
    let (queen_square, bishop_square, knight_square): (u8, u8, u8) = if us == Color::White {
        (3, 2, 1)
    } else {
        (59, 58, 57)
    };
    let between = square_bb(queen_square) | square_bb(bishop_square) | square_bb(knight_square);
    if rights & queenside != 0 && occupied & between == 0 && !is_square_attacked(
        board,
        queen_square,
        them,
    ) && !is_square_attacked(board, bishop_square, them) {
        let mv = Move::new(king_square, bishop_square, flag::QUEEN_CASTLE);
        push_one(moves, mv);
        proof {
            crate::types::lemma_empty_iff_zero(occupied & between);
            assert(!in_bb(occupied & between, queen_square as int));
            assert(!in_bb(occupied & between, bishop_square as int));
            assert(!in_bb(occupied & between, knight_square as int));
            assert forall|m: Move| (m == mv) == #[trigger] qs(m) by {
                if qs(m) {
                    lemma_move_fields_eq(m, mv);
                }
            }
            lemma_appended_same(s1, moves@, |m: Move| m == mv, qs);
        }
    } else {
        proof {
            crate::types::lemma_empty_iff_zero(occupied & between);
            assert forall|m: Move| !#[trigger] qs(m) by {
                if qs(m) {
                    assert(!in_bb(occupied, queen_square as int));
                    assert(!in_bb(occupied, bishop_square as int));
                    assert(!in_bb(occupied, knight_square as int));
                    assert forall|s: int| !#[trigger] in_bb(occupied & between, s) by {}
                }
            }
            lemma_appended_none(s1, qs);
        }
    }
    proof {
        lemma_appended_chain(s0, s1, moves@, ks, qs);
        assert forall|m: Move| (ks(m) || qs(m)) == #[trigger] castle_move(p, m) by {}
        lemma_appended_same(s0, moves@, |m: Move| ks(m) || qs(m), |m: Move| castle_move(p, m));
    }
}

/// The lowest square at or above `s` holding `c`'s piece of kind `t`, or 64.
pub open spec fn first_piece(p: Position, c: Color, t: PieceType, s: int) -> int
    decreases 64 - s,
{
    if s >= 64 {
        64
    } else if holds(p, s, c, t) {
        s
    } else {
        first_piece(p, c, t, s + 1)
    }
}

/// The square of `c`'s king (its lowest one, or 64 if it has none).
pub open spec fn king_square_of(p: Position, c: Color) -> int {
    first_piece(p, c, PieceType::King, 0)
}

pub proof fn lemma_first_piece(p: Position, c: Color, t: PieceType, s: int, r: int)
    requires
        0 <= s <= r <= 64,
        forall|x: int| s <= x < r ==> !#[trigger] holds(p, x, c, t),
        r < 64 ==> holds(p, r, c, t),
    ensures
        first_piece(p, c, t, s) == r,
    decreases r - s,
{
    if s < r {
        lemma_first_piece(p, c, t, s + 1, r);
    }
}

/// The board's king square is the position's.
pub proof fn lemma_king_square(board: Board, c: Color)
    requires
        board.bits_ok(),
    ensures
        vstd::std_specs::bits::u64_trailing_zeros(board.bb(c, PieceType::King)) == king_square_of(
            board@,
            c,
        ),
        board.bb(c, PieceType::King) != 0 <==> king_square_of(board@, c) < 64,
{
    let b = board.bb(c, PieceType::King);
    vstd::std_specs::bits::axiom_u64_trailing_zeros(b);
    let r = vstd::std_specs::bits::u64_trailing_zeros(b) as int;
    if b != 0 {
        let t = crate::types::u64_trailing_zeros_of(b);
        assert forall|x: int| 0 <= x < r implies !#[trigger] holds(board@, x, c, PieceType::King) by {
            assert(!in_bb(b, x));
        }
        assert(in_bb(b, r));
        lemma_first_piece(board@, c, PieceType::King, 0, r);
    } else {
        assert forall|x: int| 0 <= x < 64 implies !#[trigger] holds(board@, x, c, PieceType::King) by {
            crate::types::lemma_empty_iff_zero(b);
            assert(!in_bb(b, x));
        }
        lemma_first_piece(board@, c, PieceType::King, 0, 64);
    }
}

/// A move of the side to move's king (the one on its king square).
pub open spec fn king_move(p: Position, m: Move) -> bool {
    plain_move(p, m, PieceType::King) && m.from_sq() == king_square_of(p, p.side)
}

/// A pseudo-legal move: one the pieces of the side to move may make by their
/// movement rules, before checking that the king is left safe.
pub open spec fn pseudo_move(p: Position, m: Move) -> bool {
    ||| pawn_move(p, m)
    ||| plain_move(p, m, PieceType::Knight)
    ||| plain_move(p, m, PieceType::Bishop)
    ||| plain_move(p, m, PieceType::Rook)
    ||| plain_move(p, m, PieceType::Queen)
    ||| king_move(p, m)
    ||| castle_move(p, m)
}

proof fn lemma_pawn_flags(p: Position, m: Move)
    requires
        pawn_move(p, m),
    ensures
        m.flag_of() != 2 && m.flag_of() != 3,
{
}

fn generate_pseudo_legal(board: &Board, moves: &mut Vec<Move>)
    requires
        board.bits_ok(),
        board@.en_passant matches Some(e) ==> e < 64,
        pawns_on_board(board@, board@.side),
        board.bb(board@.side, PieceType::King) != 0,
    ensures
        appended(old(moves)@, final(moves)@, |m: Move| pseudo_move(board@, m)),
{
    let ghost p = board@;
    let us = board.side_to_move();
    let ghost s0 = moves@;
    generate_pawn_moves(board, us, moves);
    let ghost s1 = moves@;
    generate_knight_moves(board, us, moves);
    let ghost s2 = moves@;
    generate_slider_moves(board, us, PieceType::Bishop, moves);
    let ghost s3 = moves@;
    generate_slider_moves(board, us, PieceType::Rook, moves);
    let ghost s4 = moves@;
    generate_slider_moves(board, us, PieceType::Queen, moves);
    let ghost s5 = moves@;
    generate_king_moves(board, us, moves);
    let ghost s6 = moves@;
    generate_castling(board, us, moves);
    proof {
        lemma_king_square(*board, us);
        let a = |m: Move| pawn_move(p, m);
        let b = |m: Move| plain_move(p, m, PieceType::Knight);
        let c = |m: Move| plain_move(p, m, PieceType::Bishop);
        let d = |m: Move| plain_move(p, m, PieceType::Rook);
        let e = |m: Move| plain_move(p, m, PieceType::Queen);
        let f = |m: Move| king_move(p, m);
        let g = |m: Move| castle_move(p, m);
        lemma_appended_same(
            s4,
            s5,
            |m: Move| plain_move(board@, m, PieceType::Queen),
            e,
        );
        lemma_appended_same(
            s5,
            s6,
            |m: Move|
                plain_move(board@, m, PieceType::King) && m.from_sq()
                    == vstd::std_specs::bits::u64_trailing_zeros(board.bb(us, PieceType::King)),
            f,
        );
        lemma_appended_chain(s0, s1, s2, a, b);
        let ab = |m: Move| a(m) || b(m);
        lemma_appended_chain(s0, s2, s3, ab, c);
        let abc = |m: Move| ab(m) || c(m);
        lemma_appended_chain(s0, s3, s4, abc, d);
        let abcd = |m: Move| abc(m) || d(m);
        lemma_appended_chain(s0, s4, s5, abcd, e);
        let abcde = |m: Move| abcd(m) || e(m);
        lemma_appended_chain(s0, s5, s6, abcde, f);
        let abcdef = |m: Move| abcde(m) || f(m);
        assert forall|m: Move| !(#[trigger] abcdef(m) && g(m)) by {
            if pawn_move(p, m) {
                lemma_pawn_flags(p, m);
            }
        }
        lemma_appended_chain(s0, s6, moves@, abcdef, g);
        lemma_appended_same(
            s0,
            moves@,
            |m: Move| abcdef(m) || g(m),
            |m: Move| pseudo_move(board@, m),
        );
    }
}

/// `c` has exactly one king.
pub open spec fn one_king(p: Position, c: Color) -> bool {
    &&& king_square_of(p, c) < 64
    &&& forall|s: int| #[trigger] holds(p, s, c, PieceType::King) ==> s == king_square_of(p, c)
}

/// Each castling right held has its king and rook on their home squares.
pub open spec fn castling_consistent(p: Position) -> bool {
    &&& p.castling & 1 != 0 ==> holds(p, 4, Color::White, PieceType::King) && holds(
        p,
        7,
        Color::White,
        PieceType::Rook,
    )
    &&& p.castling & 2 != 0 ==> holds(p, 4, Color::White, PieceType::King) && holds(
        p,
        0,
        Color::White,
        PieceType::Rook,
    )
    &&& p.castling & 4 != 0 ==> holds(p, 60, Color::Black, PieceType::King) && holds(
        p,
        63,
        Color::Black,
        PieceType::Rook,
    )
    &&& p.castling & 8 != 0 ==> holds(p, 60, Color::Black, PieceType::King) && holds(
        p,
        56,
        Color::Black,
        PieceType::Rook,
    )
}

/// A pawn of the side to move could capture en passant onto `e`.
pub open spec fn ep_capturable(p: Position, e: int) -> bool {
    exists|s: int| #[trigger] holds(p, s, p.side, PieceType::Pawn) && pawn_target(p.side, s, e)
}

/// An en-passant square that a pawn of the side to move could capture onto is
/// empty, on the rank behind a pawn that just made a double push, with that
/// pawn in front of it. A square no pawn can capture onto is never played.
pub open spec fn en_passant_consistent(p: Position) -> bool {
    p.en_passant matches Some(e) ==> ep_capturable(p, e as int) ==> {
        &&& empty_at(p, e as int)
        &&& e / 8 == if p.side == Color::White {
            5int
        } else {
            2int
        }
        &&& holds(p, crate::board::ep_victim_square(p.side, e as int), p.side.opp(), PieceType::Pawn)
    }
}

/// A position legal play can reach and move generation relies on: each side
/// has one king, no pawn stands on its last rank, castling rights and the
/// en-passant square agree with the pieces, and the side not to move is not
/// in check.
pub open spec fn position_valid(p: Position) -> bool {
    &&& p.squares.len() == 64
    &&& p.castling < 16
    &&& p.en_passant matches Some(e) ==> e < 64
    &&& one_king(p, Color::White)
    &&& one_king(p, Color::Black)
    &&& pawns_on_board(p, Color::White)
    &&& pawns_on_board(p, Color::Black)
    &&& castling_consistent(p)
    &&& en_passant_consistent(p)
    &&& !attacked(p, king_square_of(p, p.side.opp()), p.side)
}

/// Both kings stand on the board of a valid position.
pub proof fn lemma_kings_present(p: Position)
    requires
        position_valid(p),
    ensures
        king_square_of(p, Color::White) < 64,
        king_square_of(p, Color::Black) < 64,
        king_square_of(p, p.side) < 64,
{
}

/// The clocks can count `n` more moves.
pub open spec fn clock_room(p: Position, n: int) -> bool {
    p.halfmove + n < 0xFFFF && p.fullmove + n < 0xFFFF
}

/// Whether `c`'s piece of kind `t` stands on `s`.
fn holds_at(board: &Board, s: Square, c: Color, t: PieceType) -> (r: bool)
    requires
        s < 64,
    ensures
        r == holds(board@, s as int, c, t),
{
    match board.piece_at(s) {
        Some(piece) => piece.color == c && piece.piece_type == t,
        None => false,
    }
}

/// Whether `c` has exactly one king.
fn single_king(board: &Board, c: Color) -> (r: bool)
    requires
        board.bits_ok(),
    ensures
        r == one_king(board@, c),
{
    let ghost p = board@;
    let ghost b = board.bb(c, PieceType::King);
    proof {
        lemma_king_square(*board, c);
    }
    let mut kings = board.pieces(c, PieceType::King);
    if kings == 0 {
        return false;
    }
    let first = pop_lsb(&mut kings);
    proof {
        vstd::std_specs::bits::axiom_u64_trailing_zeros(b);
    }
    if kings == 0 {
        proof {
            assert forall|s: int| #[trigger] holds(p, s, c, PieceType::King) implies s
                == king_square_of(p, c) by {
                assert(in_bb(b, s));
                assert(!in_bb(kings, s));
            }
        }
        true
    } else {
        let second = crate::types::lsb(kings);
        proof {
            assert(in_bb(b, second as int));
            assert(holds(p, second as int, c, PieceType::King));
        }
        false
    }
}

/// Whether no pawn of `c` stands on the rank it would move off the board from.
fn pawns_clear_of_last_rank(board: &Board, c: Color) -> (r: bool)
    requires
        board.bits_ok(),
    ensures
        r == pawns_on_board(board@, c),
{
    let ghost p = board@;
    let base: Square = if c == Color::White {
        56
    } else {
        0
    };
    let mut i: Square = 0;
    while i < 8
        invariant
            i <= 8,
            p == board@,
            base == if c == Color::White {
                56int
            } else {
                0int
            },
            forall|k: int| 0 <= k < i ==> !#[trigger] holds(p, base + k, c, PieceType::Pawn),
        decreases 8 - i,
    {
        if holds_at(board, base + i, c, PieceType::Pawn) {
            proof {
                assert(holds(p, (base + i) as int, c, PieceType::Pawn));
            }
            return false;
        }
        i = i + 1;
    }
    proof {
        assert forall|s: int| #[trigger] holds(p, s, c, PieceType::Pawn) implies 0 <= ahead(c, s)
            < 64 by {
            if !(0 <= ahead(c, s) < 64) {
                assert(holds(p, base + (s - base), c, PieceType::Pawn));
            }
        }
    }
    true
}

/// Whether every castling right held has its king and rook at home.
fn castling_rights_consistent(board: &Board) -> (r: bool)
    requires
        board.bits_ok(),
    ensures
        r == castling_consistent(board@),
{
    let rights = board.castling_rights();
    (rights & 1 == 0 || (holds_at(board, 4, Color::White, PieceType::King) && holds_at(
        board,
        7,
        Color::White,
        PieceType::Rook,
    ))) && (rights & 2 == 0 || (holds_at(board, 4, Color::White, PieceType::King) && holds_at(
        board,
        0,
        Color::White,
        PieceType::Rook,
    ))) && (rights & 4 == 0 || (holds_at(board, 60, Color::Black, PieceType::King) && holds_at(
        board,
        63,
        Color::Black,
        PieceType::Rook,
    ))) && (rights & 8 == 0 || (holds_at(board, 60, Color::Black, PieceType::King) && holds_at(
        board,
        56,
        Color::Black,
        PieceType::Rook,
    )))
}

/// Whether the en-passant square, if any, lies behind a pawn that just made a
/// double push.
fn en_passant_square_consistent(board: &Board) -> (r: bool)
    requires
        board.wf(),
    ensures
        r == en_passant_consistent(board@),
{
    match board.en_passant() {
        None => true,
        Some(e) => {
            let us = board.side_to_move();
            let ghost p = board@;
            // A pawn of `us` attacks `e` from where a pawn of the other color
            // on `e` would attack.
            let reach = pawn_attacks(us.opponent(), e);
            let attackers = reach & board.pieces(us, PieceType::Pawn);
            proof {
                crate::attacks::lemma_meet(reach, board.bb(us, PieceType::Pawn));
                if ep_capturable(p, e as int) {
                    let s = choose|s: int|
                        #[trigger] holds(p, s, us, PieceType::Pawn) && pawn_target(us, s, e as int);
                    assert(in_bb(board.bb(us, PieceType::Pawn), s));
                    assert(pawn_target(us.opp(), e as int, s));
                    assert(in_bb(reach, s));
                }
                if attackers != 0 {
                    let s = choose|s: int|
                        in_bb(reach, s) && in_bb(board.bb(us, PieceType::Pawn), s);
                    assert(holds(p, s, us, PieceType::Pawn));
                    assert(pawn_target(us, s, e as int));
                }
            }
            if attackers == 0 {
                return true;
            }
            if us == Color::White {
                e / 8 == 5 && board.piece_at(e).is_none() && holds_at(
                    board,
                    e - 8,
                    Color::Black,
                    PieceType::Pawn,
                )
            } else {
                e / 8 == 2 && board.piece_at(e).is_none() && holds_at(
                    board,
                    e + 8,
                    Color::White,
                    PieceType::Pawn,
                )
            }
        },
    }
}

/// Whether the position is one move generation and search rely on, with the
/// clocks able to count `plies` more moves.
pub fn is_playable(board: &Board, plies: u16) -> (r: bool)
    requires
        board.wf(),
    ensures
        r == (position_valid(board@) && clock_room(board@, plies as int)),
{
    let ghost p = board@;
    if !(single_king(board, Color::White) && single_king(board, Color::Black)) {
        return false;
    }
    if !(pawns_clear_of_last_rank(board, Color::White) && pawns_clear_of_last_rank(
        board,
        Color::Black,
    )) {
        return false;
    }
    if !(castling_rights_consistent(board) && en_passant_square_consistent(board)) {
        return false;
    }
    let us = board.side_to_move();
    let them = us.opponent();
    proof {
        lemma_king_square(*board, them);
    }
    let their_king = board.king_square(them);
    if is_square_attacked(board, their_king, us) {
        return false;
    }
    (board.halfmove_clock() as u32) + (plies as u32) < 0xFFFF && (board.fullmove_number() as u32)
        + (plies as u32) < 0xFFFF
}

/// A legal move: pseudo-legal, and the mover's king is not attacked after it.
pub open spec fn legal_move(p: Position, m: Move) -> bool {
    let q = crate::board::make_spec(p, m);
    pseudo_move(p, m) && !attacked(q, king_square_of(q, p.side), p.side.opp())
}

proof fn lemma_first_piece_bound(p: Position, c: Color, t: PieceType, s: int, x: int)
    requires
        0 <= s <= x < 64,
        holds(p, x, c, t),
    ensures
        first_piece(p, c, t, s) <= x,
    decreases x - s,
{
    if s < x && !holds(p, s, c, t) {
        lemma_first_piece_bound(p, c, t, s + 1, x);
    }
}

pub proof fn lemma_first_piece_holds(p: Position, c: Color, t: PieceType, s: int)
    requires
        0 <= s,
        first_piece(p, c, t, s) < 64,
    ensures
        holds(p, first_piece(p, c, t, s), c, t),
    decreases 64 - s,
{
    if s < 64 && !holds(p, s, c, t) {
        lemma_first_piece_holds(p, c, t, s + 1);
    }
}

/// In a valid position a pseudo-legal move can be played.
pub proof fn lemma_pseudo_applicable(p: Position, m: Move)
    requires
        position_valid(p),
        clock_room(p, 1),
        pseudo_move(p, m),
    ensures
        crate::board::move_applicable(p, m),
{
    lemma_move_bounds(m);
    let us = p.side;
    if pawn_move(p, m) && pawn_ep_move(p, m) {
        assert(holds(p, m.from_sq(), us, PieceType::Pawn) && pawn_target(us, m.from_sq(), m.to_sq()));
        assert(ep_capturable(p, m.to_sq()));
    }
    if castle_move(p, m) {
        let home = home_square(us);
        if us == Color::White {
            assert(holds(p, 4, Color::White, PieceType::King));
        } else {
            assert(holds(p, 60, Color::Black, PieceType::King));
        }
    }
}

/// After a pseudo-legal move in a valid position the mover still has a king.
pub proof fn lemma_king_survives(p: Position, m: Move)
    requires
        position_valid(p),
        pseudo_move(p, m),
    ensures
        king_square_of(crate::board::make_spec(p, m), p.side) < 64,
{
    lemma_move_bounds(m);
    let us = p.side;
    let q = crate::board::make_spec(p, m);
    let k = king_square_of(p, us);
    lemma_first_piece_holds(p, us, PieceType::King, 0);
    let from = m.from_sq();
    let to = m.to_sq();
    if from == k {
        assert(!castle_move(p, m) ==> m.promotion_spec() is None);
        assert(holds(q, to, us, PieceType::King));
        lemma_first_piece_bound(q, us, PieceType::King, 0, to);
    } else {
        if castle_move(p, m) {
            if us == Color::White {
                assert(holds(p, 4, Color::White, PieceType::King));
            } else {
                assert(holds(p, 60, Color::Black, PieceType::King));
            }
        }
        assert(holds(q, k, us, PieceType::King));
        lemma_first_piece_bound(q, us, PieceType::King, 0, k);
    }
}

/// Every legal move for the side to move.
pub fn generate_legal(board: &mut Board) -> (legal: Vec<Move>)
    requires
        old(board).wf(),
        position_valid(old(board)@),
        clock_room(old(board)@, 1),
    ensures
        *final(board) == *old(board),
        forall|m: Move| #[trigger] legal@.contains(m) == legal_move(old(board)@, m),
        legal@.no_duplicates(),
{
    let ghost orig = *board;
    let ghost p = board@;
    let mut pseudo: Vec<Move> = Vec::with_capacity(48);
    proof {
        lemma_king_square(*board, p.side);
    }
    generate_pseudo_legal(board, &mut pseudo);
    proof {
        assert(pseudo@.skip(0) =~= pseudo@);
    }
    let us = board.side_to_move();
    let opponent = us.opponent();
    let mut legal: Vec<Move> = Vec::with_capacity(pseudo.len());
    let mut i: usize = 0;
    while i < pseudo.len()
        invariant
            *board == orig,
            orig.wf(),
            p == orig@,
            position_valid(p),
            clock_room(p, 1),
            us == p.side,
            opponent == us.opp(),
            i <= pseudo@.len(),
            forall|m: Move| #[trigger] pseudo@.contains(m) == pseudo_move(p, m),
            pseudo@.no_duplicates(),
            forall|m: Move| #[trigger]
                legal@.contains(m) == (pseudo@.take(i as int).contains(m) && legal_move(p, m)),
            legal@.no_duplicates(),
        decreases pseudo@.len() - i,
    {
        let mv = pseudo[i];
        proof {
            assert(pseudo@.contains(mv));
            lemma_pseudo_applicable(p, mv);
            lemma_king_survives(p, mv);
        }
        let undo = board.make_move(mv);
        proof {
            lemma_king_square(*board, us);
        }
        let king = board.king_square(us);
        let attacked_now = is_square_attacked(board, king, opponent);
        let ghost before = legal@;
        if !attacked_now {
            legal.push(mv);
        }
        proof {
            crate::board::law_unmake_undoes_make(p, mv, undo);
        }
        let ghost b1 = *board;
        board.unmake_move(mv, undo);
        proof {
            crate::board::law_make_unmake_restores_board(orig, b1, *board, mv, undo);
            assert(pseudo@.take(i + 1) =~= pseudo@.take(i as int).push(mv));
            assert(!pseudo@.take(i as int).contains(mv)) by {
                if pseudo@.take(i as int).contains(mv) {
                    let j = choose|j: int| 0 <= j < i && pseudo@.take(i as int)[j] == mv;
                    assert(pseudo@[j] == pseudo@[i as int]);
                }
            }
            assert forall|m: Move| #[trigger]
                legal@.contains(m) == (pseudo@.take(i + 1).contains(m) && legal_move(p, m)) by {
                lemma_push_contains(pseudo@.take(i as int), mv, m);
                if !attacked_now {
                    lemma_push_contains(before, mv, m);
                }
            }
            if !attacked_now {
                assert(!before.contains(mv));
                assert forall|a: int, b: int|
                    0 <= a < legal@.len() && 0 <= b < legal@.len() && a != b implies legal@[a]
                    != legal@[b] by {
                    if a == before.len() {
                        assert(before.contains(legal@[b]));
                    } else if b == before.len() {
                        assert(before.contains(legal@[a]));
                    } else {
                        assert(legal@[a] == before[a] && legal@[b] == before[b]);
                    }
                }
            }
        }
        i = i + 1;
    }
    proof {
        assert(pseudo@.take(pseudo@.len() as int) =~= pseudo@);
        assert forall|m: Move| #[trigger] legal@.contains(m) == legal_move(p, m) by {}
    }
    legal
}

proof fn lemma_keep_bits(a: u8, b: u8, c: u8, bit: u8)
    by (bit_vector)
    requires
        c <= 15,
        bit == 1 || bit == 2 || bit == 4 || bit == 8,
    ensures
        a & b & c <= 15,
        (a & b & c) & bit != 0 ==> a & bit != 0 && b & bit != 0 && c & bit != 0,
{
}

proof fn lemma_keep_table()
    by (bit_vector)
    ensures
        13u8 & 1u8 != 0 && 13u8 & 2u8 == 0 && 13u8 & 4u8 != 0 && 13u8 & 8u8 != 0,
        12u8 & 1u8 == 0 && 12u8 & 2u8 == 0 && 12u8 & 4u8 != 0 && 12u8 & 8u8 != 0,
        14u8 & 1u8 == 0 && 14u8 & 2u8 != 0 && 14u8 & 4u8 != 0 && 14u8 & 8u8 != 0,
        7u8 & 1u8 != 0 && 7u8 & 2u8 != 0 && 7u8 & 4u8 != 0 && 7u8 & 8u8 == 0,
        3u8 & 1u8 != 0 && 3u8 & 2u8 != 0 && 3u8 & 4u8 == 0 && 3u8 & 8u8 == 0,
        11u8 & 1u8 != 0 && 11u8 & 2u8 != 0 && 11u8 & 4u8 == 0 && 11u8 & 8u8 != 0,
        15u8 & 1u8 != 0 && 15u8 & 2u8 != 0 && 15u8 & 4u8 != 0 && 15u8 & 8u8 != 0,
{
}

/// A pseudo-legal move onto an occupied square captures an enemy piece it attacks.
proof fn lemma_capture_attacks(p: Position, m: Move)
    requires
        position_valid(p),
        pseudo_move(p, m),
        color_at(p, m.to_sq(), p.side.opp()),
    ensures
        attacked(p, m.to_sq(), p.side),
{
    lemma_move_bounds(m);
    assert(attacks_from_square(p, m.from_sq(), p.side, m.to_sq()));
}

/// The piece on `s` (of color `by`) attacks `sq`.
spec fn attacks_from_square(p: Position, s: int, by: Color, sq: int) -> bool {
    crate::attacks::attacks_from(p, s, by, sq)
}

/// Legal play keeps a position valid: after any legal move of a valid
/// position (with room on the clocks), the new position is valid again.
pub proof fn law_legal_move_keeps_valid(p: Position, m: Move)
    requires
        position_valid(p),
        clock_room(p, 1),
        legal_move(p, m),
    ensures
        position_valid(crate::board::make_spec(p, m)),
{
    lemma_move_bounds(m);
    let us = p.side;
    let them = us.opp();
    let q = crate::board::make_spec(p, m);
    let from = m.from_sq();
    let to = m.to_sq();
    let f = m.flag_of();
    let k = king_square_of(p, us);
    let kt = king_square_of(p, them);
    lemma_first_piece_holds(p, us, PieceType::King, 0);
    lemma_first_piece_holds(p, them, PieceType::King, 0);
    lemma_pseudo_applicable(p, m);
    let moving = p.squares[from]->0.piece_type;
    let castle = f == 2 || f == 3;
    if castle_move(p, m) {
        if us == Color::White {
            assert(holds(p, 4, Color::White, PieceType::King));
        } else {
            assert(holds(p, 60, Color::Black, PieceType::King));
        }
    }
    // The castling rights.
    lemma_keep_bits(p.castling, crate::board::castling_keep(from), crate::board::castling_keep(to), 1);
    lemma_keep_bits(p.castling, crate::board::castling_keep(from), crate::board::castling_keep(to), 2);
    lemma_keep_bits(p.castling, crate::board::castling_keep(from), crate::board::castling_keep(to), 4);
    lemma_keep_bits(p.castling, crate::board::castling_keep(from), crate::board::castling_keep(to), 8);
    // The enemy king is never captured.
    if to == kt {
        lemma_capture_attacks(p, m);
        assert(false);
    }
    // Our king.
    let knew = if from == k {
        to
    } else {
        k
    };
    let victim = crate::board::ep_victim_square(us, to);
    let (rf, rt) = crate::board::castle_rook(us, f == 2);
    assert(holds(p, from, us, moving));
    assert forall|s: int| #[trigger] holds(q, s, us, PieceType::King) == (s == knew) by {
        if s == to {
            if from == k {
                assert(moving == PieceType::King);
            } else {
                assert(moving != PieceType::King);
            }
        } else if s == from {
        } else if castle && (s == rf || s == rt) {
        } else if f == 5 && s == victim {
        } else if 0 <= s < 64 {
            assert(q.squares[s] == p.squares[s]);
            assert(holds(p, s, us, PieceType::King) == (s == k));
        }
    }
    assert forall|s: int| #[trigger] holds(q, s, them, PieceType::King) == (s == kt) by {
        if s == to {
        } else if s == from {
        } else if castle && (s == rf || s == rt) {
        } else if f == 5 && s == victim {
        } else if 0 <= s < 64 {
            assert(q.squares[s] == p.squares[s]);
            assert(holds(p, s, them, PieceType::King) == (s == kt));
        }
    }
    assert forall|s: int| 0 <= s < knew implies !#[trigger] holds(q, s, us, PieceType::King) by {}
    assert forall|s: int| 0 <= s < kt implies !#[trigger] holds(q, s, them, PieceType::King) by {}
    lemma_first_piece(q, us, PieceType::King, 0, knew);
    lemma_first_piece(q, them, PieceType::King, 0, kt);
    assert(one_king(q, Color::White));
    assert(one_king(q, Color::Black));
    assert forall|s: int, c: Color| #[trigger] holds(q, s, c, PieceType::Pawn) implies 0 <= ahead(
        c,
        s,
    ) < 64 by {
        if s == to {
            assert(moving == PieceType::Pawn && m.promotion_spec() is None && c == us);
            assert(pawn_move(p, m));
            if pawn_ep_move(p, m) {
                assert(holds(p, from, us, PieceType::Pawn) && pawn_target(us, from, to));
                assert(ep_capturable(p, to));
                assert(en_passant_consistent(p));
            }
        } else if s == from {
        } else if castle && (s == rf || s == rt) {
        } else if f == 5 && s == victim {
        } else if 0 <= s < 64 {
            assert(q.squares[s] == p.squares[s]);
            assert(holds(p, s, c, PieceType::Pawn));
        }
    }
    assert(pawns_on_board(q, Color::White));
    assert(pawns_on_board(q, Color::Black));
    assert forall|h: int|
        (h == 0 || h == 4 || h == 7 || h == 56 || h == 60 || h == 63) && h != from && h != to
            && !(castle && (h == rf || h == rt)) && !(f == 5 && h == victim) implies #[trigger] q.squares[h]
        == p.squares[h] by {}
    if castle {
        assert(from == crate::movegen::home_square(us));
    }
    if f == 5 {
        assert(holds(p, from, us, PieceType::Pawn) && pawn_target(us, from, to));
        assert(ep_capturable(p, to));
        assert(holds(p, victim, them, PieceType::Pawn));
    }
    lemma_keep_table();
    let kf = crate::board::castling_keep(from);
    let kto = crate::board::castling_keep(to);
    if q.castling & 1 != 0 {
        assert(kf & 1 != 0 && kto & 1 != 0 && p.castling & 1 != 0);
        assert(from != 4 && from != 7 && to != 4 && to != 7);
        assert(q.squares[4] == p.squares[4] && q.squares[7] == p.squares[7]);
    }
    if q.castling & 2 != 0 {
        assert(kf & 2 != 0 && kto & 2 != 0 && p.castling & 2 != 0);
        assert(from != 4 && from != 0 && to != 4 && to != 0);
        assert(q.squares[4] == p.squares[4] && q.squares[0] == p.squares[0]);
    }
    if q.castling & 4 != 0 {
        assert(kf & 4 != 0 && kto & 4 != 0 && p.castling & 4 != 0);
        assert(from != 60 && from != 63 && to != 60 && to != 63);
        assert(q.squares[60] == p.squares[60] && q.squares[63] == p.squares[63]);
    }
    if q.castling & 8 != 0 {
        assert(kf & 8 != 0 && kto & 8 != 0 && p.castling & 8 != 0);
        assert(from != 60 && from != 56 && to != 60 && to != 56);
        assert(q.squares[60] == p.squares[60] && q.squares[56] == p.squares[56]);
    }
    assert(castling_consistent(q));
    assert(en_passant_consistent(q));
}

/// The number of leaf nodes of the tree of legal moves from `p`, `depth`
/// plies deep.
pub open spec fn perft_spec(p: Position, depth: nat) -> nat
    decreases depth, 65537int,
{
    if depth == 0 {
        1
    } else {
        moves_sum(p, depth, 0)
    }
}

/// The sum, over the legal moves of `p` whose 16-bit code is at least `x`, of
/// the leaf counts below them.
pub open spec fn moves_sum(p: Position, depth: nat, x: int) -> nat
    decreases depth, 65536 - x,
{
    if x >= 65536 || depth == 0 || x < 0 {
        0
    } else {
        let m = Move(x as u16);
        (if legal_move(p, m) {
            perft_spec(crate::board::make_spec(p, m), (depth - 1) as nat)
        } else {
            0
        }) + moves_sum(p, depth, x + 1)
    }
}

/// The leaf counts `depth` plies below each move of `s`, summed.
pub open spec fn children_sum(p: Position, s: Seq<Move>, depth: nat) -> nat
    decreases s.len(),
{
    if s.len() == 0 {
        0
    } else {
        children_sum(p, s.drop_last(), depth) + perft_spec(
            crate::board::make_spec(p, s.last()),
            depth,
        )
    }
}

proof fn lemma_children_remove(p: Position, s: Seq<Move>, depth: nat, j: int)
    requires
        0 <= j < s.len(),
    ensures
        children_sum(p, s, depth) == children_sum(p, s.remove(j), depth) + perft_spec(
            crate::board::make_spec(p, s[j]),
            depth,
        ),
    decreases s.len(),
{
    if j == s.len() - 1 {
        assert(s.remove(j) =~= s.drop_last());
    } else {
        lemma_children_remove(p, s.drop_last(), depth, j);
        assert(s.remove(j).drop_last() =~= s.drop_last().remove(j));
        assert(s.remove(j).last() == s.last());
    }
}

proof fn lemma_children_moves_sum(p: Position, s: Seq<Move>, depth: nat, x: int)
    requires
        depth >= 1,
        0 <= x <= 65536,
        s.no_duplicates(),
        forall|m: Move| #[trigger] s.contains(m) == (legal_move(p, m) && m.0 >= x),
    ensures
        children_sum(p, s, (depth - 1) as nat) == moves_sum(p, depth, x),
    decreases 65536 - x,
{
    if x == 65536 {
        if s.len() > 0 {
            assert(s.contains(s[0]));
        }
    } else {
        let mx = Move(x as u16);
        if legal_move(p, mx) {
            assert(s.contains(mx));
            let j = choose|j: int| 0 <= j < s.len() && s[j] == mx;
            let r = s.remove(j);
            assert forall|m: Move| #[trigger] r.contains(m) == (legal_move(p, m) && m.0 >= x + 1) by {
                if r.contains(m) {
                    let i = choose|i: int| 0 <= i < r.len() && r[i] == m;
                    if i < j {
                        assert(s[i] == m);
                    } else {
                        assert(s[i + 1] == m);
                    }
                    assert(s.contains(m));
                    if m.0 == x {
                        assert(m == mx);
                    }
                }
                if legal_move(p, m) && m.0 >= x + 1 {
                    assert(s.contains(m));
                    let i = choose|i: int| 0 <= i < s.len() && s[i] == m;
                    if i < j {
                        assert(r[i] == m);
                    } else {
                        assert(i != j);
                        assert(r[i - 1] == m);
                    }
                }
            }
            assert(r.no_duplicates());
            lemma_children_moves_sum(p, r, depth, x + 1);
            lemma_children_remove(p, s, (depth - 1) as nat, j);
        } else {
            assert forall|m: Move| #[trigger] s.contains(m) == (legal_move(p, m) && m.0 >= x + 1) by {
                if s.contains(m) && m.0 == x {
                    assert(m == mx);
                }
            }
            lemma_children_moves_sum(p, s, depth, x + 1);
        }
    }
}

proof fn lemma_children_count(p: Position, s: Seq<Move>)
    ensures
        children_sum(p, s, 0) == s.len(),
    decreases s.len(),
{
    if s.len() > 0 {
        lemma_children_count(p, s.drop_last());
    }
}

proof fn lemma_children_prefix(p: Position, s: Seq<Move>, depth: nat, i: int)
    requires
        0 <= i <= s.len(),
    ensures
        children_sum(p, s.take(i), depth) <= children_sum(p, s, depth),
    decreases s.len() - i,
{
    if i < s.len() {
        lemma_children_prefix(p, s, depth, i + 1);
        assert(s.take(i + 1).drop_last() =~= s.take(i));
    } else {
        assert(s.take(i) =~= s);
    }
}

/// The leaf count below every legal move is the count of the move tree.
proof fn lemma_perft_moves(p: Position, s: Seq<Move>, depth: nat)
    requires
        depth >= 1,
        s.no_duplicates(),
        forall|m: Move| #[trigger] s.contains(m) == legal_move(p, m),
    ensures
        children_sum(p, s, (depth - 1) as nat) == perft_spec(p, depth),
{
    assert forall|m: Move| #[trigger] s.contains(m) == (legal_move(p, m) && m.0 >= 0) by {}
    lemma_children_moves_sum(p, s, depth, 0);
}

/// `m` is the move named by a UCI text's from square, to square and promotion.
pub open spec fn names_move(named: (int, int, Option<PieceType>), m: Move) -> bool {
    &&& m.from_sq() == named.0
    &&& m.to_sq() == named.1
    &&& m.promotion_spec() == named.2
}

/// Whether two promotion pieces (or none) agree.
fn same_promotion(a: Option<PieceType>, b: Option<PieceType>) -> (r: bool)
    ensures
        r == (a == b),
{
    match (a, b) {
        (None, None) => true,
        (Some(x), Some(y)) => x == y,
        _ => false,
    }
}

/// Find the legal move a UCI text names and play it; return whether one was
/// found and played. The board is left unchanged when none is.
pub fn apply_uci_move(board: &mut Board, uci: &str) -> (r: bool)
    requires
        old(board).wf(),
        position_valid(old(board)@),
        clock_room(old(board)@, 1),
    ensures
        final(board).wf(),
        r == (parse_uci_bytes(uci.spec_bytes()) matches Some(named) && exists|m: Move|
            legal_move(old(board)@, m) && #[trigger] names_move(named, m)),
        r ==> exists|m: Move|
            legal_move(old(board)@, m) && #[trigger] names_move(
                parse_uci_bytes(uci.spec_bytes())->0,
                m,
            ) && final(board)@ == crate::board::make_spec(old(board)@, m),
        !r ==> *final(board) == *old(board),
{
    let ghost p = board@;
    let ghost orig = *board;
    let parsed = parse_uci(uci);
    if parsed.is_none() {
        return false;
    }
    let (from, to, promotion) = parsed.unwrap();
    let ghost named = (from as int, to as int, promotion);
    assert(parse_uci_bytes(uci.spec_bytes()) == Some(named));
    let moves = generate_legal(board);
    let mut i: usize = 0;
    let mut found: Option<Move> = None;
    while i < moves.len() && found.is_none()
        invariant
            i <= moves@.len(),
            named == (from as int, to as int, promotion),
            found matches Some(m) ==> moves@.contains(m) && names_move(named, m),
            found is None ==> forall|k: int| 0 <= k < i ==> !#[trigger] names_move(named, moves@[k]),
        decreases moves@.len() - i, if found is None { 1int } else { 0int },
    {
        let mv = moves[i];
        if mv.from() == from && mv.to() == to && same_promotion(mv.promotion(), promotion) {
            found = Some(mv);
        } else {
            i = i + 1;
        }
    }
    match found {
        Some(mv) => {
            proof {
                assert(legal_move(p, mv));
                lemma_pseudo_applicable(p, mv);
            }
            board.make_move(mv);
            proof {
                assert(names_move(named, mv));
                assert(parse_uci_bytes(uci.spec_bytes())->0 == named);
                assert(board@ == crate::board::make_spec(p, mv));
            }
            true
        },
        None => {
            proof {
                assert forall|m: Move| legal_move(p, m) implies !#[trigger] names_move(named, m) by {
                    assert(moves@.contains(m));
                    let k = moves@.index_of(m);
                    assert(moves@[k] == m);
                }
            }
            false
        },
    }
}

/// `n`, or `u64::MAX` when `n` does not fit in 64 bits.
pub open spec fn saturated(n: int) -> int {
    if n < u64::MAX {
        n
    } else {
        u64::MAX as int
    }
}

/// Count leaf nodes to `depth` — the move-generation gate. A count past
/// `u64::MAX` reads as `u64::MAX`.
pub fn perft(board: &mut Board, depth: u32) -> (r: u64)
    requires
        old(board).wf(),
        position_valid(old(board)@),
        clock_room(old(board)@, depth as int),
    ensures
        *final(board) == *old(board),
        r == saturated(perft_spec(old(board)@, depth as nat) as int),
    decreases depth,
{
    if depth == 0 {
        return 1;
    }
    let ghost orig = *board;
    let ghost p = board@;
    let moves = generate_legal(board);
    proof {
        lemma_perft_moves(p, moves@, depth as nat);
    }
    if depth == 1 {
        proof {
            lemma_children_count(p, moves@);
        }
        return moves.len() as u64;
    }
    let mut nodes: u64 = 0;
    let mut i: usize = 0;
    proof {
        assert(moves@.take(0) =~= Seq::<Move>::empty());
    }
    while i < moves.len()
        invariant
            *board == orig,
            orig.wf(),
            p == orig@,
            position_valid(p),
            clock_room(p, depth as int),
            depth >= 2,
            forall|m: Move| #[trigger] moves@.contains(m) == legal_move(p, m),
            moves@.no_duplicates(),
            children_sum(p, moves@, (depth - 1) as nat) == perft_spec(p, depth as nat),
            i <= moves@.len(),
            nodes == saturated(children_sum(p, moves@.take(i as int), (depth - 1) as nat) as int),
        decreases moves@.len() - i,
    {
        let mv = moves[i];
        proof {
            assert(moves@.contains(mv));
            lemma_pseudo_applicable(p, mv);
            law_legal_move_keeps_valid(p, mv);
            assert(moves@.take(i + 1).drop_last() =~= moves@.take(i as int));
            lemma_children_prefix(p, moves@, (depth - 1) as nat, i + 1);
        }
        let undo = board.make_move(mv);
        let below = perft(board, depth - 1);
        nodes = nodes.saturating_add(below);
        proof {
            crate::board::law_unmake_undoes_make(p, mv, undo);
        }
        let ghost b1 = *board;
        board.unmake_move(mv, undo);
        proof {
            crate::board::law_make_unmake_restores_board(orig, b1, *board, mv, undo);
        }
        i = i + 1;
    }
    proof {
        assert(moves@.take(moves@.len() as int) =~= moves@);
    }
    nodes
}

} // verus!
