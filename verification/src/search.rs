//! Search — the scoring helpers of iterative-deepening alpha-beta: mate
//! scores and their distance, the transposition table's mate-score
//! re-relativizing, move ordering by the table's move, and the time budget.
use vstd::prelude::*;

use std::time::Instant;

use crate::board::{make_spec, Board, Position};
use crate::chess_move::Move;
use crate::clock::{as_millis, checked_add, elapsed, from_millis, not_earlier, now};
use crate::eval;
use crate::movegen::{
    clock_room, generate_legal, law_legal_move_keeps_valid, legal_move, lemma_pseudo_applicable,
};
use crate::movesort::{
    all_legal, dequiet_in_context, has_legal, history_index_spec, history_ok, in_check,
    in_check_spec,
    legal_list, lemma_listed_len, order_moves_in, playable, prioritize_in_context,
    prioritize_legal_moves, OrderingContext,
};
pub use crate::movesort::{history_index, HISTORY_MAX, HISTORY_SIZE};
use crate::nnue::Network;
use crate::tt::{Flag, HashEntry, TranspositionTable};
use crate::types::Color;

verus! {

/// A checkmate scores `MATE - ply`; any score within `MAX_PLY` of `MATE` is a mate.
pub const MATE: i32 = 99999;

pub const MAX_PLY: i32 = 1000;

pub const MATE_THRESHOLD: i32 = 98999;

/// Reserve this much wall-clock so the engine never flags.
pub const MOVE_OVERHEAD_MS: u64 = 50;

/// Sudden-death moves-to-go assumption.
pub const SUDDEN_DEATH_MOVES: u64 = 30;

/// Cap a move at this fraction of the remaining time (percent).
pub const MAX_BUDGET_PERCENT: u64 = 40;

/// Whether `score` is a forced mate for either side.
pub open spec fn mate_score(score: int) -> bool {
    score >= MATE_THRESHOLD || score <= -MATE_THRESHOLD
}

/// `|score| >= MATE_THRESHOLD`. `i32::MIN` has no absolute value and is left out.
pub fn is_mate_score(score: i32) -> (r: bool)
    requires
        score > i32::MIN,
    ensures
        r == mate_score(score as int),
{
    let magnitude = if score < 0 {
        -score
    } else {
        score
    };
    magnitude >= MATE_THRESHOLD
}

/// Half of `x`, rounded toward zero.
pub open spec fn half_toward_zero(x: int) -> int {
    if x >= 0 {
        x / 2
    } else {
        -((-x) / 2)
    }
}

/// The signed number of moves to mate, positive when the side to move gives
/// mate; `None` for a score that is no mate.
pub open spec fn mate_moves(score: int) -> Option<int> {
    if score >= MATE_THRESHOLD {
        Some(half_toward_zero(MATE - score + 1))
    } else if score <= -MATE_THRESHOLD {
        Some(-half_toward_zero(MATE + score + 1))
    } else {
        None
    }
}

fn halve(x: i32) -> (r: i32)
    requires
        x > i32::MIN,
    ensures
        r == half_toward_zero(x as int),
{
    if x >= 0 {
        x / 2
    } else {
        -((-x) / 2)
    }
}

/// The number of moves to mate, signed (positive when the side to move gives
/// mate), or None when `score` is not a mate score. UCI `score mate` is in moves.
pub fn mate_in_moves(score: i32) -> (r: Option<i32>)
    ensures
        r matches Some(m) ==> mate_moves(score as int) == Some(m as int),
        r is None <==> mate_moves(score as int) is None,
{
    if score >= MATE_THRESHOLD {
        Some(halve(MATE - score + 1))
    } else if score <= -MATE_THRESHOLD {
        Some(-halve(MATE + score + 1))
    } else {
        None
    }
}

/// A mate `k` plies away (score `MATE - k`) is a mate in `ceil(k / 2)` moves
/// for the side to move, and being mated `k` plies away (score `k - MATE`) is
/// the same count, negative; scores short of the mate range name no mate.
pub proof fn law_mate_moves_counts_plies(k: int, score: int)
    requires
        0 <= k <= MATE - MATE_THRESHOLD,
    ensures
        mate_moves(MATE - k) == Some((k + 1) / 2),
        mate_moves(k - MATE) == Some(-((k + 1) / 2)),
        -MATE_THRESHOLD < score < MATE_THRESHOLD ==> mate_moves(score) is None,
{
}

/// A mate score relative to a node `ply` plies from the root, as stored.
pub open spec fn to_table(value: int, ply: int) -> int {
    if value >= MATE_THRESHOLD {
        value + ply
    } else if value <= -MATE_THRESHOLD {
        value - ply
    } else {
        value
    }
}

/// A stored score re-relativized to a node `ply` plies from the root.
pub open spec fn from_table(value: int, ply: int) -> int {
    if value >= MATE_THRESHOLD {
        value - ply
    } else if value <= -MATE_THRESHOLD {
        value + ply
    } else {
        value
    }
}

/// Store mate scores relative to the node (add the distance to root), so a
/// transposed entry stays correct.
pub fn value_to_tt(value: i32, ply: i32) -> (r: i32)
    requires
        i32::MIN <= to_table(value as int, ply as int) <= i32::MAX,
    ensures
        r == to_table(value as int, ply as int),
{
    if value >= MATE_THRESHOLD {
        value + ply
    } else if value <= -MATE_THRESHOLD {
        value - ply
    } else {
        value
    }
}

/// Re-relativize a stored mate score to this node's distance from the root.
pub fn value_from_tt(value: i32, ply: i32) -> (r: i32)
    requires
        i32::MIN <= from_table(value as int, ply as int) <= i32::MAX,
    ensures
        r == from_table(value as int, ply as int),
{
    if value >= MATE_THRESHOLD {
        value - ply
    } else if value <= -MATE_THRESHOLD {
        value + ply
    } else {
        value
    }
}

/// A score stored at a node a non-negative distance from the root reads back
/// unchanged at that node.
pub proof fn law_table_round_trip(value: int, ply: int)
    requires
        ply >= 0,
    ensures
        from_table(to_table(value, ply), ply) == value,
{
}

/// The moves with the first occurrence of `tt_move` promoted to the front,
/// the rest in their order.
pub open spec fn tt_first(moves: Seq<Move>, tt_move: Option<Move>) -> Seq<Move> {
    match tt_move {
        Some(t) => match moves.index_of_first(t) {
            Some(i) => seq![t] + moves.take(i) + moves.skip(i + 1),
            None => moves,
        },
        None => moves,
    }
}

/// Moves other than `t`.
pub open spec fn other_than(t: Move) -> spec_fn(Move) -> bool {
    |m: Move| m != t
}

/// Promoting the table move reorders without adding or losing a move: the
/// table move, when listed, comes first, the other moves keep their order,
/// and an unlisted or absent table move leaves the list as it was.
pub proof fn law_tt_move_goes_first(moves: Seq<Move>, tt_move: Option<Move>)
    ensures
        tt_first(moves, tt_move).len() == moves.len(),
        tt_first(moves, tt_move).to_multiset() == moves.to_multiset(),
        tt_move matches Some(t) ==> (moves.contains(t) ==> tt_first(moves, tt_move)[0] == t),
        tt_move matches Some(t) ==> tt_first(moves, tt_move).filter(other_than(t)) == moves.filter(
            other_than(t),
        ),
        (tt_move is None || !moves.contains(tt_move->0)) ==> tt_first(moves, tt_move) == moves,
{
    if let Some(t) = tt_move {
        moves.index_of_first_ensures(t);
        if let Some(i) = moves.index_of_first(t) {
            let a = moves.take(i);
            let b = moves.skip(i + 1);
            assert(moves =~= a + seq![t] + b);
            let r = tt_first(moves, tt_move);
            assert(r == seq![t] + a + b);
            vstd::seq_lib::lemma_multiset_commutative(a + seq![t], b);
            vstd::seq_lib::lemma_multiset_commutative(a, seq![t]);
            vstd::seq_lib::lemma_multiset_commutative(seq![t] + a, b);
            vstd::seq_lib::lemma_multiset_commutative(seq![t], a);
            assert(r.to_multiset() =~= moves.to_multiset());
            Seq::filter_distributes_over_add(a + seq![t], b, other_than(t));
            Seq::filter_distributes_over_add(a, seq![t], other_than(t));
            Seq::filter_distributes_over_add(seq![t] + a, b, other_than(t));
            Seq::filter_distributes_over_add(seq![t], a, other_than(t));
            reveal_with_fuel(Seq::filter, 2);
            assert(seq![t].filter(other_than(t)) =~= Seq::<Move>::empty());
            assert(a.filter(other_than(t)) + Seq::<Move>::empty() =~= a.filter(other_than(t)));
            assert(Seq::<Move>::empty() + a.filter(other_than(t)) =~= a.filter(other_than(t)));
        }
    }
}

/// Promote the transposition-table move to the front, preserving the order of the
/// rest.
pub fn order_tt_move_first(moves: Vec<Move>, tt_move: Option<Move>) -> (r: Vec<Move>)
    ensures
        r@ == tt_first(moves@, tt_move),
{
    match tt_move {
        None => moves,
        Some(t) => {
            let mut i: usize = 0;
            while i < moves.len() && moves[i] != t
                invariant
                    i <= moves.len(),
                    forall|j: int| 0 <= j < i ==> moves@[j] != t,
                decreases moves.len() - i,
            {
                i = i + 1;
            }
            proof {
                moves@.index_of_first_ensures(t);
            }
            if i == moves.len() {
                assert(!moves@.contains(t));
                return moves;
            }
            assert(moves@[i as int] == t);
            assert(moves@.index_of_first(t) == Some(i as int)) by {
                if let Some(k) = moves@.index_of_first(t) {
                    assert(!(k < i));
                    assert(!(i < k));
                }
            }
            let mut out: Vec<Move> = Vec::new();
            out.push(t);
            let mut j: usize = 0;
            while j < moves.len()
                invariant
                    j <= moves.len(),
                    i < moves.len(),
                    out@ == if j <= i {
                        seq![t] + moves@.take(j as int)
                    } else {
                        seq![t] + moves@.take(i as int) + moves@.subrange(i + 1, j as int)
                    },
                decreases moves.len() - j,
            {
                if j != i {
                    out.push(moves[j]);
                }
                proof {
                    if j < i {
                        assert(out@ =~= seq![t] + moves@.take(j + 1));
                    } else if j == i {
                        assert(out@ =~= seq![t] + moves@.take(i as int) + moves@.subrange(
                            i + 1,
                            j + 1,
                        ));
                    } else {
                        assert(out@ =~= seq![t] + moves@.take(i as int) + moves@.subrange(
                            i + 1,
                            j + 1,
                        ));
                    }
                }
                j = j + 1;
            }
            proof {
                assert(moves@.subrange(i + 1, moves@.len() as int) =~= moves@.skip(i + 1));
            }
            out
        },
    }
}

/// The limits for one search. All times are milliseconds.
#[derive(Clone, Copy)]
pub struct SearchLimits {
    pub max_depth: u32,
    pub move_time_ms: Option<u64>,
    pub white_time_ms: Option<u64>,
    pub black_time_ms: Option<u64>,
    pub white_increment_ms: u64,
    pub black_increment_ms: u64,
    pub moves_to_go: Option<u32>,
    /// Stop after this many searched nodes — a deterministic, equal-effort budget
    /// for fair-match measurement. Bounds the search exactly, independent of the clock.
    pub node_limit: Option<u64>,
}

impl Default for SearchLimits {
    fn default() -> (r: SearchLimits)
        ensures
            r == (SearchLimits {
                max_depth: 0,
                move_time_ms: None,
                white_time_ms: None,
                black_time_ms: None,
                white_increment_ms: 0,
                black_increment_ms: 0,
                moves_to_go: None,
                node_limit: None,
            }),
    {
        SearchLimits {
            max_depth: 0,
            move_time_ms: None,
            white_time_ms: None,
            black_time_ms: None,
            white_increment_ms: 0,
            black_increment_ms: 0,
            moves_to_go: None,
            node_limit: None,
        }
    }
}

/// The clock and increment of the side to move.
pub open spec fn clock_of(side: Color, l: SearchLimits) -> (Option<u64>, u64) {
    match side {
        Color::White => (l.white_time_ms, l.white_increment_ms),
        Color::Black => (l.black_time_ms, l.black_increment_ms),
    }
}

/// How many moves the remaining time is split over.
pub open spec fn budget_divisor(l: SearchLimits) -> int {
    match l.moves_to_go {
        Some(m) => if m >= 1 {
            m as int
        } else {
            1
        },
        None => SUDDEN_DEATH_MOVES as int,
    }
}

pub open spec fn less_overhead(x: int) -> int {
    if x >= MOVE_OVERHEAD_MS {
        x - MOVE_OVERHEAD_MS
    } else {
        0
    }
}

/// The per-move budget: the fixed move time less the overhead; or a share of
/// the clock plus 7/10 of the increment, capped at 40% of the clock, less the
/// overhead; or none for a search with neither.
pub open spec fn budget_ms(side: Color, l: SearchLimits) -> Option<int> {
    match l.move_time_ms {
        Some(move_time) => Some(less_overhead(move_time as int)),
        None => match clock_of(side, l).0 {
            None => None,
            Some(remaining) => {
                let increment = clock_of(side, l).1;
                let budget = remaining as int / budget_divisor(l) + increment * 7 / 10;
                let cap = remaining * MAX_BUDGET_PERCENT / 100;
                Some(
                    less_overhead(
                        if budget < cap {
                            budget
                        } else {
                            cap
                        },
                    ),
                )
            },
        },
    }
}

/// The budget's arithmetic stays within 64 bits.
pub open spec fn budget_in_range(side: Color, l: SearchLimits) -> bool {
    l.move_time_ms is None ==> match clock_of(side, l).0 {
        None => true,
        Some(remaining) => {
            let increment = clock_of(side, l).1;
            &&& increment * 7 <= u64::MAX
            &&& remaining * MAX_BUDGET_PERCENT <= u64::MAX
            &&& remaining as int / budget_divisor(l) + increment * 7 / 10 <= u64::MAX
        },
    }
}

/// The per-move time budget in milliseconds, or None for a depth-only search.
pub fn compute_budget_ms(side: Color, limits: &SearchLimits) -> (r: Option<u64>)
    requires
        budget_in_range(side, *limits),
    ensures
        r matches Some(b) ==> budget_ms(side, *limits) == Some(b as int),
        r is None <==> budget_ms(side, *limits) is None,
        limits.move_time_ms is None ==> (clock_of(side, *limits).0 matches Some(remaining) ==> (
        r matches Some(b) && b + MOVE_OVERHEAD_MS <= if remaining * 40 / 100 >= MOVE_OVERHEAD_MS {
            remaining * 40 / 100
        } else {
            MOVE_OVERHEAD_MS as int
        })),
{
    proof {
        law_budget_bounds(side, *limits, 0);
    }
    if let Some(move_time) = limits.move_time_ms {
        return Some(move_time.saturating_sub(MOVE_OVERHEAD_MS));
    }
    let (remaining, increment) = match side {
        Color::White => (limits.white_time_ms, limits.white_increment_ms),
        Color::Black => (limits.black_time_ms, limits.black_increment_ms),
    };
    let remaining = match remaining {
        Some(r) => r,
        None => {
            return None;
        },
    };
    let divisor: u64 = match limits.moves_to_go {
        Some(moves) => if moves >= 1 {
            moves as u64
        } else {
            1
        },
        None => SUDDEN_DEATH_MOVES,
    };
    let budget = remaining / divisor + increment * 7 / 10;
    let cap = remaining * MAX_BUDGET_PERCENT / 100;
    let chosen = if budget < cap {
        budget
    } else {
        cap
    };
    Some(chosen.saturating_sub(MOVE_OVERHEAD_MS))
}

/// The time budget obeys its bounds: a fixed move time gives that time less
/// the overhead; otherwise, with a clock, the budget plus the overhead never
/// exceeds 40% of the remaining clock (nor the overhead when 40% is less),
/// never exceeds the clock's share plus 7/10 of the increment less the
/// overhead, and is at least the smaller of the share and the 40% cap less
/// the overhead; more increment never gives less time; with neither there is
/// no budget.
pub proof fn law_budget_bounds(side: Color, l: SearchLimits, more: u64)
    ensures
        l.move_time_ms matches Some(t) ==> budget_ms(side, l) == Some(
            if t >= MOVE_OVERHEAD_MS {
                t - MOVE_OVERHEAD_MS
            } else {
                0
            },
        ),
        l.move_time_ms is None && clock_of(side, l).0 is None ==> budget_ms(side, l) is None,
        l.move_time_ms is None ==> (clock_of(side, l).0 matches Some(remaining) ==> {
            let share = remaining as int / budget_divisor(l);
            let cap = remaining as int * 40 / 100;
            let inc = clock_of(side, l).1 as int;
            budget_ms(side, l) matches Some(b) && 0 <= b && b + MOVE_OVERHEAD_MS <= (if cap
                >= MOVE_OVERHEAD_MS {
                cap
            } else {
                MOVE_OVERHEAD_MS as int
            }) && b + MOVE_OVERHEAD_MS <= (if share + inc * 7 / 10 >= MOVE_OVERHEAD_MS {
                share + inc * 7 / 10
            } else {
                MOVE_OVERHEAD_MS as int
            }) && b + MOVE_OVERHEAD_MS >= (if share < cap {
                share
            } else {
                cap
            })
        }),
        l.move_time_ms is None && clock_of(side, l).0 is Some && side == Color::White
            && l.white_increment_ms <= more ==> budget_ms(side, l)->0 <= budget_ms(
            side,
            SearchLimits { white_increment_ms: more, ..l },
        )->0,
        l.move_time_ms is None && clock_of(side, l).0 is Some && side == Color::Black
            && l.black_increment_ms <= more ==> budget_ms(side, l)->0 <= budget_ms(
            side,
            SearchLimits { black_increment_ms: more, ..l },
        )->0,
{
    if l.move_time_ms is None {
        if let Some(remaining) = clock_of(side, l).0 {
            let inc = clock_of(side, l).1 as int;
            let share = remaining as int / budget_divisor(l);
            assert(share >= 0) by {
                vstd::arithmetic::div_mod::lemma_div_pos_is_pos(remaining as int, budget_divisor(l));
            }
            let lo = inc * 7 / 10;
            let hi = more as int * 7 / 10;
            if inc <= more {
                assert(lo <= hi) by {
                    vstd::arithmetic::div_mod::lemma_div_is_ordered(inc * 7, more as int * 7, 10);
                }
            }
            assert(lo >= 0);
        }
    }
}

/// Whether the budget's arithmetic for `side` stays within 64 bits: the
/// limits `compute_budget_ms` can work with.
pub fn budget_fits(side: Color, limits: &SearchLimits) -> (r: bool)
    ensures
        r == budget_in_range(side, *limits),
{
    if limits.move_time_ms.is_some() {
        return true;
    }
    let (remaining, increment) = match side {
        Color::White => (limits.white_time_ms, limits.white_increment_ms),
        Color::Black => (limits.black_time_ms, limits.black_increment_ms),
    };
    let remaining = match remaining {
        Some(r) => r,
        None => {
            return true;
        },
    };
    let divisor: u64 = match limits.moves_to_go {
        Some(moves) => if moves >= 1 {
            moves as u64
        } else {
            1
        },
        None => SUDDEN_DEATH_MOVES,
    };
    increment <= u64::MAX / 7 && remaining <= u64::MAX / MAX_BUDGET_PERCENT && (remaining
        / divisor) as u128 + (increment as u128) * 7 / 10 <= u64::MAX as u128
}

/// Every move of the promoted list is one of the input moves.
pub proof fn lemma_tt_first_from(moves: Seq<Move>, tt_move: Option<Move>)
    ensures
        forall|i: int|
            0 <= i < tt_first(moves, tt_move).len() ==> moves.contains(
                #[trigger] tt_first(moves, tt_move)[i],
            ),
{
    if let Some(t) = tt_move {
        moves.index_of_first_ensures(t);
        if let Some(k) = moves.index_of_first(t) {
            let r = tt_first(moves, tt_move);
            assert forall|i: int| 0 <= i < r.len() implies moves.contains(#[trigger] r[i]) by {
                if i == 0 {
                    assert(moves[k] == t);
                } else if i <= k {
                    assert(r[i] == moves[i - 1]);
                } else {
                    assert(r[i] == moves[i]);
                }
            }
        }
    }
}

/// Quiescence stops descending captures below this depth.
pub const QUIESCENCE_FLOOR: i32 = -5;

/// Poll the clock every this many nodes.
pub const STOP_CHECK_INTERVAL: u64 = 64;

/// PV table / ply array bound.
pub const MAX_SEARCH_PLY: usize = 128;

/// The deepest search: mate distances stay within `MAX_PLY`.
pub const MAX_SEARCH_DEPTH: i32 = 990;

/// A stored score further than this from zero cannot have come from a search
/// and is not used to cut.
pub const TRUSTED_SCORE: i32 = 1_000_000_000;

/// The outcome of a search. `score` is internal (centipawns or a mate score);
/// the caller converts it to centipawns or moves to mate.
pub struct SearchResult {
    pub best_move: Option<Move>,
    pub score: i32,
    pub depth: i32,
    pub nodes: u64,
    pub elapsed_ms: u64,
    pub principal_variation: Vec<Move>,
}


pub struct Searcher<'a, T: TranspositionTable> {
    transposition_table: &'a mut T,
    /// The NNUE network, when one is loaded; otherwise leaf positions use the
    /// hand-written evaluation.
    eval_net: Option<&'a Network>,
    /// Zobrist keys along the current line, for threefold-repetition detection.
    position_history: Vec<u64>,
    /// History-heuristic scores, indexed `[side][from][to]` flattened.
    history: Vec<i32>,
    /// Two killer moves per ply.
    killers: Vec<[Option<Move>; 2]>,
    nodes: u64,
    deadline: Option<Instant>,
    node_limit: Option<u64>,
    stopped: bool,
    /// Triangular table: `pv_table[ply]` is the principal variation from `ply`.
    pv_table: Vec<Vec<Move>>,
}

impl<'a, T: TranspositionTable> Searcher<'a, T> {
    /// The tables have their sizes and the history scores their range.
    pub closed spec fn ready(&self) -> bool {
        &&& self.history@.len() == HISTORY_SIZE
        &&& forall|i: int| 0 <= i < HISTORY_SIZE ==> 0 <= #[trigger] self.history@[i] <= HISTORY_MAX
        &&& self.killers@.len() == MAX_SEARCH_PLY
        &&& self.pv_table@.len() == MAX_SEARCH_PLY
    }

    /// The killer slots of each ply.
    pub closed spec fn killer_table(&self) -> Seq<[Option<Move>; 2]> {
        self.killers@
    }

    /// The history scores.
    pub closed spec fn history_table(&self) -> Seq<i32> {
        self.history@
    }

    /// The nodes searched so far.
    pub closed spec fn node_count(&self) -> u64 {
        self.nodes
    }

    /// The principal variation recorded from `ply`.
    pub closed spec fn pv_line(&self, ply: int) -> Seq<Move> {
        self.pv_table@[ply]@
    }

    /// The lines recorded from the plies before `ply` are those of `other`.
    pub closed spec fn lines_kept(&self, other: Self, ply: int) -> bool {
        forall|k: int| 0 <= k < ply && k < MAX_SEARCH_PLY ==> #[trigger] self.pv_line(k) == other.pv_line(k)
    }

    /// Unless the search stopped, a line recorded from `ply` starts with `best`.
    pub closed spec fn line_heads(&self, ply: int, best: Option<Move>) -> bool {
        0 <= ply < MAX_SEARCH_PLY && !self.stopped && self.pv_line(ply).len() > 0 ==> best == Some(
            self.pv_line(ply)[0],
        )
    }

    /// The searcher has been told to stop.
    pub closed spec fn halted(&self) -> bool {
        self.stopped
    }

    /// The keys of the positions along the line being searched.
    pub closed spec fn line_history(&self) -> Seq<u64> {
        self.position_history@
    }

    /// Under a node budget of `n`: at most `n` nodes are counted, reaching
    /// `n` stops the search, and without a clock only reaching `n` stops it.
    pub closed spec fn budget_kept(&self) -> bool {
        match self.node_limit {
            Some(n) => {
                &&& self.nodes <= n
                &&& self.nodes == n ==> self.stopped
                &&& self.stopped && self.deadline is None ==> self.nodes == n
            },
            None => true,
        }
    }

    /// The clock deadline and the node budget are those of `other`.
    pub closed spec fn same_limits(&self, other: Self) -> bool {
        self.deadline == other.deadline && self.node_limit == other.node_limit
    }

    /// Neither a clock nor a node budget can stop the search, and it has not
    /// stopped.
    pub closed spec fn unlimited(&self) -> bool {
        &&& self.deadline is None
        &&& self.node_limit is None
        &&& !self.stopped
    }

    pub fn new(transposition_table: &'a mut T) -> (s: Searcher<'a, T>)
        ensures
            s.ready(),
            s.node_count() == 0,
            !s.halted(),
            s.unlimited(),
            s.line_history().len() == 0,
            s.killer_table() == Seq::new(MAX_SEARCH_PLY as nat, |i: int| [None::<Move>, None::<Move>]),
            s.history_table() == Seq::new(HISTORY_SIZE as nat, |i: int| 0i32),
    {
        let mut history: Vec<i32> = Vec::new();
        let mut i: usize = 0;
        while i < HISTORY_SIZE
            invariant
                i <= HISTORY_SIZE,
                history@ == Seq::new(i as nat, |k: int| 0i32),
            decreases HISTORY_SIZE - i,
        {
            history.push(0);
            i = i + 1;
            proof {
                assert(history@ =~= Seq::new(i as nat, |k: int| 0i32));
            }
        }
        let mut killers: Vec<[Option<Move>; 2]> = Vec::new();
        let mut pv_table: Vec<Vec<Move>> = Vec::new();
        let mut k: usize = 0;
        while k < MAX_SEARCH_PLY
            invariant
                k <= MAX_SEARCH_PLY,
                killers@ == Seq::new(k as nat, |i: int| [None::<Move>, None::<Move>]),
                pv_table@.len() == k,
            decreases MAX_SEARCH_PLY - k,
        {
            killers.push([None, None]);
            pv_table.push(Vec::new());
            k = k + 1;
            proof {
                assert(killers@ =~= Seq::new(k as nat, |i: int| [None::<Move>, None::<Move>]));
            }
        }
        Searcher {
            transposition_table,
            eval_net: None,
            position_history: Vec::new(),
            history,
            killers,
            nodes: 0,
            deadline: None,
            node_limit: None,
            stopped: false,
            pv_table,
        }
    }

    /// Evaluate leaf positions through `eval_net` when it holds a network.
    pub fn with_eval_net(self, eval_net: Option<&'a Network>) -> (s: Searcher<'a, T>)
        ensures
            self.ready() ==> s.ready(),
            s.node_count() == self.node_count(),
            s.halted() == self.halted(),
            s.unlimited() == self.unlimited(),
            s.line_history() == self.line_history(),
            s.budget_kept() == self.budget_kept(),
            s.killer_table() == self.killer_table(),
            s.history_table() == self.history_table(),
    {
        Searcher { eval_net, ..self }
    }

    /// The nodes searched so far.
    pub fn nodes(&self) -> (r: u64)
        ensures
            r == self.node_count(),
    {
        self.nodes
    }

    /// The killer moves of `ply`.
    pub fn killers_at(&self, ply: usize) -> (r: [Option<Move>; 2])
        requires
            self.ready(),
            ply < MAX_SEARCH_PLY,
        ensures
            r == self.killer_table()[ply as int],
    {
        self.killers[ply]
    }

    /// The killer moves ordering uses at `ply`: none past the killer table.
    pub open spec fn killers_for(&self, ply: int) -> [Option<Move>; 2] {
        if ply < MAX_SEARCH_PLY {
            self.killer_table()[ply]
        } else {
            [None, None]
        }
    }

    /// What ordering at `ply` uses: the ply's killers (none past the killer
    /// table) and the history scores.
    fn ordering_context(&self, ply: i32) -> (r: OrderingContext)
        requires
            self.ready(),
            0 <= ply,
        ensures
            r.history@ == self.history_table(),
            history_ok(r.history@),
            r.killers == self.killers_for(ply as int),
    {
        let killers = if (ply as usize) < MAX_SEARCH_PLY {
            self.killers[ply as usize]
        } else {
            [None, None]
        };
        OrderingContext { killers, history: &self.history }
    }

    /// The history score of `mv` played by `side`.
    pub fn history_score(&self, side: Color, mv: Move) -> (r: i32)
        requires
            self.ready(),
        ensures
            r == self.history_table()[history_index_spec(side, mv)],
    {
        self.history[history_index(side, mv)]
    }
}


/// A move that fills the killer slots and the history table: neither a
/// capture nor a promotion.
pub open spec fn quiet_move(m: Move) -> bool {
    !m.capture_spec() && m.promotion_spec() is None
}

impl<'a, T: TranspositionTable> Searcher<'a, T> {
    /// Credit a quiet move that caused a beta-cutoff: store it as a killer for
    /// the ply and add `depth²` to its history score, clamped at `HISTORY_MAX`.
    pub fn record_cutoff(&mut self, board: &Board, mv: Move, depth: i32, ply: i32)
        requires
            old(self).ready(),
            0 < depth <= MAX_SEARCH_DEPTH,
            0 <= ply,
        ensures
            final(self).ready(),
            old(self).unlimited() ==> final(self).unlimited(),
            final(self).lines_kept(*old(self), MAX_SEARCH_PLY as int),
            final(self).halted() == old(self).halted(),
            final(self).node_count() == old(self).node_count(),
            final(self).line_history() == old(self).line_history(),
            final(self).same_limits(*old(self)),
            old(self).budget_kept() ==> final(self).budget_kept(),
            !quiet_move(mv) ==> final(self).killer_table() == old(self).killer_table()
                && final(self).history_table() == old(self).history_table(),
            quiet_move(mv) ==> final(self).killer_table() == if ply < MAX_SEARCH_PLY
                && old(self).killer_table()[ply as int][0] != Some(mv) {
                old(self).killer_table().update(
                    ply as int,
                    [Some(mv), old(self).killer_table()[ply as int][0]],
                )
            } else {
                old(self).killer_table()
            },
            quiet_move(mv) ==> final(self).history_table() == old(self).history_table().update(
                history_index_spec(board@.side, mv),
                if old(self).history_table()[history_index_spec(board@.side, mv)] + depth * depth
                    < HISTORY_MAX {
                    (old(self).history_table()[history_index_spec(board@.side, mv)] + depth
                        * depth) as i32
                } else {
                    HISTORY_MAX
                },
            ),
    {
        if mv.is_capture() || mv.promotion().is_some() {
            return;
        }
        if (ply as usize) < MAX_SEARCH_PLY {
            let slot = self.killers[ply as usize];
            if slot[0] != Some(mv) {
                self.killers.set(ply as usize, [Some(mv), slot[0]]);
            }
        }
        let index = history_index(board.side_to_move(), mv);
        assert(0 < depth * depth <= 990 * 990) by (nonlinear_arith)
            requires
                0 < depth <= 990,
        ;
        let bonus = depth * depth;
        let raised = self.history[index] + bonus;
        let clamped = if raised < HISTORY_MAX {
            raised
        } else {
            HISTORY_MAX
        };
        self.history.set(index, clamped);
    }

    /// Record `mv` followed by the line below it as the principal variation
    /// from `ply`.
    fn update_pv(&mut self, ply: i32, mv: Move)
        requires
            old(self).ready(),
            0 <= ply,
        ensures
            final(self).ready(),
            old(self).unlimited() ==> final(self).unlimited(),
            final(self).lines_kept(*old(self), ply as int),
            ply + 1 < MAX_SEARCH_PLY ==> final(self).pv_line(ply as int) == seq![mv] + old(self).pv_line(
                ply + 1,
            ),
            ply + 1 >= MAX_SEARCH_PLY ==> final(self).pv_line(ply as int) == old(self).pv_line(ply as int),
            final(self).halted() == old(self).halted(),
            final(self).node_count() == old(self).node_count(),
            final(self).line_history() == old(self).line_history(),
            final(self).same_limits(*old(self)),
            old(self).budget_kept() ==> final(self).budget_kept(),
    {
        let ply = ply as usize;
        if ply + 1 >= MAX_SEARCH_PLY {
            return;
        }
        let mut line: Vec<Move> = Vec::new();
        line.push(mv);
        let child = &self.pv_table[ply + 1];
        let mut i: usize = 0;
        while i < child.len()
            invariant
                i <= child@.len(),
                line@ == seq![mv] + child@.take(i as int),
            decreases child@.len() - i,
        {
            line.push(child[i]);
            i = i + 1;
            proof {
                assert(line@ =~= seq![mv] + child@.take(i as int));
            }
        }
        proof {
            assert(child@.take(child@.len() as int) =~= child@);
        }
        self.pv_table.set(ply, line);
    }

    /// Whether to abandon the search: the node budget is checked at every
    /// node, the clock every `STOP_CHECK_INTERVAL` nodes.
    fn should_stop(&mut self) -> (r: bool)
        requires
            old(self).ready(),
        ensures
            final(self).ready(),
            old(self).unlimited() ==> final(self).unlimited() && !r,
            final(self).lines_kept(*old(self), MAX_SEARCH_PLY as int),
            final(self).node_count() == old(self).node_count(),
            final(self).line_history() == old(self).line_history(),
            final(self).same_limits(*old(self)),
            (match old(self).node_limit {
                Some(n) => old(self).nodes <= n,
                None => true,
            }) && !old(self).stopped ==> final(self).budget_kept(),
            r == final(self).stopped,
    {
        if self.stopped {
            return true;
        }
        if let Some(limit) = self.node_limit {
            if self.nodes >= limit {
                self.stopped = true;
                return true;
            }
        }
        if self.nodes % STOP_CHECK_INTERVAL == 0 {
            if let Some(deadline) = &self.deadline {
                let current = now();
                if not_earlier(&current, deadline) {
                    self.stopped = true;
                }
            }
        }
        self.stopped
    }

    /// Fifty moves without a capture or pawn move, or the position's key met
    /// three times along the current line.
    fn is_draw(&self, board: &Board, zobrist_key: u64) -> (r: bool)
        ensures
            r == (board@.halfmove >= 100 || key_count(self.position_history@, zobrist_key) >= 3),
    {
        if board.halfmove_clock() >= 100 {
            return true;
        }
        let mut count: usize = 0;
        let mut i: usize = 0;
        while i < self.position_history.len()
            invariant
                i <= self.position_history@.len(),
                count <= i,
                count == key_count(self.position_history@.take(i as int), zobrist_key),
            decreases self.position_history@.len() - i,
        {
            proof {
                assert(self.position_history@.take(i + 1).drop_last() =~= self.position_history@.take(
                    i as int,
                ));
            }
            if self.position_history[i] == zobrist_key {
                count = count + 1;
            }
            i = i + 1;
        }
        proof {
            assert(self.position_history@.take(i as int) =~= self.position_history@);
        }
        count >= 3
    }
}

/// `line` is a sequence of moves each legal in the position the previous
/// ones reach from `p`.
pub open spec fn legal_line(p: Position, line: Seq<Move>) -> bool
    decreases line.len(),
{
    line.len() == 0 || (legal_move(p, line[0]) && legal_line(make_spec(p, line[0]), line.drop_first()))
}

/// How many times `key` occurs in `keys`.
pub open spec fn key_count(keys: Seq<u64>, key: u64) -> int
    decreases keys.len(),
{
    if keys.len() == 0 {
        0
    } else {
        key_count(keys.drop_last(), key) + if keys.last() == key {
            1int
        } else {
            0int
        }
    }
}

/// The positions a search node can work on: playable, with room on the clocks
/// for every ply the remaining depth and quiescence can add.
pub open spec fn searchable(board: Board, depth: int) -> bool {
    &&& playable(board)
    &&& clock_room(board@, depth + 7)
}

impl<'a, T: TranspositionTable> Searcher<'a, T> {
    /// The static evaluation, White-positive, by the network when one is loaded.
    fn static_eval(&self, board: &Board) -> (r: i32)
        requires
            playable(*board),
        ensures
            -eval::score_bound() <= r <= eval::score_bound(),
            self.eval_net matches Some(net) ==> r == crate::nnue::network_score(
                net@,
                crate::nnue::fresh_units(net@, board@.side, board@.squares),
                crate::nnue::fresh_units(net@, board@.side.opp(), board@.squares),
                board@.side,
            ),
            self.eval_net is None ==> r == eval::evaluation(board@),
    {
        proof {
            crate::movegen::lemma_kings_present(board@);
        }
        match self.eval_net {
            Some(net) => net.evaluate(board),
            None => eval::evaluate(board),
        }
    }

    fn negamax(&mut self, board: &mut Board, depth: i32, alpha: i32, beta: i32, ply: i32) -> (r: (
        Option<Move>,
        i32,
    ))
        requires
            old(self).ready(),
            searchable(*old(board), depth as int),
            -6 <= depth,
            0 <= ply,
            ply + depth <= MAX_SEARCH_DEPTH,
            -MATE <= alpha < beta <= MATE,
        ensures
            final(self).ready(),
            old(self).unlimited() ==> final(self).unlimited(),
            final(self).lines_kept(*old(self), ply as int),
            final(self).line_heads(ply as int, r.0),
            0 <= ply < MAX_SEARCH_PLY && !final(self).halted() ==> legal_line(old(board)@, final(self).pv_line(ply as int)),
            *final(board) == *old(board),
            -TRUSTED_SCORE <= r.1 <= TRUSTED_SCORE,
            depth > 0 && !has_legal(old(board)@) ==> r.0 is None,
            !final(self).halted() && in_check_spec(old(board)@) && !has_legal(old(board)@) ==> r.0 is None && r.1 == -(MATE - ply),
            final(self).line_history() == old(self).line_history(),
            final(self).same_limits(*old(self)),
            old(self).budget_kept() && !old(self).halted() ==> final(self).budget_kept(),
            ply == 0 ==> (r.0 matches Some(m) ==> legal_move(old(board)@, m)),
            ply == 0 && depth > 0 && !final(self).halted() && r.0 is Some ==> final(self).pv_line(0).len() > 0,
            ply == 0 && depth > 0 && !final(self).halted() && has_legal(old(board)@) && r.0 is None ==> r.1 == -MATE
                || old(board)@.halfmove >= 100 || key_count(
                old(self).line_history().push(old(board).hash_value()),
                old(board).hash_value(),
            ) >= 3,
        decreases depth + 7, 1int,
    {
        let zobrist_key = board.zobrist();
        self.position_history.push(zobrist_key);
        let ghost mid = *self;
        let result = self.search_node(board, depth, alpha, beta, ply, zobrist_key);
        let ghost searched = *self;
        self.position_history.pop();
        proof {
            assert(self.position_history@ =~= old(self).position_history@);
            assert forall|k: int| 0 <= k < ply && k < MAX_SEARCH_PLY implies #[trigger] self.pv_line(k)
                == old(self).pv_line(k) by {
                assert(self.pv_line(k) == searched.pv_line(k));
                assert(searched.pv_line(k) == mid.pv_line(k));
            }
            assert(self.pv_line(ply as int) == searched.pv_line(ply as int));
        }
        result
    }

    /// Play a legal `mv`, search the reply position one ply deeper with the
    /// window negated, and take the move back.
    fn search_child(
        &mut self,
        board: &mut Board,
        mv: Move,
        depth: i32,
        alpha: i32,
        beta: i32,
        ply: i32,
    ) -> (r: i32)
        requires
            old(self).ready(),
            searchable(*old(board), depth as int),
            legal_move(old(board)@, mv),
            -5 <= depth,
            0 <= ply,
            ply + depth <= MAX_SEARCH_DEPTH,
            -MATE <= alpha < beta <= MATE,
        ensures
            final(self).ready(),
            old(self).unlimited() ==> final(self).unlimited(),
            final(self).lines_kept(*old(self), ply + 1),
            0 <= ply + 1 < MAX_SEARCH_PLY && !final(self).halted() ==> legal_line(
                make_spec(old(board)@, mv),
                final(self).pv_line(ply + 1),
            ),
            *final(board) == *old(board),
            -TRUSTED_SCORE <= r <= TRUSTED_SCORE,
            final(self).line_history() == old(self).line_history(),
            final(self).same_limits(*old(self)),
            old(self).budget_kept() && !old(self).halted() ==> final(self).budget_kept(),
        decreases depth + 6, 2int,
    {
        let ghost orig = *board;
        let ghost p = board@;
        proof {
            lemma_pseudo_applicable(p, mv);
            law_legal_move_keeps_valid(p, mv);
        }
        let undo = board.make_move(mv);
        let (_, child_score) = self.negamax(board, depth - 1, -beta, -alpha, ply + 1);
        proof {
            crate::board::law_unmake_undoes_make(p, mv, undo);
        }
        let ghost b1 = *board;
        board.unmake_move(mv, undo);
        proof {
            crate::board::law_make_unmake_restores_board(orig, b1, *board, mv, undo);
        }
        child_score
    }

    #[verifier::spinoff_prover]
    #[verifier::rlimit(80)]
    fn search_node(
        &mut self,
        board: &mut Board,
        depth: i32,
        alpha: i32,
        beta: i32,
        ply: i32,
        zobrist_key: u64,
    ) -> (r: (Option<Move>, i32))
        requires
            old(self).ready(),
            searchable(*old(board), depth as int),
            -6 <= depth,
            0 <= ply,
            ply + depth <= MAX_SEARCH_DEPTH,
            -MATE <= alpha < beta <= MATE,
        ensures
            final(self).ready(),
            old(self).unlimited() ==> final(self).unlimited(),
            final(self).lines_kept(*old(self), ply as int),
            final(self).line_heads(ply as int, r.0),
            0 <= ply < MAX_SEARCH_PLY && !final(self).halted() ==> legal_line(old(board)@, final(self).pv_line(ply as int)),
            *final(board) == *old(board),
            -TRUSTED_SCORE <= r.1 <= TRUSTED_SCORE,
            depth > 0 && !has_legal(old(board)@) ==> r.0 is None,
            !final(self).halted() && in_check_spec(old(board)@) && !has_legal(old(board)@) ==> r.0 is None && r.1 == -(MATE - ply),
            final(self).line_history() == old(self).line_history(),
            final(self).same_limits(*old(self)),
            old(self).budget_kept() && !old(self).halted() ==> final(self).budget_kept(),
            ply == 0 ==> (r.0 matches Some(m) ==> legal_move(old(board)@, m)),
            ply == 0 && depth > 0 && !final(self).halted() && r.0 is Some ==> final(self).pv_line(0).len() > 0,
            ply == 0 && depth > 0 && !final(self).halted() && has_legal(old(board)@) && r.0 is None ==> r.1 == -MATE
                || old(board)@.halfmove >= 100 || key_count(old(self).line_history(), zobrist_key) >= 3,
        decreases depth + 7, 0int,
    {
        let ghost orig = *board;
        let ghost p = board@;
        let ghost kept = old(self).budget_kept() && !old(self).halted();
        self.nodes = if self.nodes < u64::MAX {
            self.nodes + 1
        } else {
            self.nodes
        };
        let ghost counted = *self;
        if self.should_stop() {
            proof {
                assert forall|k: int| 0 <= k < ply && k < MAX_SEARCH_PLY implies #[trigger] self.pv_line(
                    k,
                ) == old(self).pv_line(k) by {
                    assert(self.pv_line(k) == counted.pv_line(k));
                }
            }
            return (None, 0);
        }
        let ghost checked = *self;
        if (ply as usize) < MAX_SEARCH_PLY {
            self.pv_table.set(ply as usize, Vec::new());
        }
        proof {
            assert forall|k: int| 0 <= k < ply && k < MAX_SEARCH_PLY implies #[trigger] self.pv_line(k)
                == old(self).pv_line(k) by {
                assert(self.pv_line(k) == checked.pv_line(k));
                assert(checked.pv_line(k) == counted.pv_line(k));
            }
            if ply < MAX_SEARCH_PLY {
                assert(self.pv_line(ply as int).len() == 0);
            }
        }
        proof {
            crate::movegen::lemma_kings_present(p);
        }
        let is_in_check = in_check(board);
        let legal = generate_legal(board);
        let has_legal_move = legal.len() > 0;
        proof {
            lemma_listed_len(p, legal@);
        }
        if !has_legal_move && is_in_check {
            return (None, -(MATE - ply));
        }
        if depth > 0 && ((!has_legal_move && !is_in_check) || self.is_draw(board, zobrist_key)) {
            return (None, 0);
        }

        let alpha_at_entry = alpha;
        let mut alpha = alpha;
        let mut beta = beta;

        let stored_entry = self.transposition_table.probe(zobrist_key);
        if let Some(stored) = stored_entry {
            // The root is always searched, so a completed iteration leaves its
            // principal variation; its stored move still goes first.
            if ply > 0 && stored.depth >= depth && -TRUSTED_SCORE <= stored.value && stored.value
                <= TRUSTED_SCORE {
                let value = value_from_tt(stored.value, ply);
                match stored.flag {
                    Flag::Exact => {
                        return (stored.best_move, value);
                    },
                    Flag::LowerBound => {
                        if value > alpha {
                            alpha = value;
                        }
                    },
                    Flag::UpperBound => {
                        if value < beta {
                            beta = value;
                        }
                    },
                }
                if alpha >= beta {
                    return (stored.best_move, value);
                }
            }
        }
        let tt_move = match stored_entry {
            Some(entry) => entry.best_move,
            None => None,
        };

        let moves = if depth <= 0 {
            let perspective: i32 = match board.side_to_move() {
                Color::White => 1,
                Color::Black => -1,
            };
            let stand_pat = self.static_eval(board) * perspective;
            if !is_in_check {
                if stand_pat >= beta {
                    return (None, beta);
                }
                if stand_pat > alpha {
                    alpha = stand_pat;
                }
            }
            if depth < QUIESCENCE_FLOOR {
                return (None, stand_pat);
            }
            let context = self.ordering_context(ply);
            let captures_and_checks = dequiet_in_context(board, false, &context);
            if captures_and_checks.len() == 0 {
                return (None, stand_pat);
            }
            proof {
                lemma_tt_first_from(captures_and_checks@, tt_move);
            }
            order_tt_move_first(captures_and_checks, tt_move)
        } else {
            let context = self.ordering_context(ply);
            let ordered = prioritize_in_context(board, false, &context);
            proof {
                lemma_tt_first_from(ordered@, tt_move);
            }
            order_tt_move_first(ordered, tt_move)
        };
        proof {
            assert forall|i: int| 0 <= i < moves@.len() implies legal_move(p, #[trigger] moves@[i]) by {
                assert(moves@.contains(moves@[i]));
            }
        }

        let mut best_score: i32 = -MATE;
        let mut best_move: Option<Move> = None;
        let mut cut = false;
        let mut i: usize = 0;
        while i < moves.len() && !cut
            invariant
                self.ready(),
                self.line_history() == old(self).line_history(),
                kept == (old(self).budget_kept() && !old(self).halted()),
                self.same_limits(*old(self)),
                kept ==> self.budget_kept(),
                best_move matches Some(m) ==> legal_move(p, m),
                best_move is None ==> best_score == -MATE,
                ply == 0 && depth > 0 && best_move is Some ==> self.pv_line(0).len() > 0,
                old(self).unlimited() ==> self.unlimited(),
                !self.stopped,
                self.lines_kept(*old(self), ply as int),
                self.line_heads(ply as int, best_move),
                0 <= ply < MAX_SEARCH_PLY ==> legal_line(p, self.pv_line(ply as int)),
                0 <= ply < MAX_SEARCH_PLY && (depth <= 0 || ply + 1 >= MAX_SEARCH_PLY) ==> self.pv_line(
                    ply as int,
                ).len() == 0,
                *board == orig,
                orig == *old(board),
                p == orig@,
                searchable(orig, depth as int),
                -5 <= depth,
                0 <= ply,
                ply + depth <= MAX_SEARCH_DEPTH,
                -MATE <= alpha,
                beta <= MATE,
                !cut ==> alpha < beta,
                -TRUSTED_SCORE <= best_score <= TRUSTED_SCORE,
                forall|k: int| 0 <= k < moves@.len() ==> legal_move(p, #[trigger] moves@[k]),
            decreases moves@.len() - i,
        {
            let mv = moves[i];
            proof {
                assert(legal_move(p, moves@[i as int]));
            }
            let ghost before_child = *self;
            let child_score = self.search_child(board, mv, depth, alpha, beta, ply);
            if self.stopped {
                return (None, 0);
            }
            proof {
                if 0 <= ply < MAX_SEARCH_PLY {
                    assert(self.pv_line(ply as int) == before_child.pv_line(ply as int));
                }
            }
            let move_score = -child_score;
            if depth <= 0 && move_score >= beta {
                return (best_move, beta);
            }
            if move_score > best_score {
                best_score = move_score;
                best_move = Some(mv);
                if depth > 0 {
                    let ghost searched = *self;
                    self.update_pv(ply, mv);
                    proof {
                        if 0 <= ply && ply + 1 < MAX_SEARCH_PLY {
                            let line = self.pv_line(ply as int);
                            assert(line == seq![mv] + searched.pv_line(ply + 1));
                            assert(line[0] == mv);
                            assert(line.drop_first() =~= searched.pv_line(ply + 1));
                            assert(legal_line(make_spec(p, mv), searched.pv_line(ply + 1)));
                        }
                    }
                }
            }
            if best_score > alpha {
                alpha = best_score;
            }
            if alpha >= beta {
                if depth > 0 {
                    let ghost before_cutoff = *self;
                    self.record_cutoff(board, mv, depth, ply);
                    proof {
                        if 0 <= ply < MAX_SEARCH_PLY {
                            assert(self.pv_line(ply as int) == before_cutoff.pv_line(ply as int));
                        }
                    }
                }
                cut = true;
            }
            i = i + 1;
        }

        let flag = if best_score <= alpha_at_entry {
            Flag::UpperBound
        } else if best_score >= beta {
            Flag::LowerBound
        } else {
            Flag::Exact
        };
        let ghost looped = *self;
        self.transposition_table.replace(
            HashEntry {
                zobrist: zobrist_key,
                best_move,
                depth,
                value: value_to_tt(best_score, ply),
                flag,
                age: board.halfmove_clock(),
            },
        );
        proof {
            assert forall|k: int| 0 <= k < ply && k < MAX_SEARCH_PLY implies #[trigger] self.pv_line(k)
                == old(self).pv_line(k) by {
                assert(self.pv_line(k) == looped.pv_line(k));
            }
            assert(self.pv_line(ply as int) == looped.pv_line(ply as int));
        }
        (best_move, best_score)
    }
}

/// A node in a captured decision tree (debug diagnostic).
pub struct TreeNode {
    pub mv: Move,
    pub value: i32,
    pub children: Vec<TreeNode>,
}

/// The moves of a list of tree nodes.
pub open spec fn tree_moves(nodes: Seq<TreeNode>) -> Seq<Move> {
    nodes.map_values(|n: TreeNode| n.mv)
}

/// Down to `depth` plies, each node of `nodes` is a legal move of `p`, and
/// below the last ply its replies list the legal moves of the position it
/// reaches, in move-ordering order.
pub open spec fn tree_follows(p: Position, nodes: Seq<TreeNode>, depth: nat) -> bool
    decreases depth,
{
    forall|i: int|
        0 <= i < nodes.len() ==> {
            &&& legal_move(p, #[trigger] nodes[i].mv)
            &&& if depth <= 1 {
                nodes[i].children@.len() == 0
            } else {
                &&& exists|ms: Seq<Move>, k: [Option<Move>; 2], h: Seq<i32>|
                    legal_list(make_spec(p, nodes[i].mv), ms) && tree_moves(nodes[i].children@)
                        == #[trigger] order_moves_in(make_spec(p, nodes[i].mv), ms, false, k, h)
                &&& tree_follows(make_spec(p, nodes[i].mv), nodes[i].children@, (depth - 1) as nat)
            }
        }
}

/// The effective iteration limit of a search: at least one ply.
pub open spec fn effective_depth(limits: SearchLimits) -> int {
    if limits.max_depth < 1 {
        1
    } else {
        limits.max_depth as int
    }
}

impl<'a, T: TranspositionTable> Searcher<'a, T> {
    /// Iteratively deepen within `limits` and return the best result. `now` is
    /// the search start; the clock is measured from it. Whenever a legal move
    /// exists the result holds one, even if the first iteration is cut off.
    pub fn search(&mut self, board: &mut Board, limits: &SearchLimits, now: Instant) -> (r:
        SearchResult)
        requires
            old(self).ready(),
            limits.max_depth <= MAX_SEARCH_DEPTH,
            searchable(*old(board), effective_depth(*limits)),
            budget_in_range(old(board)@.side, *limits),
        ensures
            final(self).ready(),
            *final(board) == *old(board),
            r.best_move is Some <==> has_legal(old(board)@),
            0 <= r.depth <= effective_depth(*limits),
            -TRUSTED_SCORE <= r.score <= TRUSTED_SCORE,
            r.nodes == final(self).node_count(),
            r.principal_variation@.len() > 0 ==> r.best_move == Some(r.principal_variation@[0]),
            legal_line(old(board)@, r.principal_variation@),
            !old(self).halted() && budget_ms(old(board)@.side, *limits) is None
                && limits.node_limit is None ==> 1 <= r.depth && (r.depth == effective_depth(*limits)
                || mate_score(r.score as int)),
            r.best_move matches Some(m) ==> legal_move(old(board)@, m),
            final(self).line_history() == old(self).line_history(),
            old(self).line_history().len() == 0 && r.depth >= 1 && has_legal(old(board)@)
                && old(board)@.halfmove < 100 && r.score != -MATE ==> r.principal_variation@.len() > 0,
            limits.node_limit matches Some(n) ==> (!old(self).halted() && old(self).node_count() < n
                ==> r.nodes <= n && (final(self).halted() && budget_ms(old(board)@.side, *limits) is None
                ==> r.nodes == n)),
    {
        let ghost p = board@;
        let ghost unbounded = !self.stopped && budget_ms(board@.side, *limits) is None
            && limits.node_limit is None;
        self.deadline = match compute_budget_ms(board.side_to_move(), limits) {
            Some(budget) => checked_add(&now, from_millis(budget)),
            None => None,
        };
        self.node_limit = limits.node_limit;
        let ghost budgeted = limits.node_limit is Some && !old(self).halted() && old(self).node_count()
            < limits.node_limit->0;
        let max_depth: i32 = if limits.max_depth < 1 {
            1
        } else {
            limits.max_depth as i32
        };

        // Fallback so we always return a legal move, even if depth 1 is cut off.
        let ordered = prioritize_legal_moves(board, false);
        let fallback = if ordered.len() > 0 {
            Some(ordered[0])
        } else {
            None
        };
        let mut result = SearchResult {
            best_move: fallback,
            score: 0,
            depth: 0,
            nodes: 0,
            elapsed_ms: 0,
            principal_variation: Vec::new(),
        };

        let mut depth: i32 = 1;
        let mut finished = false;
        while depth <= max_depth && !finished
            invariant
                self.ready(),
                *board == *old(board),
                p == old(board)@,
                1 <= depth <= max_depth + 1,
                max_depth == effective_depth(*limits),
                max_depth <= MAX_SEARCH_DEPTH,
                searchable(*board, max_depth as int),
                result.best_move is Some <==> has_legal(p),
                0 <= result.depth <= max_depth,
                -TRUSTED_SCORE <= result.score <= TRUSTED_SCORE,
                result.principal_variation@.len() > 0 ==> result.best_move == Some(
                    result.principal_variation@[0],
                ),
                legal_line(p, result.principal_variation@),
                unbounded ==> self.unlimited(),
                result.best_move matches Some(m) ==> legal_move(p, m),
                self.line_history() == old(self).line_history(),
                old(self).line_history().len() == 0 && result.depth >= 1 && has_legal(p) && p.halfmove
                    < 100 && result.score != -MATE ==> result.principal_variation@.len() > 0,
                budgeted == (limits.node_limit is Some && !old(self).halted() && old(self).node_count()
                    < limits.node_limit->0),
                budgeted ==> self.budget_kept() && self.node_limit == limits.node_limit && (!finished
                    ==> !self.halted()),
                budgeted && budget_ms(p.side, *limits) is None ==> self.deadline is None,
                unbounded ==> if finished {
                    result.depth == depth && mate_score(result.score as int)
                } else {
                    result.depth == depth - 1
                },
            decreases max_depth + 1 - depth, if finished { 0int } else { 1int },
        {
            let ghost before = *self;
            let (best_move, score) = self.negamax(board, depth, -MATE, MATE, 0);
            proof {
                if old(self).line_history().len() == 0 {
                    let h = board.hash_value();
                    let line = before.line_history().push(h);
                    assert(line.drop_last() =~= Seq::<u64>::empty());
                    assert(key_count(line.drop_last(), h) == 0);
                    assert(key_count(line, h) == 1);
                }
            }
            if self.stopped {
                // Discard this incomplete iteration.
                finished = true;
            } else {
                if best_move.is_some() {
                    result.best_move = best_move;
                }
                result.score = score;
                result.depth = depth;
                result.principal_variation = self.pv_table[0].clone();
                if is_mate_score(score) {
                    // A forced mate is found; deeper search cannot improve it.
                    finished = true;
                } else {
                    depth = depth + 1;
                }
            }
        }
        result.nodes = self.nodes;
        let millis = as_millis(&elapsed(&now));
        result.elapsed_ms = if millis > u64::MAX as u128 {
            u64::MAX
        } else {
            millis as u64
        };
        result
    }

    /// The best move searched to a fixed `depth`, with no time limit; the
    /// first ordered legal move when the search names none. Searched a ply or
    /// more deep, it is none exactly when no move is legal.
    pub fn best_move(&mut self, board: &mut Board, depth: i32) -> (r: Option<Move>)
        requires
            old(self).ready(),
            0 <= depth <= MAX_SEARCH_DEPTH,
            searchable(*old(board), depth as int),
        ensures
            final(self).ready(),
            *final(board) == *old(board),
            has_legal(old(board)@) ==> r is Some,
            depth > 0 && !has_legal(old(board)@) ==> r is None,
            r matches Some(m) ==> legal_move(old(board)@, m),
    {
        let (best, _score) = self.negamax(board, depth, -MATE, MATE, 0);
        if best.is_some() {
            return best;
        }
        let ordered = prioritize_legal_moves(board, false);
        if ordered.len() > 0 {
            Some(ordered[0])
        } else {
            None
        }
    }

    /// Capture a decision tree `tree_depth` plies deep — the debug diagnostic:
    /// every legal move in order, with its searched value and the replies.
    pub fn capture_tree(
        &mut self,
        board: &mut Board,
        search_depth: i32,
        tree_depth: u32,
        ply: i32,
    ) -> (r: Vec<TreeNode>)
        requires
            old(self).ready(),
            searchable(*old(board), search_depth as int),
            tree_depth <= search_depth + 5,
            0 <= ply,
            ply + search_depth <= MAX_SEARCH_DEPTH,
        ensures
            final(self).ready(),
            *final(board) == *old(board),
            tree_depth == 0 ==> r@.len() == 0,
            tree_depth > 0 ==> exists|ms: Seq<Move>|
                legal_list(old(board)@, ms) && tree_moves(r@) == order_moves_in(
                    old(board)@,
                    ms,
                    false,
                    old(self).killers_for(ply as int),
                    old(self).history_table(),
                ),
            tree_depth > 0 ==> tree_follows(old(board)@, r@, tree_depth as nat),
            old(self).unlimited() ==> final(self).unlimited(),
            old(self).unlimited() ==> forall|i: int|
                0 <= i < r@.len() && in_check_spec(make_spec(old(board)@, #[trigger] r@[i].mv)) && !has_legal(
                    make_spec(old(board)@, r@[i].mv),
                ) ==> r@[i].value == MATE - (ply + 1),
        decreases tree_depth,
    {
        if tree_depth == 0 {
            return Vec::new();
        }
        let ghost orig = *board;
        let ghost p = board@;
        let context = self.ordering_context(ply);
        let moves = prioritize_in_context(board, false, &context);
        let mut nodes: Vec<TreeNode> = Vec::new();
        let mut i: usize = 0;
        while i < moves.len()
            invariant
                self.ready(),
                *board == orig,
                orig == *old(board),
                p == orig@,
                searchable(orig, search_depth as int),
                1 <= tree_depth <= search_depth + 5,
                0 <= ply,
                ply + search_depth <= MAX_SEARCH_DEPTH,
                crate::movesort::all_legal(p, moves@),
                i <= moves@.len(),
                nodes@.len() == i,
                forall|j: int| 0 <= j < i ==> #[trigger] nodes@[j].mv == moves@[j],
                tree_follows(p, nodes@, tree_depth as nat),
                old(self).unlimited() ==> self.unlimited(),
                old(self).unlimited() ==> forall|j: int|
                    0 <= j < i && in_check_spec(make_spec(p, #[trigger] nodes@[j].mv)) && !has_legal(
                        make_spec(p, nodes@[j].mv),
                    ) ==> nodes@[j].value == MATE - (ply + 1),
            decreases moves@.len() - i,
        {
            let mv = moves[i];
            proof {
                assert(legal_move(p, moves@[i as int]));
                lemma_pseudo_applicable(p, mv);
                law_legal_move_keeps_valid(p, mv);
            }
            let undo = board.make_move(mv);
            let (_, child_score) = self.negamax(board, search_depth - 1, -MATE, MATE, ply + 1);
            let ghost searched_killers = self.killers_for(ply + 1);
            let ghost searched_history = self.history_table();
            let children = self.capture_tree(board, search_depth - 1, tree_depth - 1, ply + 1);
            proof {
                crate::board::law_unmake_undoes_make(p, mv, undo);
            }
            let ghost b1 = *board;
            board.unmake_move(mv, undo);
            proof {
                crate::board::law_make_unmake_restores_board(orig, b1, *board, mv, undo);
            }
            let ghost before = nodes@;
            let node = TreeNode { mv, value: -child_score, children };
            proof {
                assert(legal_move(p, node.mv));
                if tree_depth > 1 {
                    let c = make_spec(p, mv);
                    let ms = choose|ms: Seq<Move>|
                        legal_list(c, ms) && tree_moves(node.children@) == order_moves_in(
                            c,
                            ms,
                            false,
                            searched_killers,
                            searched_history,
                        );
                    assert(order_moves_in(c, ms, false, searched_killers, searched_history) == tree_moves(
                        node.children@,
                    ));
                }
            }
            nodes.push(node);
            proof {
                assert forall|j: int| 0 <= j < nodes@.len() implies #[trigger] nodes@[j] == if j
                    < before.len() {
                    before[j]
                } else {
                    node
                } by {}
            }
            i = i + 1;
        }
        proof {
            assert(tree_moves(nodes@) =~= moves@);
        }
        nodes
    }
}

} // verus!
