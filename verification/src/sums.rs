//! Finite sums over the squares a predicate selects, the arithmetic behind
//! the evaluation's bitboard loops.
use vstd::prelude::*;

use crate::attacks::bits;
use crate::types::{bit_count, flip_square, in_bb, group_bitboard};

verus! {

broadcast use group_bitboard;

/// The sum of `f(s)` over the squares `s < n` that `pred` selects.
pub open spec fn sum_where(pred: spec_fn(int) -> bool, f: spec_fn(int) -> int, n: int) -> int
    decreases n,
{
    if n <= 0 {
        0
    } else {
        sum_where(pred, f, n - 1) + if pred(n - 1) {
            f(n - 1)
        } else {
            0
        }
    }
}

/// The number of squares `s < n` that `pred` selects.
pub open spec fn count_where(pred: spec_fn(int) -> bool, n: int) -> int {
    sum_where(pred, |s: int| 1int, n)
}

/// The terms of the eight squares of `rank`.
pub open spec fn rank_sum(pred: spec_fn(int) -> bool, f: spec_fn(int) -> int, rank: int) -> int {
    (if pred(rank * 8) { f(rank * 8) } else { 0 }) + (if pred(rank * 8 + 1) { f(rank * 8 + 1) } else { 0 })
        + (if pred(rank * 8 + 2) { f(rank * 8 + 2) } else { 0 }) + (if pred(rank * 8 + 3) { f(rank * 8 + 3) } else { 0 })
        + (if pred(rank * 8 + 4) { f(rank * 8 + 4) } else { 0 }) + (if pred(rank * 8 + 5) { f(rank * 8 + 5) } else { 0 })
        + (if pred(rank * 8 + 6) { f(rank * 8 + 6) } else { 0 }) + (if pred(rank * 8 + 7) { f(rank * 8 + 7) } else { 0 })
}

/// A sum over the first ranks is the sum over one rank fewer plus that rank.
proof fn lemma_sum_by_rank(pred: spec_fn(int) -> bool, f: spec_fn(int) -> int, rank: int)
    requires
        1 <= rank <= 8,
    ensures
        sum_where(pred, f, rank * 8) == sum_where(pred, f, (rank - 1) * 8) + rank_sum(pred, f, rank - 1),
{
    let b = (rank - 1) * 8;
    assert(sum_where(pred, f, b + 1) == sum_where(pred, f, b) + if pred(b) { f(b) } else { 0 });
    assert(sum_where(pred, f, b + 2) == sum_where(pred, f, b + 1) + if pred(b + 1) { f(b + 1) } else { 0 });
    assert(sum_where(pred, f, b + 3) == sum_where(pred, f, b + 2) + if pred(b + 2) { f(b + 2) } else { 0 });
    assert(sum_where(pred, f, b + 4) == sum_where(pred, f, b + 3) + if pred(b + 3) { f(b + 3) } else { 0 });
    assert(sum_where(pred, f, b + 5) == sum_where(pred, f, b + 4) + if pred(b + 4) { f(b + 4) } else { 0 });
    assert(sum_where(pred, f, b + 6) == sum_where(pred, f, b + 5) + if pred(b + 5) { f(b + 5) } else { 0 });
    assert(sum_where(pred, f, b + 7) == sum_where(pred, f, b + 6) + if pred(b + 6) { f(b + 6) } else { 0 });
    assert(sum_where(pred, f, b + 8) == sum_where(pred, f, b + 7) + if pred(b + 7) { f(b + 7) } else { 0 });
    assert(rank * 8 == b + 8);
}

/// A rank of the flipped sum is the opposite rank of the unflipped sum.
proof fn lemma_flip_rank(
    p1: spec_fn(int) -> bool,
    f1: spec_fn(int) -> int,
    p2: spec_fn(int) -> bool,
    f2: spec_fn(int) -> int,
    rank: int,
)
    requires
        0 <= rank < 8,
        forall|s: int| 0 <= s < 64 ==> #[trigger] p2(s) == p1(flip_square(s)),
        forall|s: int| 0 <= s < 64 && #[trigger] p2(s) ==> f2(s) == f1(flip_square(s)),
    ensures
        rank_sum(p2, f2, rank) == rank_sum(p1, f1, 7 - rank),
{
    let b = rank * 8;
    let o = (7 - rank) * 8;
    assert(flip_square(b) == o);
    assert(flip_square(b + 1) == o + 1);
    assert(flip_square(b + 2) == o + 2);
    assert(flip_square(b + 3) == o + 3);
    assert(flip_square(b + 4) == o + 4);
    assert(flip_square(b + 5) == o + 5);
    assert(flip_square(b + 6) == o + 6);
    assert(flip_square(b + 7) == o + 7);
    assert(p2(b) == p1(o) && p2(b + 1) == p1(o + 1) && p2(b + 2) == p1(o + 2) && p2(b + 3) == p1(o + 3));
    assert(p2(b + 4) == p1(o + 4) && p2(b + 5) == p1(o + 5) && p2(b + 6) == p1(o + 6) && p2(b + 7) == p1(o + 7));
}

/// Summing over the board seen from the other side, square for flipped
/// square, gives the same total.
pub proof fn lemma_sum_flip(
    p1: spec_fn(int) -> bool,
    f1: spec_fn(int) -> int,
    p2: spec_fn(int) -> bool,
    f2: spec_fn(int) -> int,
)
    requires
        forall|s: int| 0 <= s < 64 ==> #[trigger] p2(s) == p1(flip_square(s)),
        forall|s: int| 0 <= s < 64 && #[trigger] p2(s) ==> f2(s) == f1(flip_square(s)),
    ensures
        sum_where(p2, f2, 64) == sum_where(p1, f1, 64),
{
    lemma_flip_rank(p1, f1, p2, f2, 0);
    lemma_flip_rank(p1, f1, p2, f2, 1);
    lemma_flip_rank(p1, f1, p2, f2, 2);
    lemma_flip_rank(p1, f1, p2, f2, 3);
    lemma_flip_rank(p1, f1, p2, f2, 4);
    lemma_flip_rank(p1, f1, p2, f2, 5);
    lemma_flip_rank(p1, f1, p2, f2, 6);
    lemma_flip_rank(p1, f1, p2, f2, 7);
    lemma_sum_by_rank(p1, f1, 1);
    lemma_sum_by_rank(p1, f1, 2);
    lemma_sum_by_rank(p1, f1, 3);
    lemma_sum_by_rank(p1, f1, 4);
    lemma_sum_by_rank(p1, f1, 5);
    lemma_sum_by_rank(p1, f1, 6);
    lemma_sum_by_rank(p1, f1, 7);
    lemma_sum_by_rank(p1, f1, 8);
    lemma_sum_by_rank(p2, f2, 1);
    lemma_sum_by_rank(p2, f2, 2);
    lemma_sum_by_rank(p2, f2, 3);
    lemma_sum_by_rank(p2, f2, 4);
    lemma_sum_by_rank(p2, f2, 5);
    lemma_sum_by_rank(p2, f2, 6);
    lemma_sum_by_rank(p2, f2, 7);
    lemma_sum_by_rank(p2, f2, 8);
}

/// Negating every selected term negates the sum.
pub proof fn lemma_sum_neg(pred: spec_fn(int) -> bool, f: spec_fn(int) -> int, g: spec_fn(int) -> int, n: int)
    requires
        forall|s: int| 0 <= s < n && #[trigger] pred(s) ==> g(s) == -f(s),
    ensures
        sum_where(pred, g, n) == -sum_where(pred, f, n),
    decreases n,
{
    if n > 0 {
        lemma_sum_neg(pred, f, g, n - 1);
    }
}

/// Removing one selected square takes its term out of the sum.
pub proof fn lemma_sum_remove(
    p1: spec_fn(int) -> bool,
    p2: spec_fn(int) -> bool,
    t: int,
    f: spec_fn(int) -> int,
    n: int,
)
    requires
        p1(t),
        forall|s: int| #[trigger] p2(s) == (p1(s) && s != t),
    ensures
        sum_where(p1, f, n) == sum_where(p2, f, n) + if 0 <= t < n {
            f(t)
        } else {
            0
        },
    decreases n,
{
    if n > 0 {
        lemma_sum_remove(p1, p2, t, f, n - 1);
    }
}

/// Predicates that agree below `n` select the same sum.
pub proof fn lemma_sum_ext(
    p1: spec_fn(int) -> bool,
    p2: spec_fn(int) -> bool,
    f: spec_fn(int) -> int,
    n: int,
)
    requires
        forall|s: int| 0 <= s < n ==> #[trigger] p1(s) == p2(s),
    ensures
        sum_where(p1, f, n) == sum_where(p2, f, n),
    decreases n,
{
    if n > 0 {
        lemma_sum_ext(p1, p2, f, n - 1);
    }
}

/// Terms that agree on the selected squares give the same sum.
pub proof fn lemma_sum_terms(
    pred: spec_fn(int) -> bool,
    f: spec_fn(int) -> int,
    g: spec_fn(int) -> int,
    n: int,
)
    requires
        forall|s: int| 0 <= s < n && #[trigger] pred(s) ==> f(s) == g(s),
    ensures
        sum_where(pred, f, n) == sum_where(pred, g, n),
    decreases n,
{
    if n > 0 {
        lemma_sum_terms(pred, f, g, n - 1);
    }
}

/// A sum of at most `n` terms of size at most `m`.
pub proof fn lemma_sum_bound(pred: spec_fn(int) -> bool, f: spec_fn(int) -> int, n: int, m: int)
    requires
        0 <= n,
        0 <= m,
        forall|s: int| 0 <= s < n && #[trigger] pred(s) ==> -m <= f(s) <= m,
    ensures
        -(n * m) <= sum_where(pred, f, n) <= n * m,
    decreases n,
{
    if n > 0 {
        lemma_sum_bound(pred, f, n - 1, m);
        assert((n - 1) * m + m == n * m) by (nonlinear_arith);
    }
}

/// An empty bitboard sums to zero.
pub proof fn lemma_sum_empty(f: spec_fn(int) -> int, n: int)
    ensures
        sum_where(bits(0), f, n) == 0,
    decreases n,
{
    if n > 0 {
        lemma_sum_empty(f, n - 1);
        assert(!in_bb(0, n - 1));
    }
}

/// A bitboard's population count counts its squares.
pub proof fn lemma_count_bits(b: u64, n: int)
    ensures
        bit_count(b, n) == count_where(bits(b), n),
    decreases n,
{
    if n > 0 {
        lemma_count_bits(b, n - 1);
    }
}

/// Clearing one set bit lowers the population count by one.
pub proof fn lemma_count_remove(b: u64, c: u64, t: int)
    requires
        in_bb(b, t),
        forall|s: int| #[trigger] in_bb(c, s) == (in_bb(b, s) && s != t),
    ensures
        crate::types::popcount(c) == crate::types::popcount(b) - 1,
{
    lemma_count_bits(b, 64);
    lemma_count_bits(c, 64);
    assert forall|s: int| #[trigger] bits(c)(s) == (bits(b)(s) && s != t) by {}
    lemma_sum_remove(bits(b), bits(c), t, |s: int| 1int, 64);
}

/// A count is never negative.
pub proof fn lemma_count_nonneg(pred: spec_fn(int) -> bool, n: int)
    ensures
        count_where(pred, n) >= 0,
    decreases n,
{
    if n > 0 {
        lemma_count_nonneg(pred, n - 1);
    }
}

/// A sum of non-negative terms is non-negative.
pub proof fn lemma_sum_nonneg(pred: spec_fn(int) -> bool, f: spec_fn(int) -> int, n: int)
    requires
        forall|s: int| 0 <= s < n && #[trigger] pred(s) ==> f(s) >= 0,
    ensures
        sum_where(pred, f, n) >= 0,
    decreases n,
{
    if n > 0 {
        lemma_sum_nonneg(pred, f, n - 1);
    }
}

/// Zero terms sum to zero.
pub proof fn lemma_sum_zero(pred: spec_fn(int) -> bool, n: int)
    ensures
        sum_where(pred, |s: int| 0int, n) == 0,
    decreases n,
{
    if n > 0 {
        lemma_sum_zero(pred, n - 1);
    }
}

} // verus!
