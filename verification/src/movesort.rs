//! MoveSorter — orders legal moves to improve pruning.
//!
//! Full search order: checks, then captures by MVV-LVA, then quiet moves by
//! their position-value change. Quiescence uses checks + captures only (or every
//! evasion when in check). `is_endgame` is the frozen root value. Within a
//! search, an ordering context puts the ply's killer moves at the front of the
//! quiet group and orders the other quiet moves by history score.
use vstd::prelude::*;

use crate::attacks::{attacked, is_square_attacked};
use crate::board::{
    law_make_unmake_restores_board, law_unmake_undoes_make, make_spec, Board, Position,
};
use crate::chess_move::{lemma_move_bounds, Move};
use crate::eval::{mg_piece_value, piece_value, position_value, square_value};
use crate::movegen::{
    clock_room, generate_legal, king_square_of, law_legal_move_keeps_valid, legal_move,
    lemma_king_square, lemma_pseudo_applicable, position_valid,
};
use crate::types::{Color, PieceType};

verus! {

/// Clamp history scores to keep them bounded and ordering stable.
pub const HISTORY_MAX: i32 = 16_777_216;

/// History-heuristic entries: side to move x from square x to square.
pub const HISTORY_SIZE: usize = 8192;

/// The history-table slot of a move by `side`: `[side][from][to]` flattened.
pub fn history_index(side: Color, mv: Move) -> (r: usize)
    ensures
        r == side.idx() * 4096 + mv.from_sq() * 64 + mv.to_sq(),
        r < HISTORY_SIZE,
{
    side.index() * 4096 + mv.from() as usize * 64 + mv.to() as usize
}

/// The history-table slot of a move by `side`.
pub open spec fn history_index_spec(side: Color, mv: Move) -> int {
    side.idx() * 4096 + mv.from_sq() * 64 + mv.to_sq()
}

/// What the search knows at a node that orders quiet moves: the ply's two
/// killer moves and the history scores.
pub struct OrderingContext<'a> {
    pub killers: [Option<Move>; 2],
    pub history: &'a Vec<i32>,
}

/// The history table has its size and every score its range.
pub open spec fn history_ok(history: Seq<i32>) -> bool {
    &&& history.len() == HISTORY_SIZE
    &&& forall|i: int| 0 <= i < HISTORY_SIZE ==> 0 <= #[trigger] history[i] <= HISTORY_MAX
}

/// The key the quiet group is ordered by in a context: the first killer, then
/// the second, then the history score, highest first.
pub open spec fn quiet_key(p: Position, killers: [Option<Move>; 2], history: Seq<i32>) -> spec_fn(
    Move,
) -> (int, int) {
    |m: Move|
        (
            if killers[0] == Some(m) {
                HISTORY_MAX + 2
            } else if killers[1] == Some(m) {
                HISTORY_MAX + 1
            } else {
                history[history_index_spec(p.side, m)] as int
            },
            0int,
        )
}

/// The side to move's king is attacked.
pub open spec fn in_check_spec(p: Position) -> bool {
    attacked(p, king_square_of(p, p.side), p.side.opp())
}

/// Is the side to move in check?
pub fn in_check(board: &Board) -> (r: bool)
    requires
        board.bits_ok(),
        king_square_of(board@, board@.side) < 64,
    ensures
        r == in_check_spec(board@),
{
    let us = board.side_to_move();
    proof {
        lemma_king_square(*board, us);
    }
    is_square_attacked(board, board.king_square(us), us.opponent())
}

/// Playing `m` leaves the opponent's king attacked.
pub open spec fn checks_after(p: Position, m: Move) -> bool {
    let q = make_spec(p, m);
    attacked(q, king_square_of(q, p.side.opp()), p.side)
}

/// The positions the move orderer works on: valid, with room on the clocks.
pub open spec fn playable(board: Board) -> bool {
    &&& board.wf()
    &&& position_valid(board@)
    &&& clock_room(board@, 1)
}

/// Does playing `mv` give check to the opponent?
pub fn gives_check(board: &mut Board, mv: Move) -> (r: bool)
    requires
        playable(*old(board)),
        legal_move(old(board)@, mv),
    ensures
        *final(board) == *old(board),
        r == checks_after(old(board)@, mv),
{
    let ghost orig = *board;
    let ghost p = board@;
    proof {
        lemma_pseudo_applicable(p, mv);
        law_legal_move_keeps_valid(p, mv);
    }
    let mover = board.side_to_move();
    let opponent = mover.opponent();
    let undo = board.make_move(mv);
    proof {
        lemma_king_square(*board, opponent);
    }
    let king = board.king_square(opponent);
    let checked = is_square_attacked(board, king, mover);
    proof {
        law_unmake_undoes_make(p, mv, undo);
    }
    let ghost b1 = *board;
    board.unmake_move(mv, undo);
    proof {
        law_make_unmake_restores_board(orig, b1, *board, mv, undo);
    }
    checked
}

/// The piece kind on a square known to hold one.
pub open spec fn kind_on(p: Position, s: int) -> PieceType {
    p.squares[s]->0.piece_type
}

/// What a capture wins in material: an en passant capture wins a pawn.
pub open spec fn capture_gain(p: Position, m: Move) -> int {
    if m.flag_of() == 5 {
        piece_value(true, PieceType::Pawn)
    } else {
        piece_value(true, kind_on(p, m.to_sq())) - piece_value(true, kind_on(p, m.from_sq()))
    }
}

/// The moves a value can be given: a promotion, or a move whose mover, and
/// victim if it captures other than en passant, stand on the board.
pub open spec fn scorable(p: Position, m: Move) -> bool {
    ||| m.promotion_spec() is Some
    ||| {
        &&& p.squares[m.from_sq()] is Some
        &&& m.capture_spec() && m.flag_of() != 5 ==> p.squares[m.to_sq()] is Some
    }
}

/// The ordering value of a move: a promotion is worth a queen; otherwise the
/// capture gain plus the piece-square change of the mover.
pub open spec fn move_value(p: Position, m: Move, is_endgame: bool) -> int {
    if m.promotion_spec() is Some {
        piece_value(true, PieceType::Queen)
    } else {
        let piece = kind_on(p, m.from_sq());
        (if m.capture_spec() {
            capture_gain(p, m)
        } else {
            0
        }) + square_value(!is_endgame, p.side, piece, m.to_sq()) - square_value(
            !is_endgame,
            p.side,
            piece,
            m.from_sq(),
        )
    }
}

fn capture_value(board: &Board, mv: Move) -> (r: i32)
    requires
        board.bits_ok(),
        board@.squares[mv.from_sq()] is Some,
        mv.flag_of() != 5 ==> board@.squares[mv.to_sq()] is Some,
    ensures
        r == capture_gain(board@, mv),
        -1025 <= r <= 1025,
{
    if mv.is_en_passant() {
        return mg_piece_value(PieceType::Pawn);
    }
    let aggressor = board.piece_at(mv.from()).unwrap().piece_type;
    let victim = board.piece_at(mv.to()).unwrap().piece_type;
    mg_piece_value(victim) - mg_piece_value(aggressor)
}

fn position_value_change(
    piece: PieceType,
    color: Color,
    from: u8,
    to: u8,
    is_endgame: bool,
) -> (r: i32)
    requires
        from < 64,
        to < 64,
    ensures
        r == square_value(!is_endgame, color, piece, to as int) - square_value(
            !is_endgame,
            color,
            piece,
            from as int,
        ),
        -400 <= r <= 400,
{
    position_value(piece, color, to, is_endgame) - position_value(piece, color, from, is_endgame)
}

/// The ordering score for a non-MVV-LVA move: promotion is a queen's worth;
/// otherwise capture gain plus the piece-square change.
pub fn evaluate_move_value(board: &Board, mv: Move, is_endgame: bool) -> (r: i32)
    requires
        board.bits_ok(),
        scorable(board@, mv),
    ensures
        r == move_value(board@, mv, is_endgame),
        -1425 <= r <= 1425,
{
    if mv.promotion().is_some() {
        return mg_piece_value(PieceType::Queen);
    }
    let mut value: i32 = 0;
    if mv.is_capture() {
        value = value + capture_value(board, mv);
    }
    let color = board.side_to_move();
    let piece = board.piece_at(mv.from()).unwrap().piece_type;
    value = value + position_value_change(piece, color, mv.from(), mv.to(), is_endgame);
    value
}

/// `a` sorts strictly before `b`: a higher first key, or an equal first key
/// and a lower second key.
pub open spec fn ranks_before(a: (int, int), b: (int, int)) -> bool {
    a.0 > b.0 || (a.0 == b.0 && a.1 < b.1)
}

/// `x` inserted into the sorted `l` after every element it does not sort
/// strictly before.
pub open spec fn insert_ranked(l: Seq<Move>, x: Move, key: spec_fn(Move) -> (int, int)) -> Seq<
    Move,
>
    decreases l.len(),
{
    if l.len() == 0 {
        seq![x]
    } else if ranks_before(key(x), key(l.last())) {
        insert_ranked(l.drop_last(), x, key).push(l.last())
    } else {
        l.push(x)
    }
}

/// The stable sort of `s` by `key`: highest first key first, ties by lowest
/// second key, remaining ties in their input order.
pub open spec fn sort_ranked(s: Seq<Move>, key: spec_fn(Move) -> (int, int)) -> Seq<Move>
    decreases s.len(),
{
    if s.len() == 0 {
        seq![]
    } else {
        insert_ranked(sort_ranked(s.drop_last(), key), s.last(), key)
    }
}

proof fn lemma_insert_at(l: Seq<Move>, x: Move, key: spec_fn(Move) -> (int, int), j: int)
    requires
        0 <= j <= l.len(),
        forall|k: int| j <= k < l.len() ==> ranks_before(key(x), key(#[trigger] l[k])),
        j == 0 || !ranks_before(key(x), key(l[j - 1])),
    ensures
        insert_ranked(l, x, key) == l.take(j) + seq![x] + l.skip(j),
    decreases l.len(),
{
    if l.len() == 0 {
        assert(l.take(j) + seq![x] + l.skip(j) =~= seq![x]);
    } else if j == l.len() {
        assert(!ranks_before(key(x), key(l.last())));
        assert(l.take(j) + seq![x] + l.skip(j) =~= l.push(x));
    } else {
        assert(ranks_before(key(x), key(l[l.len() - 1])));
        lemma_insert_at(l.drop_last(), x, key, j);
        assert(l.drop_last().take(j) + seq![x] + l.drop_last().skip(j) + seq![l.last()] =~= l.take(j)
            + seq![x] + l.skip(j));
    }
}

/// Stable insertion sort of `moves` by their precomputed `keys`.
fn sort_by_rank(moves: &Vec<Move>, keys: &Vec<(i32, i32)>, Ghost(key): Ghost<spec_fn(Move) -> (int, int)>) -> (r: Vec<Move>)
    requires
        moves@.len() == keys@.len(),
        forall|i: int|
            0 <= i < moves@.len() ==> #[trigger] key(moves@[i]) == (keys@[i].0 as int, keys@[i].1 as int),
    ensures
        r@ == sort_ranked(moves@, key),
{
    let mut out: Vec<Move> = Vec::new();
    let mut out_keys: Vec<(i32, i32)> = Vec::new();
    let mut i: usize = 0;
    while i < moves.len()
        invariant
            i <= moves@.len(),
            moves@.len() == keys@.len(),
            forall|k: int|
                0 <= k < moves@.len() ==> #[trigger] key(moves@[k]) == (keys@[k].0 as int, keys@[k].1 as int),
            out@ == sort_ranked(moves@.take(i as int), key),
            out@.len() == out_keys@.len(),
            forall|k: int|
                0 <= k < out@.len() ==> #[trigger] key(out@[k]) == (out_keys@[k].0 as int, out_keys@[k].1 as int),
        decreases moves@.len() - i,
    {
        let x = moves[i];
        let kx = keys[i];
        let ghost l = out@;
        proof {
            assert(moves@.take(i + 1).drop_last() =~= moves@.take(i as int));
            assert(moves@.take(i + 1).last() == x);
        }
        out.push(x);
        out_keys.push(kx);
        let mut j: usize = out.len() - 1;
        while j > 0 && (kx.0 > out_keys[j - 1].0 || (kx.0 == out_keys[j - 1].0 && kx.1
            < out_keys[j - 1].1))
            invariant
                j < out@.len(),
                out@.len() == l.len() + 1,
                out@.len() == out_keys@.len(),
                key(x) == (kx.0 as int, kx.1 as int),
                out@ == l.take(j as int) + seq![x] + l.skip(j as int),
                forall|k: int|
                    0 <= k < out@.len() ==> #[trigger] key(out@[k]) == (out_keys@[k].0 as int, out_keys@[k].1 as int),
                forall|k: int| j <= k < l.len() ==> ranks_before(key(x), key(#[trigger] l[k])),
            decreases j,
        {
            let y = out[j - 1];
            let ky = out_keys[j - 1];
            out.set(j, y);
            out.set(j - 1, x);
            out_keys.set(j, ky);
            out_keys.set(j - 1, kx);
            proof {
                assert(l[j - 1] == y);
                assert(out@ =~= l.take(j - 1) + seq![x] + l.skip(j - 1));
            }
            j = j - 1;
        }
        proof {
            if j > 0 {
                assert(out@[j - 1] == l[j - 1]);
            }
            lemma_insert_at(l, x, key, j as int);
        }
        i = i + 1;
    }
    proof {
        assert(moves@.take(moves@.len() as int) =~= moves@);
    }
    out
}

/// The key `sort_by_value` orders by: the move value, highest first.
pub open spec fn value_key(p: Position, is_endgame: bool) -> spec_fn(Move) -> (int, int) {
    |m: Move| (move_value(p, m, is_endgame), 0int)
}

/// The victim's and the aggressor's value; an en passant capture is a pawn
/// taking a pawn.
pub open spec fn victim_aggressor(p: Position, m: Move) -> (int, int) {
    if m.flag_of() == 5 {
        (piece_value(true, PieceType::Pawn), piece_value(true, PieceType::Pawn))
    } else {
        (piece_value(true, kind_on(p, m.to_sq())), piece_value(true, kind_on(p, m.from_sq())))
    }
}

/// The key `sort_mvv_lva` orders by: the most valuable victim first, then the
/// least valuable aggressor.
pub open spec fn mvv_key(p: Position) -> spec_fn(Move) -> (int, int) {
    |m: Move| victim_aggressor(p, m)
}

/// The mover stands on the board, and so does the victim of a capture other
/// than en passant.
pub open spec fn pieces_present(p: Position, m: Move) -> bool {
    &&& p.squares[m.from_sq()] is Some
    &&& m.flag_of() != 5 ==> p.squares[m.to_sq()] is Some
}

/// Moves by their value, highest first; ties keep their order.
pub fn sort_by_value(board: &Board, moves: Vec<Move>, is_endgame: bool) -> (r: Vec<Move>)
    requires
        board.bits_ok(),
        forall|i: int| 0 <= i < moves@.len() ==> scorable(board@, #[trigger] moves@[i]),
    ensures
        r@ == sort_ranked(moves@, value_key(board@, is_endgame)),
{
    let ghost key = value_key(board@, is_endgame);
    let mut keys: Vec<(i32, i32)> = Vec::new();
    let mut i: usize = 0;
    while i < moves.len()
        invariant
            i <= moves@.len(),
            board.bits_ok(),
            forall|k: int| 0 <= k < moves@.len() ==> scorable(board@, #[trigger] moves@[k]),
            key == value_key(board@, is_endgame),
            keys@.len() == i,
            forall|k: int|
                0 <= k < i ==> #[trigger] key(moves@[k]) == (keys@[k].0 as int, keys@[k].1 as int),
        decreases moves@.len() - i,
    {
        let value = evaluate_move_value(board, moves[i], is_endgame);
        keys.push((value, 0));
        i = i + 1;
    }
    sort_by_rank(&moves, &keys, Ghost(key))
}

fn victim_and_aggressor(board: &Board, mv: Move) -> (r: (i32, i32))
    requires
        board.bits_ok(),
        pieces_present(board@, mv),
    ensures
        (r.0 as int, r.1 as int) == victim_aggressor(board@, mv),
{
    if mv.is_en_passant() {
        let pawn = mg_piece_value(PieceType::Pawn);
        return (pawn, pawn);
    }
    let aggressor = board.piece_at(mv.from()).unwrap().piece_type;
    let victim = board.piece_at(mv.to()).unwrap().piece_type;
    (mg_piece_value(victim), mg_piece_value(aggressor))
}

/// Most Valuable Victim, Least Valuable Aggressor: highest victim first, then
/// lowest aggressor; ties keep their order.
pub fn sort_mvv_lva(board: &Board, moves: Vec<Move>) -> (r: Vec<Move>)
    requires
        board.bits_ok(),
        forall|i: int| 0 <= i < moves@.len() ==> pieces_present(board@, #[trigger] moves@[i]),
    ensures
        r@ == sort_ranked(moves@, mvv_key(board@)),
{
    let ghost key = mvv_key(board@);
    let mut keys: Vec<(i32, i32)> = Vec::new();
    let mut i: usize = 0;
    while i < moves.len()
        invariant
            i <= moves@.len(),
            board.bits_ok(),
            forall|k: int| 0 <= k < moves@.len() ==> pieces_present(board@, #[trigger] moves@[k]),
            key == mvv_key(board@),
            keys@.len() == i,
            forall|k: int|
                0 <= k < i ==> #[trigger] key(moves@[k]) == (keys@[k].0 as int, keys@[k].1 as int),
        decreases moves@.len() - i,
    {
        let pair = victim_and_aggressor(board, moves[i]);
        keys.push(pair);
        i = i + 1;
    }
    sort_by_rank(&moves, &keys, Ghost(key))
}

/// The elements of `s` that `pred` selects, in order.
pub open spec fn keep(s: Seq<Move>, pred: spec_fn(Move) -> bool) -> Seq<Move>
    decreases s.len(),
{
    if s.len() == 0 {
        seq![]
    } else if pred(s.last()) {
        keep(s.drop_last(), pred).push(s.last())
    } else {
        keep(s.drop_last(), pred)
    }
}

proof fn lemma_keep_within(s: Seq<Move>, pred: spec_fn(Move) -> bool)
    ensures
        forall|i: int| 0 <= i < keep(s, pred).len() ==> s.contains(#[trigger] keep(s, pred)[i]),
    decreases s.len(),
{
    if s.len() > 0 {
        lemma_keep_within(s.drop_last(), pred);
        let k = keep(s.drop_last(), pred);
        assert forall|i: int| 0 <= i < keep(s, pred).len() implies s.contains(
            #[trigger] keep(s, pred)[i],
        ) by {
            if i < k.len() {
                assert(s.drop_last().contains(k[i]));
                let j = choose|j: int| 0 <= j < s.drop_last().len() && s.drop_last()[j] == k[i];
                assert(s[j] == k[i]);
            } else {
                assert(s[s.len() - 1] == s.last());
            }
        }
    }
}

/// Checks first.
pub open spec fn gives_check_in(p: Position) -> spec_fn(Move) -> bool {
    |m: Move| checks_after(p, m)
}

/// Captures that give no check.
pub open spec fn quiet_capture_in(p: Position) -> spec_fn(Move) -> bool {
    |m: Move| !checks_after(p, m) && m.capture_spec()
}

/// Moves that neither check nor capture.
pub open spec fn quiet_in(p: Position) -> spec_fn(Move) -> bool {
    |m: Move| !checks_after(p, m) && !m.capture_spec()
}

/// Every element of `ms` is legal in `p`.
pub open spec fn all_legal(p: Position, ms: Seq<Move>) -> bool {
    forall|i: int| 0 <= i < ms.len() ==> legal_move(p, #[trigger] ms[i])
}

proof fn lemma_legal_scorable(p: Position, m: Move)
    requires
        position_valid(p),
        clock_room(p, 1),
        legal_move(p, m),
    ensures
        scorable(p, m),
        m.capture_spec() ==> pieces_present(p, m),
{
    lemma_pseudo_applicable(p, m);
}

proof fn lemma_keep_pred(s: Seq<Move>, pred: spec_fn(Move) -> bool)
    ensures
        forall|i: int| 0 <= i < keep(s, pred).len() ==> pred(#[trigger] keep(s, pred)[i]),
    decreases s.len(),
{
    if s.len() > 0 {
        lemma_keep_pred(s.drop_last(), pred);
        let k = keep(s.drop_last(), pred);
        assert forall|i: int| 0 <= i < keep(s, pred).len() implies pred(
            #[trigger] keep(s, pred)[i],
        ) by {
            if i < k.len() {
                assert(keep(s, pred)[i] == k[i]);
            }
        }
    }
}

proof fn lemma_kept_legal(p: Position, ms: Seq<Move>, pred: spec_fn(Move) -> bool)
    requires
        all_legal(p, ms),
    ensures
        all_legal(p, keep(ms, pred)),
{
    lemma_keep_within(ms, pred);
    assert forall|i: int| 0 <= i < keep(ms, pred).len() implies legal_move(
        p,
        #[trigger] keep(ms, pred)[i],
    ) by {
        assert(ms.contains(keep(ms, pred)[i]));
    }
}

/// Split legal moves into checks, captures and quiet moves, in their order.
fn group(board: &mut Board, moves: &Vec<Move>) -> (r: (Vec<Move>, Vec<Move>, Vec<Move>))
    requires
        playable(*old(board)),
        all_legal(old(board)@, moves@),
    ensures
        *final(board) == *old(board),
        r.0@ == keep(moves@, gives_check_in(old(board)@)),
        r.1@ == keep(moves@, quiet_capture_in(old(board)@)),
        r.2@ == keep(moves@, quiet_in(old(board)@)),
{
    let ghost p = board@;
    let mut checks: Vec<Move> = Vec::new();
    let mut captures: Vec<Move> = Vec::new();
    let mut quiets: Vec<Move> = Vec::new();
    let mut i: usize = 0;
    while i < moves.len()
        invariant
            i <= moves@.len(),
            *board == *old(board),
            p == old(board)@,
            playable(*board),
            all_legal(p, moves@),
            checks@ == keep(moves@.take(i as int), gives_check_in(p)),
            captures@ == keep(moves@.take(i as int), quiet_capture_in(p)),
            quiets@ == keep(moves@.take(i as int), quiet_in(p)),
        decreases moves@.len() - i,
    {
        let mv = moves[i];
        proof {
            assert(moves@.take(i + 1).drop_last() =~= moves@.take(i as int));
            assert(moves@.take(i + 1).last() == mv);
            assert(legal_move(p, moves@[i as int]));
        }
        if gives_check(board, mv) {
            checks.push(mv);
        } else if mv.is_capture() {
            captures.push(mv);
        } else {
            quiets.push(mv);
        }
        i = i + 1;
    }
    proof {
        assert(moves@.take(moves@.len() as int) =~= moves@);
    }
    (checks, captures, quiets)
}

fn append_all(dst: &mut Vec<Move>, src: Vec<Move>)
    ensures
        final(dst)@ == old(dst)@ + src@,
{
    let mut i: usize = 0;
    while i < src.len()
        invariant
            i <= src@.len(),
            dst@ == old(dst)@ + src@.take(i as int),
        decreases src@.len() - i,
    {
        dst.push(src[i]);
        i = i + 1;
        proof {
            assert(dst@ =~= old(dst)@ + src@.take(i as int));
        }
    }
    proof {
        assert(src@.take(src@.len() as int) =~= src@);
    }
}

/// The full order of a list of legal moves: checks by value, then captures by
/// MVV-LVA, then quiet moves by value.
pub open spec fn order_moves(p: Position, ms: Seq<Move>, is_endgame: bool) -> Seq<Move> {
    sort_ranked(keep(ms, gives_check_in(p)), value_key(p, is_endgame)) + sort_ranked(
        keep(ms, quiet_capture_in(p)),
        mvv_key(p),
    ) + sort_ranked(keep(ms, quiet_in(p)), value_key(p, is_endgame))
}

/// The full order in a context: checks by value, captures by MVV-LVA, then
/// the quiet moves by value, re-sorted stably by the context's key, so
/// killers lead and equal history scores keep the value order.
pub open spec fn order_moves_in(
    p: Position,
    ms: Seq<Move>,
    is_endgame: bool,
    killers: [Option<Move>; 2],
    history: Seq<i32>,
) -> Seq<Move> {
    sort_ranked(keep(ms, gives_check_in(p)), value_key(p, is_endgame)) + sort_ranked(
        keep(ms, quiet_capture_in(p)),
        mvv_key(p),
    ) + sort_ranked(
        sort_ranked(keep(ms, quiet_in(p)), value_key(p, is_endgame)),
        quiet_key(p, killers, history),
    )
}

/// The quiescence order: checks by value, then captures by MVV-LVA.
pub open spec fn order_noisy(p: Position, ms: Seq<Move>, is_endgame: bool) -> Seq<Move> {
    sort_ranked(keep(ms, gives_check_in(p)), value_key(p, is_endgame)) + sort_ranked(
        keep(ms, quiet_capture_in(p)),
        mvv_key(p),
    )
}

/// `ms` lists the legal moves of `p`, each once.
pub open spec fn legal_list(p: Position, ms: Seq<Move>) -> bool {
    &&& forall|m: Move| #[trigger] ms.contains(m) == legal_move(p, m)
    &&& ms.no_duplicates()
}

proof fn lemma_listed_legal(p: Position, ms: Seq<Move>)
    requires
        forall|m: Move| #[trigger] ms.contains(m) == legal_move(p, m),
    ensures
        all_legal(p, ms),
{
    assert forall|i: int| 0 <= i < ms.len() implies legal_move(p, #[trigger] ms[i]) by {
        assert(ms.contains(ms[i]));
    }
}

/// Some move is legal in `p`.
pub open spec fn has_legal(p: Position) -> bool {
    exists|m: Move| legal_move(p, m)
}

proof fn lemma_insert_len(l: Seq<Move>, x: Move, key: spec_fn(Move) -> (int, int))
    ensures
        insert_ranked(l, x, key).len() == l.len() + 1,
    decreases l.len(),
{
    if l.len() > 0 && ranks_before(key(x), key(l.last())) {
        lemma_insert_len(l.drop_last(), x, key);
    }
}

proof fn lemma_insert_from(l: Seq<Move>, x: Move, key: spec_fn(Move) -> (int, int))
    ensures
        forall|i: int|
            0 <= i < insert_ranked(l, x, key).len() ==> #[trigger] insert_ranked(l, x, key)[i] == x
                || l.contains(insert_ranked(l, x, key)[i]),
    decreases l.len(),
{
    if l.len() > 0 && ranks_before(key(x), key(l.last())) {
        lemma_insert_from(l.drop_last(), x, key);
        let r = insert_ranked(l, x, key);
        let rr = insert_ranked(l.drop_last(), x, key);
        assert forall|i: int| 0 <= i < r.len() implies #[trigger] r[i] == x || l.contains(r[i]) by {
            if i < rr.len() {
                if rr[i] != x {
                    let j = choose|j: int| 0 <= j < l.drop_last().len() && l.drop_last()[j] == rr[i];
                    assert(l[j] == rr[i]);
                }
            } else {
                assert(l[l.len() - 1] == r[i]);
            }
        }
    } else if l.len() > 0 {
        let r = insert_ranked(l, x, key);
        assert forall|i: int| 0 <= i < r.len() implies #[trigger] r[i] == x || l.contains(r[i]) by {
            if i < l.len() {
                assert(l[i] == r[i]);
            }
        }
    }
}

/// Sorting draws every element from the input.
pub proof fn lemma_sort_from(s: Seq<Move>, key: spec_fn(Move) -> (int, int))
    ensures
        forall|i: int| 0 <= i < sort_ranked(s, key).len() ==> s.contains(#[trigger] sort_ranked(s, key)[i]),
    decreases s.len(),
{
    if s.len() > 0 {
        lemma_sort_from(s.drop_last(), key);
        let sub = sort_ranked(s.drop_last(), key);
        lemma_insert_from(sub, s.last(), key);
        assert forall|i: int| 0 <= i < sort_ranked(s, key).len() implies s.contains(
            #[trigger] sort_ranked(s, key)[i],
        ) by {
            let v = sort_ranked(s, key)[i];
            if v == s.last() {
                assert(s[s.len() - 1] == v);
            } else {
                assert(sub.contains(v));
                let k = choose|k: int| 0 <= k < sub.len() && sub[k] == v;
                assert(s.drop_last().contains(sub[k]));
                let j = choose|j: int| 0 <= j < s.drop_last().len() && s.drop_last()[j] == v;
                assert(s[j] == v);
            }
        }
    }
}

proof fn lemma_sorted_legal(p: Position, s: Seq<Move>, key: spec_fn(Move) -> (int, int))
    requires
        all_legal(p, s),
    ensures
        all_legal(p, sort_ranked(s, key)),
{
    lemma_sort_from(s, key);
    assert forall|i: int| 0 <= i < sort_ranked(s, key).len() implies legal_move(
        p,
        #[trigger] sort_ranked(s, key)[i],
    ) by {
        let v = sort_ranked(s, key)[i];
        assert(s.contains(v));
        let j = choose|j: int| 0 <= j < s.len() && s[j] == v;
        assert(legal_move(p, s[j]));
    }
}

/// Sorting keeps the number of moves.
pub proof fn lemma_sort_len(s: Seq<Move>, key: spec_fn(Move) -> (int, int))
    ensures
        sort_ranked(s, key).len() == s.len(),
    decreases s.len(),
{
    if s.len() > 0 {
        lemma_sort_len(s.drop_last(), key);
        lemma_insert_len(sort_ranked(s.drop_last(), key), s.last(), key);
    }
}

proof fn lemma_partition_len(p: Position, s: Seq<Move>)
    ensures
        keep(s, gives_check_in(p)).len() + keep(s, quiet_capture_in(p)).len() + keep(
            s,
            quiet_in(p),
        ).len() == s.len(),
    decreases s.len(),
{
    if s.len() > 0 {
        lemma_partition_len(p, s.drop_last());
    }
}

pub proof fn lemma_listed_len(p: Position, ms: Seq<Move>)
    requires
        forall|m: Move| #[trigger] ms.contains(m) == legal_move(p, m),
    ensures
        ms.len() > 0 <==> has_legal(p),
{
    if ms.len() > 0 {
        assert(ms.contains(ms[0]));
        assert(legal_move(p, ms[0]));
    }
    if has_legal(p) {
        let m = choose|m: Move| legal_move(p, m);
        assert(ms.contains(m));
    }
}

/// Legal moves ordered checks → captures (MVV-LVA) → quiet (by value). The
/// order within each group is fixed by the values; among equal values it is
/// the generation order.
pub fn prioritize_legal_moves(board: &mut Board, is_endgame: bool) -> (r: Vec<Move>)
    requires
        playable(*old(board)),
    ensures
        *final(board) == *old(board),
        exists|ms: Seq<Move>|
            legal_list(old(board)@, ms) && r@ == order_moves(old(board)@, ms, is_endgame),
        r@.len() > 0 <==> has_legal(old(board)@),
        all_legal(old(board)@, r@),
{
    let ghost p = board@;
    let moves = generate_legal(board);
    proof {
        lemma_listed_legal(p, moves@);
    }
    let (checks, captures, quiets) = group(board, &moves);
    proof {
        lemma_kept_legal(p, moves@, gives_check_in(p));
        lemma_kept_legal(p, moves@, quiet_capture_in(p));
        lemma_kept_legal(p, moves@, quiet_in(p));
        lemma_keep_pred(moves@, quiet_capture_in(p));
        assert forall|i: int| 0 <= i < checks@.len() implies scorable(p, #[trigger] checks@[i]) by {
            lemma_legal_scorable(p, checks@[i]);
        }
        assert forall|i: int| 0 <= i < captures@.len() implies pieces_present(
            p,
            #[trigger] captures@[i],
        ) by {
            lemma_legal_scorable(p, captures@[i]);
            assert(quiet_capture_in(p)(captures@[i]));
        }
        assert forall|i: int| 0 <= i < quiets@.len() implies scorable(p, #[trigger] quiets@[i]) by {
            lemma_legal_scorable(p, quiets@[i]);
        }
    }
    let mut ordered: Vec<Move> = Vec::new();
    append_all(&mut ordered, sort_by_value(board, checks, is_endgame));
    append_all(&mut ordered, sort_mvv_lva(board, captures));
    append_all(&mut ordered, sort_by_value(board, quiets, is_endgame));
    proof {
        assert(ordered@ =~= order_moves(p, moves@, is_endgame));
        assert(legal_list(p, moves@));
        lemma_sort_len(keep(moves@, gives_check_in(p)), value_key(p, is_endgame));
        lemma_sort_len(keep(moves@, quiet_capture_in(p)), mvv_key(p));
        lemma_sort_len(keep(moves@, quiet_in(p)), value_key(p, is_endgame));
        lemma_partition_len(p, moves@);
        lemma_listed_len(p, moves@);
        lemma_sorted_legal(p, checks@, value_key(p, is_endgame));
        lemma_sorted_legal(p, captures@, mvv_key(p));
        lemma_sorted_legal(p, quiets@, value_key(p, is_endgame));
    }
    ordered
}

/// Moves searched in quiescence: every evasion when in check, else checks +
/// captures.
pub fn get_moves_to_dequiet(board: &mut Board, is_endgame: bool) -> (r: Vec<Move>)
    requires
        playable(*old(board)),
    ensures
        *final(board) == *old(board),
        in_check_spec(old(board)@) ==> exists|ms: Seq<Move>|
            legal_list(old(board)@, ms) && r@ == order_moves(old(board)@, ms, is_endgame),
        !in_check_spec(old(board)@) ==> exists|ms: Seq<Move>|
            legal_list(old(board)@, ms) && r@ == order_noisy(old(board)@, ms, is_endgame),
        all_legal(old(board)@, r@),
{
    let ghost p = board@;
    if in_check(board) {
        return prioritize_legal_moves(board, is_endgame);
    }
    let moves = generate_legal(board);
    proof {
        lemma_listed_legal(p, moves@);
    }
    let (checks, captures, _quiets) = group(board, &moves);
    proof {
        lemma_kept_legal(p, moves@, gives_check_in(p));
        lemma_kept_legal(p, moves@, quiet_capture_in(p));
        lemma_keep_pred(moves@, quiet_capture_in(p));
        assert forall|i: int| 0 <= i < checks@.len() implies scorable(p, #[trigger] checks@[i]) by {
            lemma_legal_scorable(p, checks@[i]);
        }
        assert forall|i: int| 0 <= i < captures@.len() implies pieces_present(
            p,
            #[trigger] captures@[i],
        ) by {
            lemma_legal_scorable(p, captures@[i]);
            assert(quiet_capture_in(p)(captures@[i]));
        }
    }
    let mut ordered: Vec<Move> = Vec::new();
    append_all(&mut ordered, sort_by_value(board, checks, is_endgame));
    append_all(&mut ordered, sort_mvv_lva(board, captures));
    proof {
        assert(ordered@ =~= order_noisy(p, moves@, is_endgame));
        assert(legal_list(p, moves@));
        lemma_sorted_legal(p, checks@, value_key(p, is_endgame));
        lemma_sorted_legal(p, captures@, mvv_key(p));
    }
    ordered
}

/// The quiet moves re-sorted by the context: the ply's killers first (the
/// first killer, then the second), the others by history score, highest
/// first, ties keeping their order.
fn order_quiets(board: &Board, quiets: Vec<Move>, context: &OrderingContext) -> (r: Vec<Move>)
    requires
        history_ok(context.history@),
    ensures
        r@ == sort_ranked(quiets@, quiet_key(board@, context.killers, context.history@)),
{
    let ghost key = quiet_key(board@, context.killers, context.history@);
    let side = board.side_to_move();
    let mut keys: Vec<(i32, i32)> = Vec::new();
    let mut i: usize = 0;
    while i < quiets.len()
        invariant
            i <= quiets@.len(),
            history_ok(context.history@),
            side == board@.side,
            key == quiet_key(board@, context.killers, context.history@),
            keys@.len() == i,
            forall|k: int|
                0 <= k < i ==> #[trigger] key(quiets@[k]) == (keys@[k].0 as int, keys@[k].1 as int),
        decreases quiets@.len() - i,
    {
        let mv = quiets[i];
        let first = match context.killers[0] {
            Some(k) => k == mv,
            None => false,
        };
        let second = match context.killers[1] {
            Some(k) => k == mv,
            None => false,
        };
        let score = if first {
            HISTORY_MAX + 2
        } else if second {
            HISTORY_MAX + 1
        } else {
            context.history[history_index(side, mv)]
        };
        keys.push((score, 0));
        i = i + 1;
    }
    sort_by_rank(&quiets, &keys, Ghost(key))
}

/// Legal moves ordered as `prioritize_legal_moves` orders them, with the quiet
/// group led by the context's killer moves and the rest of it by history
/// score, highest first, ties by value.
pub fn prioritize_in_context(board: &mut Board, is_endgame: bool, context: &OrderingContext) -> (r: Vec<Move>)
    requires
        playable(*old(board)),
        history_ok(context.history@),
    ensures
        *final(board) == *old(board),
        exists|ms: Seq<Move>|
            legal_list(old(board)@, ms) && r@ == order_moves_in(
                old(board)@,
                ms,
                is_endgame,
                context.killers,
                context.history@,
            ),
        r@.len() > 0 <==> has_legal(old(board)@),
        all_legal(old(board)@, r@),
{
    let ghost p = board@;
    let moves = generate_legal(board);
    proof {
        lemma_listed_legal(p, moves@);
    }
    let (checks, captures, quiets) = group(board, &moves);
    proof {
        lemma_kept_legal(p, moves@, gives_check_in(p));
        lemma_kept_legal(p, moves@, quiet_capture_in(p));
        lemma_kept_legal(p, moves@, quiet_in(p));
        lemma_keep_pred(moves@, quiet_capture_in(p));
        assert forall|i: int| 0 <= i < checks@.len() implies scorable(p, #[trigger] checks@[i]) by {
            lemma_legal_scorable(p, checks@[i]);
        }
        assert forall|i: int| 0 <= i < captures@.len() implies pieces_present(
            p,
            #[trigger] captures@[i],
        ) by {
            lemma_legal_scorable(p, captures@[i]);
            assert(quiet_capture_in(p)(captures@[i]));
        }
        assert forall|i: int| 0 <= i < quiets@.len() implies scorable(p, #[trigger] quiets@[i]) by {
            lemma_legal_scorable(p, quiets@[i]);
        }
    }
    let by_value = sort_by_value(board, quiets, is_endgame);
    let ghost valued = by_value@;
    let ordered_quiets = order_quiets(board, by_value, context);
    let mut ordered: Vec<Move> = Vec::new();
    append_all(&mut ordered, sort_by_value(board, checks, is_endgame));
    append_all(&mut ordered, sort_mvv_lva(board, captures));
    append_all(&mut ordered, ordered_quiets);
    proof {
        let key = quiet_key(p, context.killers, context.history@);
        assert(ordered@ =~= order_moves_in(p, moves@, is_endgame, context.killers, context.history@));
        assert(legal_list(p, moves@));
        lemma_sort_len(keep(moves@, gives_check_in(p)), value_key(p, is_endgame));
        lemma_sort_len(keep(moves@, quiet_capture_in(p)), mvv_key(p));
        lemma_sort_len(keep(moves@, quiet_in(p)), value_key(p, is_endgame));
        lemma_sort_len(valued, key);
        lemma_partition_len(p, moves@);
        lemma_listed_len(p, moves@);
        lemma_sorted_legal(p, checks@, value_key(p, is_endgame));
        lemma_sorted_legal(p, captures@, mvv_key(p));
        lemma_sorted_legal(p, quiets@, value_key(p, is_endgame));
        lemma_sorted_legal(p, valued, key);
    }
    ordered
}

/// Moves searched in quiescence in a context: every evasion, in the context's
/// order, when in check; else checks and captures as `get_moves_to_dequiet`
/// orders them (the context orders only quiet moves).
pub fn dequiet_in_context(board: &mut Board, is_endgame: bool, context: &OrderingContext) -> (r: Vec<Move>)
    requires
        playable(*old(board)),
        history_ok(context.history@),
    ensures
        *final(board) == *old(board),
        in_check_spec(old(board)@) ==> exists|ms: Seq<Move>|
            legal_list(old(board)@, ms) && r@ == order_moves_in(
                old(board)@,
                ms,
                is_endgame,
                context.killers,
                context.history@,
            ),
        !in_check_spec(old(board)@) ==> exists|ms: Seq<Move>|
            legal_list(old(board)@, ms) && r@ == order_noisy(old(board)@, ms, is_endgame),
        all_legal(old(board)@, r@),
{
    if in_check(board) {
        return prioritize_in_context(board, is_endgame, context);
    }
    get_moves_to_dequiet(board, is_endgame)
}

/// Moves that give check or capture.
pub open spec fn noisy_in(p: Position) -> spec_fn(Move) -> bool {
    |m: Move| checks_after(p, m) || m.capture_spec()
}

proof fn lemma_keep_append(a: Seq<Move>, b: Seq<Move>, pred: spec_fn(Move) -> bool)
    ensures
        keep(a + b, pred) == keep(a, pred) + keep(b, pred),
    decreases b.len(),
{
    if b.len() == 0 {
        assert(a + b =~= a);
        assert(keep(b, pred) =~= seq![]);
        assert(keep(a, pred) + keep(b, pred) =~= keep(a, pred));
    } else {
        assert((a + b).drop_last() =~= a + b.drop_last());
        assert((a + b).last() == b.last());
        lemma_keep_append(a, b.drop_last(), pred);
        if pred(b.last()) {
            assert(keep(a, pred) + keep(b, pred) =~= (keep(a, pred) + keep(b.drop_last(), pred)).push(
                b.last(),
            ));
        }
    }
}

proof fn lemma_keep_all(s: Seq<Move>, pred: spec_fn(Move) -> bool)
    requires
        forall|i: int| 0 <= i < s.len() ==> pred(#[trigger] s[i]),
    ensures
        keep(s, pred) == s,
    decreases s.len(),
{
    if s.len() > 0 {
        assert(pred(s[s.len() - 1]));
        lemma_keep_all(s.drop_last(), pred);
        assert(s.drop_last().push(s.last()) =~= s);
    }
}

proof fn lemma_keep_none(s: Seq<Move>, pred: spec_fn(Move) -> bool)
    requires
        forall|i: int| 0 <= i < s.len() ==> !pred(#[trigger] s[i]),
    ensures
        keep(s, pred) == Seq::<Move>::empty(),
    decreases s.len(),
{
    if s.len() > 0 {
        assert(!pred(s[s.len() - 1]));
        lemma_keep_none(s.drop_last(), pred);
    }
}

/// Every move of the sorted `kept` part satisfies `inner`, and so `outer`
/// when `inner` implies it.
proof fn lemma_sorted_kept(
    ms: Seq<Move>,
    inner: spec_fn(Move) -> bool,
    key: spec_fn(Move) -> (int, int),
)
    ensures
        forall|i: int|
            0 <= i < sort_ranked(keep(ms, inner), key).len() ==> inner(
                #[trigger] sort_ranked(keep(ms, inner), key)[i],
            ),
{
    let k = keep(ms, inner);
    lemma_keep_pred(ms, inner);
    lemma_sort_from(k, key);
    assert forall|i: int| 0 <= i < sort_ranked(k, key).len() implies inner(
        #[trigger] sort_ranked(k, key)[i],
    ) by {
        let v = sort_ranked(k, key)[i];
        assert(k.contains(v));
        let j = choose|j: int| 0 <= j < k.len() && k[j] == v;
        assert(inner(k[j]));
    }
}

/// For one listing of the moves, the order without quiet moves is the full
/// order with its quiet moves (neither check nor capture) taken out, the
/// rest in the same order.
pub proof fn law_noisy_order_drops_quiets(p: Position, ms: Seq<Move>, is_endgame: bool)
    ensures
        order_noisy(p, ms, is_endgame) == keep(order_moves(p, ms, is_endgame), noisy_in(p)),
{
    let a = sort_ranked(keep(ms, gives_check_in(p)), value_key(p, is_endgame));
    let b = sort_ranked(keep(ms, quiet_capture_in(p)), mvv_key(p));
    let c = sort_ranked(keep(ms, quiet_in(p)), value_key(p, is_endgame));
    lemma_sorted_kept(ms, gives_check_in(p), value_key(p, is_endgame));
    lemma_sorted_kept(ms, quiet_capture_in(p), mvv_key(p));
    lemma_sorted_kept(ms, quiet_in(p), value_key(p, is_endgame));
    assert forall|i: int| 0 <= i < a.len() implies noisy_in(p)(#[trigger] a[i]) by {
        assert(gives_check_in(p)(a[i]));
    }
    assert forall|i: int| 0 <= i < b.len() implies noisy_in(p)(#[trigger] b[i]) by {
        assert(quiet_capture_in(p)(b[i]));
    }
    assert forall|i: int| 0 <= i < c.len() implies !noisy_in(p)(#[trigger] c[i]) by {
        assert(quiet_in(p)(c[i]));
    }
    lemma_keep_append(a + b, c, noisy_in(p));
    lemma_keep_append(a, b, noisy_in(p));
    lemma_keep_all(a, noisy_in(p));
    lemma_keep_all(b, noisy_in(p));
    lemma_keep_none(c, noisy_in(p));
    assert(a + b + Seq::<Move>::empty() =~= a + b);
}

} // verus!
