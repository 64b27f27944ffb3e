//! Reading back a written FEN gives the position that was written.
use vstd::prelude::*;

use super::fen::{
    castle_bit, castling_text, digits_value, fen_outcome, fen_text, flush, is_digit, is_upper,
    letter_if, parse_u16, placement_text, rank_prefix, rank_text, scan_board, scan_castling,
    scan_rank, scan_step, square_of_chars, to_lower, unsigned_digits, FenOutcome, Scan,
};
use super::{Board, Position};
use crate::text::{
    decimal, digit_char, lemma_pieces_append, lemma_words_append, lemma_words_single, pieces,
    printable, words,
};
use crate::types::{piece_char, piece_of_letter, square_text, Color, Piece, PieceType};

verus! {

/// Every character of `t` is a letter or a digit: no separator of any kind.
spec fn alnum(t: Seq<char>) -> bool {
    forall|i: int| 0 <= i < t.len() ==> 48 <= #[trigger] t[i] as u32 <= 122
}

/// `acc` with files `0..f` of `rank` taken from `sq`.
spec fn filled(acc: Seq<Option<Piece>>, sq: Seq<Option<Piece>>, rank: int, f: int) -> Seq<
    Option<Piece>,
> {
    Seq::new(64, |i: int| if i / 8 == rank && i % 8 < f { sq[i] } else { acc[i] })
}

/// The squares of the first `k` ranks a FEN lists (the eighth rank first)
/// from `sq`, the others empty.
spec fn listed_ranks(sq: Seq<Option<Piece>>, k: int) -> Seq<Option<Piece>> {
    Seq::new(64, |i: int| if i / 8 >= 8 - k { sq[i] } else { None })
}

/// The texts of the first `rows` ranks, the eighth rank first.
spec fn rank_texts(sq: Seq<Option<Piece>>, rows: int) -> Seq<Seq<char>> {
    Seq::new(rows as nat, |i: int| rank_text(sq, 7 - i))
}

/// A piece's letter reads back as the piece.
proof fn lemma_piece_char(p: Piece)
    ensures
        65 <= piece_char(p) as u32 <= 122,
        !is_digit(piece_char(p)),
        is_upper(piece_char(p)) == (p.color == Color::White),
        piece_of_letter(to_lower(piece_char(p))) == Some(p.piece_type),
{
}

/// The character of a decimal digit.
proof fn lemma_digit_char(e: int)
    requires
        0 <= e <= 9,
    ensures
        is_digit(digit_char(e)),
        digit_char(e) as u32 - 48 == e,
        48 <= digit_char(e) as u32 <= 57,
{
}

/// Facts about the text written for the first `f` files of a rank.
proof fn lemma_rank_prefix(sq: Seq<Option<Piece>>, rank: int, f: int)
    requires
        0 <= rank < 8,
        0 <= f <= 8,
        sq.len() == 64,
    ensures
        0 <= rank_prefix(sq, rank, f).1 <= f,
        forall|j: int|
            f - rank_prefix(sq, rank, f).1 <= j < f ==> #[trigger] sq[rank * 8 + j] is None,
        alnum(rank_prefix(sq, rank, f).0),
        rank_prefix(sq, rank, f).0.len() > 0 || rank_prefix(sq, rank, f).1 == f,
    decreases f,
{
    if f > 0 {
        lemma_rank_prefix(sq, rank, f - 1);
        let (t, e) = rank_prefix(sq, rank, f - 1);
        if let Some(p) = sq[rank * 8 + f - 1] {
            lemma_piece_char(p);
            let u = t + flush(e) + seq![piece_char(p)];
            if e > 0 {
                lemma_digit_char(e);
            }
            assert forall|i: int| 0 <= i < u.len() implies 48 <= #[trigger] u[i] as u32 <= 122 by {
                if i < t.len() {
                    assert(u[i] == t[i]);
                } else if i < t.len() + flush(e).len() {
                    assert(u[i] == digit_char(e));
                } else {
                    assert(u[i] == piece_char(p));
                }
            }
        }
    }
}

/// One rank's text is non-empty and made of letters and digits.
proof fn lemma_rank_text(sq: Seq<Option<Piece>>, rank: int)
    requires
        0 <= rank < 8,
        sq.len() == 64,
    ensures
        alnum(rank_text(sq, rank)),
        rank_text(sq, rank).len() > 0,
{
    lemma_rank_prefix(sq, rank, 8);
    let (t, e) = rank_prefix(sq, rank, 8);
    let u = rank_text(sq, rank);
    if e > 0 {
        lemma_digit_char(e);
    }
    assert forall|i: int| 0 <= i < u.len() implies 48 <= #[trigger] u[i] as u32 <= 122 by {
        if i < t.len() {
            assert(u[i] == t[i]);
        } else {
            assert(u[i] == digit_char(e));
        }
    }
}

/// Reading the first `f` files' text of a rank fills those files from `sq`,
/// with the run of empty squares still pending counted on the file.
proof fn lemma_scan_prefix(
    sq: Seq<Option<Piece>>,
    rank: int,
    f: int,
    text: Seq<char>,
    acc: Seq<Option<Piece>>,
)
    requires
        0 <= rank < 8,
        0 <= f <= 8,
        sq.len() == 64,
        acc.len() == 64,
        forall|j: int| 0 <= j < 8 ==> #[trigger] acc[rank * 8 + j] is None,
        rank_prefix(sq, rank, f).0.len() <= text.len(),
        text.subrange(0, rank_prefix(sq, rank, f).0.len() as int) == rank_prefix(sq, rank, f).0,
    ensures
        scan_rank(text, rank, Scan::Going(0, acc), rank_prefix(sq, rank, f).0.len() as int)
            == Scan::Going(f - rank_prefix(sq, rank, f).1, filled(acc, sq, rank, f)),
    decreases f,
{
    lemma_rank_prefix(sq, rank, f);
    if f == 0 {
        assert(filled(acc, sq, rank, 0) =~= acc);
    } else {
        lemma_rank_prefix(sq, rank, f - 1);
        let (t, e) = rank_prefix(sq, rank, f - 1);
        let start = Scan::Going(0, acc);
        let prev = filled(acc, sq, rank, f - 1);
        match sq[rank * 8 + f - 1] {
            None => {
                lemma_scan_prefix(sq, rank, f - 1, text, acc);
                assert(filled(acc, sq, rank, f) =~= prev);
            },
            Some(p) => {
                let u = t + flush(e) + seq![piece_char(p)];
                assert(rank_prefix(sq, rank, f).0 == u);
                assert(text.subrange(0, t.len() as int) =~= t) by {
                    assert forall|i: int| 0 <= i < t.len() implies text.subrange(
                        0,
                        t.len() as int,
                    )[i] == t[i] by {
                        assert(text.subrange(0, u.len() as int)[i] == u[i]);
                    }
                }
                lemma_scan_prefix(sq, rank, f - 1, text, acc);
                let n0 = t.len() as int;
                assert(scan_rank(text, rank, start, n0) == Scan::Going(f - 1 - e, prev));
                let n1 = n0 + flush(e).len();
                if e > 0 {
                    lemma_digit_char(e);
                    assert(text[n0] == text.subrange(0, u.len() as int)[n0]);
                    assert(text[n0] == digit_char(e));
                    assert(scan_rank(text, rank, start, n1) == scan_step(
                        scan_rank(text, rank, start, n0),
                        text[n0],
                        rank,
                        text,
                    ));
                }
                assert(scan_rank(text, rank, start, n1) == Scan::Going(f - 1, prev));
                lemma_piece_char(p);
                assert(text[n1] == text.subrange(0, u.len() as int)[n1]);
                assert(text[n1] == piece_char(p));
                assert(u.len() == n1 + 1);
                assert(scan_rank(text, rank, start, n1 + 1) == scan_step(
                    scan_rank(text, rank, start, n1),
                    text[n1],
                    rank,
                    text,
                ));
                let color = if is_upper(piece_char(p)) {
                    Color::White
                } else {
                    Color::Black
                };
                assert(Piece { color, piece_type: p.piece_type } == p);
                assert(prev.update(rank * 8 + f - 1, Some(p)) =~= filled(acc, sq, rank, f));
            },
        }
    }
}

/// Reading a rank's text fills the whole rank from `sq`.
proof fn lemma_scan_rank(sq: Seq<Option<Piece>>, rank: int, acc: Seq<Option<Piece>>)
    requires
        0 <= rank < 8,
        sq.len() == 64,
        acc.len() == 64,
        forall|j: int| 0 <= j < 8 ==> #[trigger] acc[rank * 8 + j] is None,
    ensures
        scan_rank(
            rank_text(sq, rank),
            rank,
            Scan::Going(0, acc),
            rank_text(sq, rank).len() as int,
        ) == Scan::Going(8, filled(acc, sq, rank, 8)),
{
    let text = rank_text(sq, rank);
    let (t, e) = rank_prefix(sq, rank, 8);
    lemma_rank_prefix(sq, rank, 8);
    assert(text.subrange(0, t.len() as int) =~= t);
    lemma_scan_prefix(sq, rank, 8, text, acc);
    let n0 = t.len() as int;
    if e > 0 {
        lemma_digit_char(e);
        assert(text[n0] == digit_char(e));
        assert(text.len() == n0 + 1);
    } else {
        assert(text.len() == n0);
    }
}

/// Reading the first `k` rank texts lists those ranks of `sq`.
proof fn lemma_scan_board(sq: Seq<Option<Piece>>, k: int)
    requires
        0 <= k <= 8,
        sq.len() == 64,
    ensures
        scan_board(rank_texts(sq, 8), k) matches Scan::Going(_, got) && got == listed_ranks(sq, k),
    decreases k,
{
    let ranks = rank_texts(sq, 8);
    if k == 0 {
        assert(listed_ranks(sq, 0) =~= crate::board::fen::empty_squares());
    } else {
        lemma_scan_board(sq, k - 1);
        let acc = listed_ranks(sq, k - 1);
        let rank = 7 - (k - 1);
        assert forall|j: int| 0 <= j < 8 implies #[trigger] acc[rank * 8 + j] is None by {
            assert((rank * 8 + j) / 8 == rank);
        }
        assert(ranks[k - 1] == rank_text(sq, rank));
        lemma_scan_rank(sq, rank, acc);
        assert(filled(acc, sq, rank, 8) =~= listed_ranks(sq, k));
    }
}

/// Splitting the placement field at `/` gives the rank texts.
proof fn lemma_placement_pieces(sq: Seq<Option<Piece>>, rows: int)
    requires
        0 <= rows <= 8,
        sq.len() == 64,
    ensures
        pieces(placement_text(sq, rows), '/') == if rows < 8 {
            rank_texts(sq, rows).push(seq![])
        } else {
            rank_texts(sq, 8)
        },
        printable(placement_text(sq, rows)),
        rows > 0 ==> placement_text(sq, rows).len() > 0,
    decreases rows,
{
    if rows == 0 {
        assert(pieces(seq![], '/') =~= rank_texts(sq, 0).push(seq![]));
    } else {
        lemma_placement_pieces(sq, rows - 1);
        let before = placement_text(sq, rows - 1);
        let rt = rank_text(sq, 7 - (rows - 1));
        lemma_rank_text(sq, 7 - (rows - 1));
        assert forall|i: int| 0 <= i < rt.len() implies #[trigger] rt[i] != '/' by {
            assert(48 <= rt[i] as u32);
        }
        lemma_pieces_append(before, rt, '/');
        let w = rank_texts(sq, rows - 1).push(seq![]);
        assert(w.update(w.len() - 1, w.last() + rt) =~= rank_texts(sq, rows)) by {
            assert(seq![] + rt =~= rt);
        }
        let joined = before + rt;
        assert forall|i: int| 0 <= i < joined.len() implies 45 <= #[trigger] joined[i] as u32
            <= 122 by {
            if i < before.len() {
                assert(joined[i] == before[i]);
            } else {
                assert(joined[i] == rt[i - before.len()]);
            }
        }
        if rows - 1 < 7 {
            let full = joined + seq!['/'];
            assert(placement_text(sq, rows) == full);
            assert(full.drop_last() =~= joined);
            assert(pieces(full, '/') == pieces(joined, '/').push(seq![]));
            assert forall|i: int| 0 <= i < full.len() implies 45 <= #[trigger] full[i] as u32
                <= 122 by {
                if i < joined.len() {
                    assert(full[i] == joined[i]);
                }
            }
        } else {
            assert(placement_text(sq, rows) =~= joined);
        }
    }
}

/// Castling letters after a prefix depend only on that prefix.
proof fn lemma_castling_prefix(a: Seq<char>, b: Seq<char>, n: int)
    requires
        0 <= n <= a.len(),
        n <= b.len(),
        forall|i: int| 0 <= i < n ==> a[i] == b[i],
    ensures
        scan_castling(a, n) == scan_castling(b, n),
    decreases n,
{
    if n > 0 {
        lemma_castling_prefix(a, b, n - 1);
    }
}

/// `x` with `bit` set when `cond` holds.
spec fn or_if(x: u8, cond: bool, bit: u8) -> u8 {
    if cond {
        x | bit
    } else {
        x
    }
}

/// Reading one more (possibly absent) castling letter.
proof fn lemma_castling_letter(t: Seq<char>, present: bool, c: char, bit: u8, x: u8)
    requires
        scan_castling(t, t.len() as int) == Ok::<u8, char>(x),
        castle_bit(c) == Some(bit),
    ensures
        scan_castling(t + letter_if(present, c), (t + letter_if(present, c)).len() as int) == Ok::<
            u8,
            char,
        >(or_if(x, present, bit)),
{
    let u = t + letter_if(present, c);
    if present {
        lemma_castling_prefix(t, u, t.len() as int);
        assert(u[t.len() as int] == c);
    } else {
        assert(u =~= t);
    }
}

/// A castling field below 16 is the OR of its four rights, and is zero
/// exactly when it holds none.
proof fn lemma_castling_bits(r: u8)
    by (bit_vector)
    requires
        r < 16,
    ensures
        r == (if r & 8u8 != 0u8 {
            (if r & 4u8 != 0u8 {
                (if r & 2u8 != 0u8 {
                    (if r & 1u8 != 0u8 {
                        0u8 | 1u8
                    } else {
                        0u8
                    }) | 2u8
                } else {
                    (if r & 1u8 != 0u8 {
                        0u8 | 1u8
                    } else {
                        0u8
                    })
                }) | 4u8
            } else {
                (if r & 2u8 != 0u8 {
                    (if r & 1u8 != 0u8 {
                        0u8 | 1u8
                    } else {
                        0u8
                    }) | 2u8
                } else {
                    (if r & 1u8 != 0u8 {
                        0u8 | 1u8
                    } else {
                        0u8
                    })
                })
            }) | 8u8
        } else {
            (if r & 4u8 != 0u8 {
                (if r & 2u8 != 0u8 {
                    (if r & 1u8 != 0u8 {
                        0u8 | 1u8
                    } else {
                        0u8
                    }) | 2u8
                } else {
                    (if r & 1u8 != 0u8 {
                        0u8 | 1u8
                    } else {
                        0u8
                    })
                }) | 4u8
            } else {
                (if r & 2u8 != 0u8 {
                    (if r & 1u8 != 0u8 {
                        0u8 | 1u8
                    } else {
                        0u8
                    }) | 2u8
                } else {
                    (if r & 1u8 != 0u8 {
                        0u8 | 1u8
                    } else {
                        0u8
                    })
                })
            })
        }),
        (r == 0) == (r & 1u8 == 0u8 && r & 2u8 == 0u8 && r & 4u8 == 0u8 && r & 8u8 == 0u8),
{
}

/// The castling field reads back as the rights written.
proof fn lemma_castling_round_trip(r: u8)
    requires
        r < 16,
    ensures
        printable(castling_text(r)),
        castling_text(r).len() > 0,
        (if castling_text(r) == seq!['-'] {
            Ok::<u8, char>(0u8)
        } else {
            scan_castling(castling_text(r), castling_text(r).len() as int)
        }) == Ok::<u8, char>(r),
{
    lemma_castling_bits(r);
    let l1 = letter_if(r & 1 != 0, 'K');
    let l2 = letter_if(r & 2 != 0, 'Q');
    let l3 = letter_if(r & 4 != 0, 'k');
    let l4 = letter_if(r & 8 != 0, 'q');
    let t0 = Seq::<char>::empty();
    assert(scan_castling(t0, 0) == Ok::<u8, char>(0u8));
    lemma_castling_letter(t0, r & 1 != 0, 'K', 1u8, 0u8);
    let x1 = or_if(0u8, r & 1 != 0, 1u8);
    assert(t0 + l1 =~= l1);
    lemma_castling_letter(l1, r & 2 != 0, 'Q', 2u8, x1);
    let x2 = or_if(x1, r & 2 != 0, 2u8);
    lemma_castling_letter(l1 + l2, r & 4 != 0, 'k', 4u8, x2);
    let x3 = or_if(x2, r & 4 != 0, 4u8);
    lemma_castling_letter(l1 + l2 + l3, r & 8 != 0, 'q', 8u8, x3);
    let t = l1 + l2 + l3 + l4;
    assert(scan_castling(t, t.len() as int) == Ok::<u8, char>(r));
    assert forall|i: int| 0 <= i < t.len() implies 45 <= #[trigger] t[i] as u32 <= 122 by {
        assert(t[i] == 'K' || t[i] == 'Q' || t[i] == 'k' || t[i] == 'q');
    }
    if t.len() == 0 {
        assert(castling_text(r) == seq!['-']);
        assert(r == 0);
    } else {
        assert(castling_text(r) == t);
        assert(t != seq!['-']) by {
            assert(t[0] != '-');
        }
    }
}

/// A decimal numeral is made of digits and reads back as its value.
proof fn lemma_decimal(n: nat)
    ensures
        decimal(n).len() > 0,
        forall|i: int| 0 <= i < decimal(n).len() ==> 48 <= #[trigger] decimal(n)[i] as u32 <= 57,
        digits_value(decimal(n)) == n,
    decreases n,
{
    if n >= 10 {
        lemma_decimal(n / 10);
        let d = decimal(n / 10);
        let s = decimal(n);
        lemma_digit_char((n % 10) as int);
        assert(s == d.push(digit_char((n % 10) as int)));
        assert(s.drop_last() =~= d);
        assert forall|i: int| 0 <= i < s.len() implies 48 <= #[trigger] s[i] as u32 <= 57 by {
            if i < d.len() {
                assert(s[i] == d[i]);
            }
        }
    } else {
        let s = decimal(n);
        lemma_digit_char(n as int);
        assert(s.drop_last() =~= Seq::<char>::empty());
        assert(digits_value(s.drop_last()) == 0);
    }
}

/// A 16-bit clock's numeral reads back as the clock.
proof fn lemma_clock_round_trip(n: u16)
    ensures
        parse_u16(decimal(n as nat)) == Some(n as int),
        printable(decimal(n as nat)),
        decimal(n as nat).len() > 0,
{
    lemma_decimal(n as nat);
    let d = decimal(n as nat);
    assert(unsigned_digits(d) == d) by {
        assert(48 <= d[0] as u32);
    }
    assert forall|i: int| 0 <= i < d.len() implies is_digit(#[trigger] d[i]) by {
        assert(48 <= d[i] as u32 <= 57);
    }
    assert forall|i: int| 0 <= i < d.len() implies 45 <= #[trigger] d[i] as u32 <= 122 by {
        assert(48 <= d[i] as u32 <= 57);
    }
}

/// An en-passant square's name reads back as the square.
proof fn lemma_square_round_trip(s: int)
    requires
        0 <= s < 64,
    ensures
        square_of_chars(square_text(s)) == Some(s),
        printable(square_text(s)),
        square_text(s).len() == 2,
{
    let t = square_text(s);
    assert(t[0] as u32 == 97 + s % 8);
    assert(t[1] as u32 == 49 + s / 8);
}

/// Reading back the FEN written for a position gives that position.
proof fn lemma_position_round_trip(p: Position)
    requires
        p.squares.len() == 64,
        p.castling < 16,
        p.en_passant matches Some(e) ==> e < 64,
    ensures
        fen_outcome(fen_text(p)) == FenOutcome::Parsed(p),
{
    let sq = p.squares;
    let placement = placement_text(sq, 8);
    let side_text = seq![
        if p.side == Color::White {
            'w'
        } else {
            'b'
        },
    ];
    let castling = castling_text(p.castling);
    let ep = match p.en_passant {
        Some(s) => square_text(s as int),
        None => seq!['-'],
    };
    let half = decimal(p.halfmove as nat);
    let full = decimal(p.fullmove as nat);
    let gap = seq![' '];
    let s1 = placement + gap + side_text;
    let s2 = s1 + gap + castling;
    let s3 = s2 + gap + ep;
    let s4 = s3 + gap + half;
    let s5 = s4 + gap + full;
    assert(fen_text(p) =~= s5);

    lemma_placement_pieces(sq, 8);
    lemma_castling_round_trip(p.castling);
    lemma_clock_round_trip(p.halfmove);
    lemma_clock_round_trip(p.fullmove);
    match p.en_passant {
        Some(s) => lemma_square_round_trip(s as int),
        None => {},
    }
    assert(printable(side_text));
    assert(printable(ep));
    lemma_words_single(placement);
    lemma_words_append(placement, side_text);
    lemma_words_append(s1, castling);
    lemma_words_append(s2, ep);
    lemma_words_append(s3, half);
    lemma_words_append(s4, full);
    let f = words(s5);
    assert(f =~= seq![placement, side_text, castling, ep, half, full]);

    let ranks = pieces(f[0], '/');
    assert(ranks == rank_texts(sq, 8));
    lemma_scan_board(sq, 8);
    assert(listed_ranks(sq, 8) =~= sq);
    match p.en_passant {
        Some(s) => {
            assert(ep != seq!['-']) by {
                assert(ep.len() == 2);
            }
        },
        None => {},
    }
}

/// The FEN `to_fen` writes for a board reads back, through `from_fen`, as
/// the board's position.
pub proof fn law_fen_round_trip(b: Board)
    requires
        b.wf(),
    ensures
        fen_outcome(fen_text(b@)) == FenOutcome::Parsed(b@),
{
    lemma_position_round_trip(b@);
}

} // verus!
