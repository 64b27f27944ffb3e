//! Text helpers shared by the FEN reader and writer: Unicode whitespace,
//! splitting into words and on a separator, and decimal numbers.
use vstd::prelude::*;

use crate::types::push_char;

verus! {

/// Unicode `White_Space`: the characters `char::is_whitespace` accepts.
pub open spec fn is_space(c: char) -> bool {
    let u = c as u32;
    ||| 9 <= u <= 13
    ||| u == 32
    ||| u == 0x85
    ||| u == 0xa0
    ||| u == 0x1680
    ||| 0x2000 <= u <= 0x200a
    ||| u == 0x2028
    ||| u == 0x2029
    ||| u == 0x202f
    ||| u == 0x205f
    ||| u == 0x3000
}

pub fn is_space_char(c: char) -> (r: bool)
    ensures
        r == is_space(c),
{
    let u = c as u32;
    (9 <= u && u <= 13) || u == 32 || u == 0x85 || u == 0xa0 || u == 0x1680 || (0x2000 <= u && u
        <= 0x200a) || u == 0x2028 || u == 0x2029 || u == 0x202f || u == 0x205f || u == 0x3000
}

/// The maximal runs of non-whitespace characters of `s`, in order: what
/// `str::split_whitespace` yields.
pub open spec fn words(s: Seq<char>) -> Seq<Seq<char>>
    decreases s.len(),
{
    if s.len() == 0 {
        seq![]
    } else {
        let w = words(s.drop_last());
        let c = s.last();
        if is_space(c) {
            w
        } else if s.len() > 1 && !is_space(s[s.len() - 2]) {
            w.update(w.len() - 1, w.last().push(c))
        } else {
            w.push(seq![c])
        }
    }
}

/// The pieces of `s` between occurrences of `sep`: what `str::split` yields.
/// There is always at least one piece.
pub open spec fn pieces(s: Seq<char>, sep: char) -> Seq<Seq<char>>
    decreases s.len(),
{
    if s.len() == 0 {
        seq![seq![]]
    } else {
        let w = pieces(s.drop_last(), sep);
        if s.last() == sep {
            w.push(seq![])
        } else {
            w.update(w.len() - 1, w.last().push(s.last()))
        }
    }
}

pub proof fn lemma_pieces_nonempty(s: Seq<char>, sep: char)
    ensures
        pieces(s, sep).len() >= 1,
    decreases s.len(),
{
    if s.len() > 0 {
        lemma_pieces_nonempty(s.drop_last(), sep);
    }
}

/// Every character of `t` lies between `-` and `z`: none is whitespace.
pub open spec fn printable(t: Seq<char>) -> bool {
    forall|i: int| 0 <= i < t.len() ==> 45 <= #[trigger] t[i] as u32 <= 122
}

proof fn lemma_printable_drop_last(t: Seq<char>)
    requires
        t.len() > 0,
        printable(t),
    ensures
        printable(t.drop_last()),
        !is_space(t.last()),
{
    let d = t.drop_last();
    assert forall|i: int| 0 <= i < d.len() implies 45 <= #[trigger] d[i] as u32 <= 122 by {
        assert(d[i] == t[i]);
    }
}

/// A non-empty run of printable characters is a single word.
pub proof fn lemma_words_single(t: Seq<char>)
    requires
        t.len() > 0,
        printable(t),
    ensures
        words(t) == seq![t],
    decreases t.len(),
{
    lemma_printable_drop_last(t);
    let d = t.drop_last();
    if t.len() == 1 {
        assert(d =~= Seq::<char>::empty());
        assert(words(d) =~= Seq::<Seq<char>>::empty());
        assert(seq![t.last()] =~= t);
        assert(words(d).push(seq![t.last()]) =~= seq![t]);
    } else {
        lemma_words_single(d);
        assert(!is_space(t[t.len() - 2])) by {
            assert(45 <= t[t.len() - 2] as u32 <= 122);
        }
        assert(d.push(t.last()) =~= t);
        assert(seq![d].update(0, d.push(t.last())) =~= seq![t]);
    }
}

/// A printable word after a space is one more word.
pub proof fn lemma_words_append(s: Seq<char>, t: Seq<char>)
    requires
        t.len() > 0,
        printable(t),
    ensures
        words(s + seq![' '] + t) == words(s).push(t),
    decreases t.len(),
{
    lemma_printable_drop_last(t);
    let u = s + seq![' '] + t;
    let spaced = s.push(' ');
    assert(spaced.drop_last() =~= s);
    assert(words(spaced) == words(s));
    if t.len() == 1 {
        assert(u.drop_last() =~= spaced);
        assert(u[u.len() - 2] == ' ');
        assert(u.last() == t[0]);
        assert(seq![t[0]] =~= t);
    } else {
        let d = t.drop_last();
        lemma_words_append(s, d);
        assert(u.drop_last() =~= s + seq![' '] + d);
        assert(u[u.len() - 2] == t[t.len() - 2]);
        assert(45 <= t[t.len() - 2] as u32 <= 122);
        assert(u.last() == t.last());
        let w = words(s).push(d);
        assert(w.update(w.len() - 1, w.last().push(t.last())) =~= words(s).push(t)) by {
            assert(d.push(t.last()) =~= t);
        }
    }
}

/// Text free of the separator extends the last piece.
pub proof fn lemma_pieces_append(a: Seq<char>, b: Seq<char>, sep: char)
    requires
        forall|i: int| 0 <= i < b.len() ==> #[trigger] b[i] != sep,
    ensures
        pieces(a + b, sep) == pieces(a, sep).update(
            pieces(a, sep).len() - 1,
            pieces(a, sep).last() + b,
        ),
    decreases b.len(),
{
    lemma_pieces_nonempty(a, sep);
    let w = pieces(a, sep);
    if b.len() == 0 {
        assert(a + b =~= a);
        assert(w.last() + b =~= w.last());
        assert(w.update(w.len() - 1, w.last()) =~= w);
    } else {
        let d = b.drop_last();
        assert forall|i: int| 0 <= i < d.len() implies #[trigger] d[i] != sep by {
            assert(d[i] == b[i]);
        }
        lemma_pieces_append(a, d, sep);
        assert((a + b).drop_last() =~= a + d);
        assert((a + b).last() == b.last());
        let v = w.update(w.len() - 1, w.last() + d);
        assert(v.update(v.len() - 1, v.last().push(b.last())) =~= w.update(
            w.len() - 1,
            w.last() + b,
        )) by {
            assert((w.last() + d).push(b.last()) =~= w.last() + b);
        }
    }
}

/// The views of a sequence of character vectors.
pub open spec fn views(v: Seq<Vec<char>>) -> Seq<Seq<char>> {
    v.map_values(|w: Vec<char>| w@)
}

proof fn lemma_views_push(v: Seq<Vec<char>>, x: Vec<char>)
    ensures
        views(v.push(x)) == views(v).push(x@),
{
    assert(views(v.push(x)) =~= views(v).push(x@));
}

/// The characters of `text`, in order.
pub fn collect_chars(text: &str) -> (r: Vec<char>)
    ensures
        r@ == text@,
{
    let mut out: Vec<char> = Vec::new();
    for c in it: text.chars()
        invariant
            out@ == it.seq().take(it.index() as int),
            it.seq() == text@,
    {
        out.push(c);
        proof {
            assert(out@ =~= it.seq().take(it.index() + 1));
        }
    }
    proof {
        assert(out@ =~= text@);
    }
    out
}

/// Split `s` into its whitespace-separated words.
pub fn split_words(s: &Vec<char>) -> (r: Vec<Vec<char>>)
    ensures
        views(r@) == words(s@),
{
    let mut done: Vec<Vec<char>> = Vec::new();
    let mut cur: Vec<char> = Vec::new();
    let mut in_word = false;
    let mut i: usize = 0;
    while i < s.len()
        invariant
            i <= s.len(),
            words(s@.take(i as int)) == if in_word {
                views(done@).push(cur@)
            } else {
                views(done@)
            },
            in_word == (i > 0 && !is_space(s@[i - 1])),
        decreases s.len() - i,
    {
        let c = s[i];
        proof {
            assert(s@.take(i + 1).drop_last() =~= s@.take(i as int));
            assert(s@.take(i + 1).last() == c);
            if i > 0 {
                assert(s@.take(i + 1)[i - 1] == s@[i - 1]);
            }
        }
        if is_space_char(c) {
            if in_word {
                proof {
                    lemma_views_push(done@, cur);
                }
                done.push(cur);
                cur = Vec::new();
                in_word = false;
            }
        } else if in_word {
            let ghost before = views(done@).push(cur@);
            cur.push(c);
            proof {
                assert(before.update(before.len() - 1, before.last().push(c)) =~= views(
                    done@,
                ).push(cur@));
            }
        } else {
            cur = Vec::new();
            cur.push(c);
            in_word = true;
            proof {
                assert(cur@ =~= seq![c]);
            }
        }
        i = i + 1;
    }
    proof {
        assert(s@.take(s.len() as int) =~= s@);
    }
    if in_word {
        proof {
            lemma_views_push(done@, cur);
        }
        done.push(cur);
    }
    done
}

/// Split `s` at every `sep`.
pub fn split_on(s: &Vec<char>, sep: char) -> (r: Vec<Vec<char>>)
    ensures
        views(r@) == pieces(s@, sep),
        r@.len() >= 1,
{
    let mut done: Vec<Vec<char>> = Vec::new();
    let mut cur: Vec<char> = Vec::new();
    let mut i: usize = 0;
    proof {
        assert(pieces(s@.take(0), sep) =~= views(done@).push(cur@));
    }
    while i < s.len()
        invariant
            i <= s.len(),
            pieces(s@.take(i as int), sep) == views(done@).push(cur@),
        decreases s.len() - i,
    {
        let c = s[i];
        proof {
            assert(s@.take(i + 1).drop_last() =~= s@.take(i as int));
            assert(s@.take(i + 1).last() == c);
        }
        if c == sep {
            proof {
                lemma_views_push(done@, cur);
            }
            done.push(cur);
            cur = Vec::new();
            proof {
                assert(views(done@).push(seq![]) =~= views(done@).push(cur@));
            }
        } else {
            let ghost before = views(done@).push(cur@);
            cur.push(c);
            proof {
                assert(before.update(before.len() - 1, before.last().push(c)) =~= views(
                    done@,
                ).push(cur@));
            }
        }
        i = i + 1;
    }
    proof {
        assert(s@.take(s.len() as int) =~= s@);
        lemma_views_push(done@, cur);
    }
    done.push(cur);
    done
}

/// The character of the decimal digit `d`.
pub open spec fn digit_char(d: int) -> char {
    (48 + d) as char
}

/// The decimal numeral of `n`, without leading zeros.
pub open spec fn decimal(n: nat) -> Seq<char>
    decreases n,
{
    if n < 10 {
        seq![digit_char(n as int)]
    } else {
        decimal(n / 10).push(digit_char((n % 10) as int))
    }
}

/// Append the decimal numeral of `n`.
pub fn push_decimal(text: &mut String, n: u64)
    ensures
        final(text)@ == old(text)@ + decimal(n as nat),
    decreases n,
{
    if n >= 10 {
        push_decimal(text, n / 10);
    }
    let d = (48 + n % 10) as u8 as char;
    push_char(text, d);
    proof {
        if n >= 10 {
            assert(decimal(n as nat) == decimal((n / 10) as nat).push(d));
        } else {
            assert(decimal(n as nat) =~= seq![d]);
        }
    }
}

/// Append every character of `chars`.
pub fn push_chars(text: &mut String, chars: &Vec<char>)
    ensures
        final(text)@ == old(text)@ + chars@,
{
    let mut i: usize = 0;
    while i < chars.len()
        invariant
            i <= chars.len(),
            text@ == old(text)@ + chars@.take(i as int),
        decreases chars.len() - i,
    {
        push_char(text, chars[i]);
        i = i + 1;
        proof {
            assert(text@ =~= old(text)@ + chars@.take(i as int));
        }
    }
    proof {
        assert(chars@.take(chars.len() as int) =~= chars@);
    }
}

} // verus!
