//! What words, quotes and operators of a command line come to.
use vstd::prelude::*;

use super::parser;
use super::parser::{Ch, Op, Quote, Token};
use crate::bytes;

verus! {

/// A byte that means nothing but itself outside quotes, at least behind the
/// start of a word.
pub open spec fn word_byte(c: u8) -> bool {
    !bytes::space_byte(c) && c != 39 && c != 34 && c != 92 && c != 62 && c != 60 && c != 59 && c
        != 38 && c != 124
}

/// Bytes that stand for themselves outside quotes, also at the start of a word.
pub open spec fn word_bytes(s: Seq<u8>) -> bool {
    forall|i: int| 0 <= i < s.len() ==> word_byte(#[trigger] s[i]) && s[i] != 35
}

// ── The rest of a line does not depend on what came before it ──

proof fn lemma_index_shift(a: Seq<u8>, b: Seq<u8>, i: int, c: u8)
    requires
        0 <= i,
    ensures
        i <= b.len() ==> bytes::index_from(a + b, a.len() + i, c) == a.len() + bytes::index_from(
            b,
            i,
            c,
        ),
    decreases b.len() - i,
{
    if i < b.len() {
        assert((a + b)[a.len() + i] == b[i]);
        lemma_index_shift(a, b, i + 1, c);
    }
}

proof fn lemma_dq_shift(a: Seq<u8>, b: Seq<u8>, i: int)
    requires
        0 <= i <= b.len(),
    ensures
        parser::dq_end(a + b, a.len() + i) == a.len() + parser::dq_end(b, i),
        parser::dq_text(a + b, a.len() + i) == parser::dq_text(b, i),
    decreases b.len() - i,
{
    if i < b.len() {
        assert((a + b)[a.len() + i] == b[i]);
        if i + 1 < b.len() {
            assert((a + b)[a.len() + i + 1] == b[i + 1]);
        }
        if b[i] != 34 {
            if parser::dq_escape(b, i) {
                lemma_dq_shift(a, b, i + 2);
            } else {
                lemma_dq_shift(a, b, i + 1);
            }
        }
    }
}

proof fn lemma_shift(a: Seq<u8>, b: Seq<u8>, i: int, word: Seq<Ch>, start: bool)
    requires
        0 <= i,
    ensures
        parser::lex(a + b, a.len() + i, word, start) == parser::lex(b, i, word, start),
    decreases b.len() - i,
{
    let all = a + b;
    let k = a.len() + i;
    if i < b.len() && !(b[i] == 35 && start) {
        assert(all[k] == b[i]);
        if i + 1 < b.len() {
            assert(all[k + 1] == b[i + 1]);
        }
        if i + 2 < b.len() {
            assert(all[k + 2] == b[i + 2]);
        }
        if bytes::space_byte(b[i]) {
            lemma_shift(a, b, i + 1, Seq::empty(), true);
        } else if b[i] == 39 {
            lemma_index_shift(a, b, i + 1, 39);
            bytes::lemma_index_from(b, i + 1, 39);
            let j = bytes::index_from(b, i + 1, 39);
            assert(all.subrange(k + 1, a.len() + j) =~= b.subrange(i + 1, j));
            lemma_shift(
                a,
                b,
                parser::past(b, j),
                word + parser::marked(b.subrange(i + 1, j), Quote::Single),
                false,
            );
        } else if b[i] == 34 {
            lemma_dq_shift(a, b, i + 1);
            parser::lemma_dq_end(b, i + 1);
            let j = parser::dq_end(b, i + 1);
            lemma_shift(a, b, parser::past(b, j), word + parser::dq_text(b, i + 1), false);
        } else if b[i] == 92 {
            if i + 1 < b.len() {
                lemma_shift(a, b, i + 2, word.push(Ch { b: b[i + 1], q: Quote::Esc }), false);
            } else {
                lemma_shift(a, b, i + 1, word, false);
            }
        } else {
            assert(parser::operator_at(all, k, word) == parser::operator_at(b, i, word));
            match parser::operator_at(b, i, word) {
                Some((_, n)) => {
                    lemma_shift(a, b, i + n, Seq::empty(), true);
                },
                None => {
                    lemma_shift(a, b, i + 1, word.push(Ch { b: b[i], q: Quote::Plain }), false);
                },
            }
        }
    }
}

// ── One piece at a time ──

proof fn lemma_plain(c: u8, rest: Seq<u8>, word: Seq<Ch>, start: bool)
    requires
        word_byte(c),
        !(c == 35 && start),
    ensures
        parser::lex(seq![c] + rest, 0, word, start) == parser::lex(
            rest,
            0,
            word.push(Ch { b: c, q: Quote::Plain }),
            false,
        ),
{
    let b = seq![c] + rest;
    lemma_shift(seq![c], rest, 0, word.push(Ch { b: c, q: Quote::Plain }), false);
    assert(b[0] == c);
    assert(parser::operator_at(b, 0, word) is None);
}

proof fn lemma_plain_run(p: Seq<u8>, rest: Seq<u8>, word: Seq<Ch>, start: bool)
    requires
        forall|i: int| 0 <= i < p.len() ==> word_byte(#[trigger] p[i]),
        p.len() > 0 && start ==> p[0] != 35,
    ensures
        parser::lex(p + rest, 0, word, start) == parser::lex(
            rest,
            0,
            word + parser::marked(p, Quote::Plain),
            start && p.len() == 0,
        ),
    decreases p.len(),
{
    if p.len() == 0 {
        assert(p + rest =~= rest);
        assert(word + parser::marked(p, Quote::Plain) =~= word);
    } else {
        let q = p.skip(1);
        let w = word.push(Ch { b: p[0], q: Quote::Plain });
        assert(p + rest =~= seq![p[0]] + (q + rest));
        lemma_plain(p[0], q + rest, word, start);
        assert forall|i: int| 0 <= i < q.len() implies word_byte(#[trigger] q[i]) by {
            assert(q[i] == p[i + 1]);
        }
        lemma_plain_run(q, rest, w, false);
        assert(w + parser::marked(q, Quote::Plain) =~= word + parser::marked(p, Quote::Plain));
    }
}

proof fn lemma_dq_plain(t: Seq<u8>, rest: Seq<u8>, i: int)
    requires
        !t.contains(34u8),
        !t.contains(92u8),
        0 <= i <= t.len(),
        rest.len() > 0 ==> rest[0] == 34,
    ensures
        parser::dq_end(t + rest, i) == t.len(),
        parser::dq_text(t + rest, i) == parser::marked(t.skip(i), Quote::Double),
    decreases t.len() - i,
{
    let b = t + rest;
    if i < t.len() {
        assert(b[i] == t[i]);
        assert(t.contains(t[i]));
        lemma_dq_plain(t, rest, i + 1);
        assert(seq![Ch { b: t[i], q: Quote::Double }] + parser::marked(t.skip(i + 1), Quote::Double)
            =~= parser::marked(t.skip(i), Quote::Double));
    } else {
        if rest.len() > 0 {
            assert(b[i] == rest[0]);
        }
        assert(parser::marked(t.skip(i), Quote::Double) =~= Seq::empty());
    }
}

proof fn lemma_double(t: Seq<u8>, rest: Seq<u8>, word: Seq<Ch>, start: bool)
    requires
        !t.contains(34u8),
        !t.contains(92u8),
    ensures
        parser::lex(seq![34u8] + t + seq![34u8] + rest, 0, word, start) == parser::lex(
            rest,
            0,
            word + parser::marked(t, Quote::Double),
            false,
        ),
{
    let tail = seq![34u8] + rest;
    let b = seq![34u8] + t + seq![34u8] + rest;
    assert(b =~= seq![34u8] + (t + tail));
    assert(tail[0] == 34);
    lemma_dq_plain(t, tail, 0);
    lemma_dq_shift(seq![34u8], t + tail, 0);
    assert(t.skip(0) =~= t);
    assert(parser::dq_end(b, 1) == 1 + t.len());
    let front = seq![34u8] + t + seq![34u8];
    lemma_shift(front, rest, 0, word + parser::marked(t, Quote::Double), false);
    assert(b =~= front + rest);
    assert(b[0] == 34);
}

proof fn lemma_single(t: Seq<u8>, rest: Seq<u8>, word: Seq<Ch>, start: bool)
    requires
        !t.contains(39u8),
    ensures
        parser::lex(seq![39u8] + t + seq![39u8] + rest, 0, word, start) == parser::lex(
            rest,
            0,
            word + parser::marked(t, Quote::Single),
            false,
        ),
{
    let b = seq![39u8] + t + seq![39u8] + rest;
    let n = t.len() as int;
    assert(b[n + 1] == 39);
    assert forall|k: int| 1 <= k < n + 1 implies b[k] != 39 by {
        assert(b[k] == t[k - 1]);
        assert(t.contains(t[k - 1]));
    }
    bytes::lemma_index_from_unique(b, 1, 39, n + 1);
    assert(b.subrange(1, n + 1) =~= t);
    let front = seq![39u8] + t + seq![39u8];
    lemma_shift(front, rest, 0, word + parser::marked(t, Quote::Single), false);
    assert(b =~= front + rest);
    assert(b[0] == 39);
}

proof fn lemma_escaped(c: u8, rest: Seq<u8>, word: Seq<Ch>, start: bool)
    ensures
        parser::lex(seq![92u8, c] + rest, 0, word, start) == parser::lex(
            rest,
            0,
            word.push(Ch { b: c, q: Quote::Esc }),
            false,
        ),
{
    let b = seq![92u8, c] + rest;
    assert(b[0] == 92 && b[1] == c);
    lemma_shift(seq![92u8, c], rest, 0, word.push(Ch { b: c, q: Quote::Esc }), false);
}

proof fn lemma_dq_escaped(c: u8, rest: Seq<u8>, word: Seq<Ch>, start: bool)
    requires
        c == 36 || c == 34 || c == 92,
    ensures
        parser::lex(seq![34u8, 92u8, c, 34u8] + rest, 0, word, start) == parser::lex(
            rest,
            0,
            word.push(
                Ch {
                    b: c,
                    q: if c == 36 {
                        Quote::Esc
                    } else {
                        Quote::Double
                    },
                },
            ),
            false,
        ),
{
    let front = seq![34u8, 92u8, c, 34u8];
    let b = front + rest;
    let w = word.push(
        Ch {
            b: c,
            q: if c == 36 {
                Quote::Esc
            } else {
                Quote::Double
            },
        },
    );
    assert(b[0] == 34 && b[1] == 92 && b[2] == c && b[3] == 34);
    assert(parser::dq_escape(b, 1));
    assert(parser::dq_end(b, 3) == 3);
    assert(parser::dq_text(b, 3) =~= Seq::empty());
    assert(parser::dq_end(b, 1) == 3);
    assert(word + parser::dq_text(b, 1) =~= w);
    lemma_shift(front, rest, 0, w, false);
}

proof fn lemma_space(c: u8, rest: Seq<u8>, word: Seq<Ch>, start: bool)
    requires
        bytes::space_byte(c),
    ensures
        parser::lex(seq![c] + rest, 0, word, start) == parser::prepend(
            parser::flushed(word),
            parser::lex(rest, 0, Seq::empty(), true),
        ),
{
    let b = seq![c] + rest;
    assert(b[0] == c);
    lemma_shift(seq![c], rest, 0, Seq::empty(), true);
}

// ── Quotes ──

/// Quotes do not separate words: what stands between `"` and what touches it is
/// one word, and the white space and the operators between them mean nothing.
pub proof fn law_double_quotes_do_not_separate(p: Seq<u8>, t: Seq<u8>, s: Seq<u8>)
    requires
        word_bytes(p),
        word_bytes(s),
        !t.contains(34u8),
        !t.contains(92u8),
        p.len() + t.len() + s.len() > 0,
    ensures
        parser::line_tokens(p + seq![34u8] + t + seq![34u8] + s) == Some(
            seq![
                Token::Word(
                    parser::marked(p, Quote::Plain) + parser::marked(t, Quote::Double)
                        + parser::marked(s, Quote::Plain),
                ),
            ],
        ),
{
    let w1 = parser::marked(p, Quote::Plain);
    let w2 = w1 + parser::marked(t, Quote::Double);
    let w3 = w2 + parser::marked(s, Quote::Plain);
    let b = p + seq![34u8] + t + seq![34u8] + s;
    assert(b =~= p + (seq![34u8] + t + seq![34u8] + s));
    lemma_plain_run(p, seq![34u8] + t + seq![34u8] + s, Seq::empty(), true);
    assert(Seq::<Ch>::empty() + w1 =~= w1);
    lemma_double(t, s, w1, p.len() == 0);
    assert(s + Seq::<u8>::empty() =~= s);
    lemma_plain_run(s, Seq::empty(), w2, false);
    assert(parser::lex(Seq::empty(), 0, w3, false) == Some(parser::flushed(w3)));
}

/// The same of single quotes, between which nothing at all is special.
pub proof fn law_single_quotes_do_not_separate(p: Seq<u8>, t: Seq<u8>, s: Seq<u8>)
    requires
        word_bytes(p),
        word_bytes(s),
        !t.contains(39u8),
        p.len() + t.len() + s.len() > 0,
    ensures
        parser::line_tokens(p + seq![39u8] + t + seq![39u8] + s) == Some(
            seq![
                Token::Word(
                    parser::marked(p, Quote::Plain) + parser::marked(t, Quote::Single)
                        + parser::marked(s, Quote::Plain),
                ),
            ],
        ),
{
    let w1 = parser::marked(p, Quote::Plain);
    let w2 = w1 + parser::marked(t, Quote::Single);
    let w3 = w2 + parser::marked(s, Quote::Plain);
    let b = p + seq![39u8] + t + seq![39u8] + s;
    assert(b =~= p + (seq![39u8] + t + seq![39u8] + s));
    lemma_plain_run(p, seq![39u8] + t + seq![39u8] + s, Seq::empty(), true);
    assert(Seq::<Ch>::empty() + w1 =~= w1);
    lemma_single(t, s, w1, p.len() == 0);
    assert(s + Seq::<u8>::empty() =~= s);
    lemma_plain_run(s, Seq::empty(), w2, false);
    assert(parser::lex(Seq::empty(), 0, w3, false) == Some(parser::flushed(w3)));
}

/// A quote that is not closed runs to the end of the line.
pub proof fn law_open_quote_runs_to_the_end(p: Seq<u8>, t: Seq<u8>)
    requires
        word_bytes(p),
        p.len() + t.len() > 0,
    ensures
        !t.contains(34u8) && !t.contains(92u8) ==> parser::line_tokens(p + seq![34u8] + t) == Some(
            seq![
                Token::Word(parser::marked(p, Quote::Plain) + parser::marked(t, Quote::Double)),
            ],
        ),
        !t.contains(39u8) ==> parser::line_tokens(p + seq![39u8] + t) == Some(
            seq![
                Token::Word(parser::marked(p, Quote::Plain) + parser::marked(t, Quote::Single)),
            ],
        ),
{
    let w1 = parser::marked(p, Quote::Plain);
    assert(Seq::<Ch>::empty() + w1 =~= w1);
    if !t.contains(34u8) && !t.contains(92u8) {
        let b = seq![34u8] + t;
        let w = w1 + parser::marked(t, Quote::Double);
        assert(p + seq![34u8] + t =~= p + b);
        lemma_plain_run(p, b, Seq::empty(), true);
        lemma_dq_plain(t, Seq::empty(), 0);
        assert(t + Seq::<u8>::empty() =~= t);
        assert(t.skip(0) =~= t);
        lemma_dq_shift(seq![34u8], t, 0);
        assert(b[0] == 34);
        assert(parser::lex(b, b.len() as int, w, false) == Some(parser::flushed(w)));
    }
    if !t.contains(39u8) {
        let b = seq![39u8] + t;
        let w = w1 + parser::marked(t, Quote::Single);
        assert(p + seq![39u8] + t =~= p + b);
        lemma_plain_run(p, b, Seq::empty(), true);
        assert forall|k: int| 1 <= k < b.len() implies b[k] != 39 by {
            assert(b[k] == t[k - 1]);
            assert(t.contains(t[k - 1]));
        }
        bytes::lemma_index_from_unique(b, 1, 39, b.len() as int);
        assert(b.subrange(1, b.len() as int) =~= t);
        assert(b[0] == 39);
        assert(parser::lex(b, b.len() as int, w, false) == Some(parser::flushed(w)));
    }
}

/// Between `"`, a `\` in front of any other byte than `$`, `"` and `\` is a byte
/// like any other.
pub proof fn law_backslash_stays_in_double_quotes(c: u8)
    requires
        c != 36,
        c != 34,
        c != 92,
    ensures
        parser::line_tokens(seq![34u8, 92u8, c, 34u8]) == Some(
            seq![Token::Word(parser::marked(seq![92u8, c], Quote::Double))],
        ),
{
    let b = seq![34u8, 92u8, c, 34u8];
    let w = parser::marked(seq![92u8, c], Quote::Double);
    assert(parser::dq_text(b, 3) =~= Seq::empty());
    assert(parser::dq_end(b, 3) == 3);
    assert(parser::dq_text(b, 2) =~= seq![Ch { b: c, q: Quote::Double }]);
    assert(parser::dq_end(b, 2) == 3);
    assert(parser::dq_text(b, 1) =~= w);
    assert(parser::dq_end(b, 1) == 3);
    assert(Seq::<Ch>::empty() + w =~= w);
    assert(parser::lex(b, 4, w, false) == Some(parser::flushed(w)));
}

// ── A whole line ──

/// A byte of a word, as it can be written: plain, between quotes, or escaped.
pub open spec fn written(c: Ch) -> Seq<u8> {
    match c.q {
        Quote::Single => seq![39u8, c.b, 39u8],
        Quote::Double => if c.b == 34 || c.b == 92 {
            seq![34u8, 92u8, c.b, 34u8]
        } else {
            seq![34u8, c.b, 34u8]
        },
        Quote::Esc => seq![92u8, c.b],
        _ => seq![c.b],
    }
}

/// A byte of a word that can be written; `#` cannot be the first one.
pub open spec fn writable(c: Ch, first: bool) -> bool {
    match c.q {
        Quote::Plain => word_byte(c.b) && !(first && c.b == 35),
        Quote::Single => c.b != 39,
        Quote::Double => true,
        Quote::Esc => true,
        _ => false,
    }
}

/// A word, as it can be written.
pub open spec fn written_word(w: Seq<Ch>) -> Seq<u8>
    decreases w.len(),
{
    if w.len() == 0 {
        Seq::empty()
    } else {
        written(w[0]) + written_word(w.skip(1))
    }
}

/// A token that can be written.
pub open spec fn writable_token(t: Token) -> bool {
    match t {
        Token::Word(w) => w.len() > 0 && forall|i: int|
            0 <= i < w.len() ==> writable(#[trigger] w[i], i == 0),
        Token::Op(_) => true,
    }
}

/// The text of an operator: what is redirected or joined, in the shell's signs.
pub open spec fn written_op(op: Op) -> Seq<u8> {
    match op {
        Op::Gt => seq![62u8],
        Op::GtGt => seq![62u8, 62u8],
        Op::Lt => seq![60u8],
        Op::E2Gt => seq![50u8, 62u8],
        Op::E2GtGt => seq![50u8, 62u8, 62u8],
        Op::Dup21 => seq![50u8, 62u8, 38u8, 49u8],
        Op::Semi => seq![59u8],
        Op::And => seq![38u8, 38u8],
        Op::Or => seq![124u8, 124u8],
        Op::Bg => seq![38u8],
    }
}

/// A line: its tokens, a space behind each.
pub open spec fn written_line(ts: Seq<Token>) -> Seq<u8>
    decreases ts.len(),
{
    if ts.len() == 0 {
        Seq::empty()
    } else {
        (match ts[0] {
            Token::Word(w) => written_word(w),
            Token::Op(op) => written_op(op),
        }) + seq![32u8] + written_line(ts.skip(1))
    }
}

proof fn lemma_written_word(w: Seq<Ch>, rest: Seq<u8>, word: Seq<Ch>, start: bool)
    requires
        forall|i: int| 0 <= i < w.len() ==> writable(#[trigger] w[i], start && i == 0),
    ensures
        parser::lex(written_word(w) + rest, 0, word, start) == parser::lex(
            rest,
            0,
            word + w,
            start && w.len() == 0,
        ),
    decreases w.len(),
{
    if w.len() == 0 {
        assert(written_word(w) + rest =~= rest);
        assert(word + w =~= word);
    } else {
        let c = w[0];
        let v = w.skip(1);
        let tail = written_word(v) + rest;
        let next = word.push(c);
        assert(writable(w[0], start));
        assert(written_word(w) + rest =~= written(c) + tail);
        match c.q {
            Quote::Plain => {
                lemma_plain(c.b, tail, word, start);
            },
            Quote::Single => {
                assert(seq![39u8] + seq![c.b] + seq![39u8] + tail =~= written(c) + tail);
                lemma_single(seq![c.b], tail, word, start);
                assert(word + parser::marked(seq![c.b], Quote::Single) =~= next);
            },
            Quote::Double => {
                if c.b == 34 || c.b == 92 {
                    lemma_dq_escaped(c.b, tail, word, start);
                } else {
                    assert(seq![34u8] + seq![c.b] + seq![34u8] + tail =~= written(c) + tail);
                    lemma_double(seq![c.b], tail, word, start);
                    assert(word + parser::marked(seq![c.b], Quote::Double) =~= next);
                }
            },
            Quote::Esc => {
                lemma_escaped(c.b, tail, word, start);
            },
            _ => {},
        }
        assert forall|i: int| 0 <= i < v.len() implies writable(#[trigger] v[i], false) by {
            assert(v[i] == w[i + 1]);
            assert(writable(w[i + 1], false));
        }
        lemma_written_word(v, rest, next, false);
        assert(next + v =~= word + w);
    }
}

proof fn lemma_written_op(op: Op, rest: Seq<u8>)
    ensures
        parser::lex(written_op(op) + seq![32u8] + rest, 0, Seq::empty(), true) == parser::prepend(
            seq![Token::Op(op)],
            parser::lex(rest, 0, Seq::empty(), true),
        ),
{
    let t = written_op(op);
    let b = t + seq![32u8] + rest;
    let none = Seq::<Ch>::empty();
    let two = none.push(Ch { b: 50, q: Quote::Plain });
    assert(b =~= t + (seq![32u8] + rest));
    lemma_shift(t, seq![32u8] + rest, 0, none, true);
    lemma_space(32, rest, none, true);
    let end = parser::lex(rest, 0, none, true);
    assert(parser::flushed(none) =~= Seq::<Token>::empty());
    assert(parser::lex(b, t.len() as int, none, true) == end) by {
        if end is Some {
            assert(Seq::<Token>::empty() + end->0 =~= end->0);
        }
    }
    assert(b[t.len() as int] == 32);
    assert forall|i: int| 0 <= i < t.len() implies #[trigger] b[i] == t[i] by {}
    assert(parser::flushed(none).push(Token::Op(op)) =~= seq![Token::Op(op)]);
    if t[0] == 50 {
        assert(b[0] == 50 && b[1] == 62);
        assert(parser::operator_at(b, 0, none) is None);
        assert(parser::lex(b, 0, none, true) == parser::lex(b, 1, two, false));
        if t.len() > 2 {
            assert(b[2] == t[2]);
        }
        if t.len() > 3 {
            assert(b[3] == t[3]);
        }
        assert(parser::err_prefix(two));
        assert(parser::operator_at(b, 1, two) == Some((op, t.len() - 1)));
    } else {
        if t.len() > 1 {
            assert(b[1] == t[1]);
        }
        assert(parser::operator_at(b, 0, none) == Some((op, t.len() as int)));
    }
}

proof fn lemma_written_line(ts: Seq<Token>, rest: Seq<u8>)
    requires
        forall|i: int| 0 <= i < ts.len() ==> writable_token(#[trigger] ts[i]),
    ensures
        parser::lex(written_line(ts) + rest, 0, Seq::empty(), true) == parser::prepend(
            ts,
            parser::lex(rest, 0, Seq::empty(), true),
        ),
    decreases ts.len(),
{
    let end = parser::lex(rest, 0, Seq::empty(), true);
    if ts.len() == 0 {
        assert(written_line(ts) + rest =~= rest);
        if end is Some {
            assert(ts + end->0 =~= end->0);
        }
    } else {
        let us = ts.skip(1);
        let tail = written_line(us) + rest;
        assert forall|i: int| 0 <= i < us.len() implies writable_token(#[trigger] us[i]) by {
            assert(us[i] == ts[i + 1]);
        }
        lemma_written_line(us, rest);
        assert(writable_token(ts[0]));
        match ts[0] {
            Token::Word(w) => {
                assert(written_line(ts) + rest =~= written_word(w) + (seq![32u8] + tail));
                lemma_written_word(w, seq![32u8] + tail, Seq::empty(), true);
                assert(Seq::<Ch>::empty() + w =~= w);
                lemma_space(32, tail, w, false);
            },
            Token::Op(op) => {
                assert(written_line(ts) + rest =~= written_op(op) + seq![32u8] + tail);
                lemma_written_op(op, tail);
            },
        }
        if end is Some {
            assert(seq![ts[0]] + (us + end->0) =~= ts + end->0);
        }
    }
}

/// A line reads back: tokens that are written one after the other, with a space
/// behind each, come out as they were, whatever is quoted in whichever way.
pub proof fn law_written_line_reads_back(ts: Seq<Token>)
    requires
        forall|i: int| 0 <= i < ts.len() ==> writable_token(#[trigger] ts[i]),
    ensures
        parser::line_tokens(written_line(ts)) == Some(ts),
{
    let none = Seq::<u8>::empty();
    lemma_written_line(ts, none);
    assert(written_line(ts) + none =~= written_line(ts));
    assert(parser::lex(none, 0, Seq::empty(), true) == Some(Seq::<Token>::empty()));
    assert(ts + Seq::<Token>::empty() =~= ts);
}

/// A comment starts where a word could: nothing from `#` on counts. Within a
/// word `#` is a byte like any other.
pub proof fn law_comment_is_dropped(ts: Seq<Token>, comment: Seq<u8>)
    requires
        forall|i: int| 0 <= i < ts.len() ==> writable_token(#[trigger] ts[i]),
    ensures
        parser::line_tokens(written_line(ts) + seq![35u8] + comment) == Some(ts),
{
    let rest = seq![35u8] + comment;
    lemma_written_line(ts, rest);
    assert(written_line(ts) + seq![35u8] + comment =~= written_line(ts) + rest);
    assert(rest[0] == 35);
    assert(parser::lex(rest, 0, Seq::empty(), true) == Some(Seq::<Token>::empty()));
    assert(ts + Seq::<Token>::empty() =~= ts);
}

/// A `|` that is not doubled refuses the whole line, wherever a token could
/// start.
pub proof fn law_single_bar_is_refused(ts: Seq<Token>, rest: Seq<u8>)
    requires
        forall|i: int| 0 <= i < ts.len() ==> writable_token(#[trigger] ts[i]),
        rest.len() == 0 || rest[0] != 124,
    ensures
        parser::line_tokens(written_line(ts) + seq![124u8] + rest) is None,
{
    let tail = seq![124u8] + rest;
    lemma_written_line(ts, tail);
    assert(written_line(ts) + seq![124u8] + rest =~= written_line(ts) + tail);
    assert(tail[0] == 124);
    if rest.len() > 0 {
        assert(tail[1] == rest[0]);
    }
    assert(parser::operator_at(tail, 0, Seq::empty()) is None);
}

/// Operators need no space around them: they end the word in front.
pub proof fn law_operators_end_words(w: Seq<Ch>, op: Op, ts: Seq<Token>)
    requires
        writable_token(Token::Word(w)),
        forall|i: int| 0 <= i < ts.len() ==> writable_token(#[trigger] ts[i]),
        !(op is E2Gt) && !(op is E2GtGt) && !(op is Dup21),
        !parser::err_prefix(w),
    ensures
        parser::line_tokens(written_word(w) + written_op(op) + seq![32u8] + written_line(ts))
            == Some(seq![Token::Word(w), Token::Op(op)] + ts),
{
    let t = written_op(op);
    let line = written_line(ts);
    let tail = seq![32u8] + line;
    let b = t + tail;
    assert(written_word(w) + t + seq![32u8] + line =~= written_word(w) + b);
    lemma_written_word(w, b, Seq::empty(), true);
    assert(Seq::<Ch>::empty() + w =~= w);
    lemma_shift(t, tail, 0, Seq::empty(), true);
    lemma_space(32, line, Seq::empty(), true);
    law_written_line_reads_back(ts);
    assert(Seq::<Token>::empty() + ts =~= ts);
    assert(b[t.len() as int] == 32);
    assert(b[0] == t[0]);
    if t.len() > 1 {
        assert(b[1] == t[1]);
    }
    assert(parser::operator_at(b, 0, w) == Some((op, t.len() as int)));
    assert(parser::flushed(w).push(Token::Op(op)) =~= seq![Token::Word(w), Token::Op(op)]);
}

/// An error names an operator by the text that it is written with.
pub proof fn law_operator_is_named_as_written(op: Op)
    ensures
        parser::op_text_spec(op) == written_op(op),
{
}

} // verus!
