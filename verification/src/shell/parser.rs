//! Command line parser: words with quoting, operators, expansion of `~` and
//! `$`, file name patterns, redirections and connectors.
//!
//! Quoting follows the usual rules: `'...'` is literal, `"..."` lets `$`
//! through, `\` takes the next byte literally, `#` at the start of a word
//! opens a comment. A single `|` is refused.
use vstd::prelude::*;
use vstd::slice::slice_subrange;

use crate::bytes;
use crate::bytes::{
    bytes_eq, copy_of, find_byte, fmt_u64, is_name_byte, is_name_start, is_space, text_or_empty,
};

verus! {

/// How a byte of a word came to stand there.
#[derive(Clone, Copy, PartialEq, Eq, Debug, Structural)]
pub enum Quote {
    /// Typed directly, not quoted.
    Plain,
    /// From `'...'`: never expanded, matched or split.
    Single,
    /// From `"..."`: only `$` is expanded.
    Double,
    /// Escaped with `\`: never special.
    Esc,
    /// From an expansion outside quotes: may be split and matched.
    Exp,
    /// From an expansion inside `"..."`: never split or matched.
    ExpQ,
}

/// A byte of a word with its quoting.
#[derive(Clone, Copy, PartialEq, Eq, Debug, Structural)]
pub struct Ch {
    pub b: u8,
    pub q: Quote,
}

/// Connector between two commands of a line.
#[derive(Clone, Copy, PartialEq, Eq, Debug, Structural)]
pub enum Conn {
    /// `;` or `&`.
    Always,
    /// `&&`.
    And,
    /// `||`.
    Or,
}

#[derive(Clone, Copy, PartialEq, Eq, Debug, Structural)]
pub enum Op {
    Gt,
    GtGt,
    Lt,
    E2Gt,
    E2GtGt,
    Dup21,
    Semi,
    And,
    Or,
    Bg,
}

#[derive(Clone, Copy, PartialEq, Eq, Debug, Structural)]
pub enum ParseError {
    /// A redirection operator without a word after it.
    MissingTarget(Op),
    /// A single `|`.
    PipeUnsupported,
    /// `${` without `}`, or around something that is no variable name.
    BadSubst,
    /// `NAME=value` in front of a command.
    EnvPrefix,
}

/// The text of a redirection operator.
pub open spec fn op_text_spec(op: Op) -> Seq<u8> {
    match op {
        Op::Gt => seq![62u8],
        Op::GtGt => seq![62u8, 62u8],
        Op::Lt => seq![60u8],
        Op::E2Gt => seq![50u8, 62u8],
        Op::E2GtGt => seq![50u8, 62u8, 62u8],
        Op::Dup21 => seq![50u8, 62u8, 38u8, 49u8],
        Op::Semi => seq![59u8],
        Op::And => seq![38u8, 38u8],
        Op::Or => seq![124u8, 124u8],
        Op::Bg => seq![38u8],
    }
}

/// The text of an operator, as an error message names it.
pub fn op_text(op: Op) -> (r: Vec<u8>)
    ensures
        r@ == op_text_spec(op),
{
    match op {
        Op::Gt => vec![62u8],
        Op::GtGt => vec![62u8, 62u8],
        Op::Lt => vec![60u8],
        Op::E2Gt => vec![50u8, 62u8],
        Op::E2GtGt => vec![50u8, 62u8, 62u8],
        Op::Dup21 => vec![50u8, 62u8, 38u8, 49u8],
        Op::Semi => vec![59u8],
        Op::And => vec![38u8, 38u8],
        Op::Or => vec![124u8, 124u8],
        Op::Bg => vec![38u8],
    }
}

// ── Tokens ──

/// A token of a command line.
pub enum Piece {
    Word(Vec<Ch>),
    Op(Op),
}

/// A token as a value.
#[verifier::ext_equal]
pub enum Token {
    Word(Seq<Ch>),
    Op(Op),
}

impl View for Piece {
    type V = Token;

    open spec fn view(&self) -> Token {
        match *self {
            Piece::Word(w) => Token::Word(w@),
            Piece::Op(op) => Token::Op(op),
        }
    }
}

pub open spec fn tokens(v: Seq<Piece>) -> Seq<Token> {
    Seq::new(v.len(), |i: int| v[i]@)
}

/// The bytes of `s`, all quoted in the same way.
pub open spec fn marked(s: Seq<u8>, q: Quote) -> Seq<Ch> {
    Seq::new(s.len(), |i: int| Ch { b: s[i], q })
}

/// A word ends: a token if anything stands in it.
pub open spec fn flushed(word: Seq<Ch>) -> Seq<Token> {
    if word.len() == 0 {
        Seq::empty()
    } else {
        seq![Token::Word(word)]
    }
}

pub open spec fn prepend(front: Seq<Token>, rest: Option<Seq<Token>>) -> Option<Seq<Token>> {
    match rest {
        Some(r) => Some(front + r),
        None => None,
    }
}

/// Inside `"..."`, `\` escapes `$`, `"` and `\` only.
pub open spec fn dq_escape(b: Seq<u8>, i: int) -> bool {
    b[i] == 92 && i + 1 < b.len() && (b[i + 1] == 36 || b[i + 1] == 34 || b[i + 1] == 92)
}

/// The index of the closing `"` of a text that starts at `i`, or the length.
pub open spec fn dq_end(b: Seq<u8>, i: int) -> int
    decreases b.len() - i,
{
    if i >= b.len() {
        b.len() as int
    } else if b[i] == 34 {
        i
    } else if dq_escape(b, i) {
        dq_end(b, i + 2)
    } else {
        dq_end(b, i + 1)
    }
}

/// What the text inside `"..."` stands for. `\$` can never be expanded again.
pub open spec fn dq_text(b: Seq<u8>, i: int) -> Seq<Ch>
    decreases b.len() - i,
{
    if i >= b.len() || b[i] == 34 {
        Seq::empty()
    } else if dq_escape(b, i) {
        let q = if b[i + 1] == 36 {
            Quote::Esc
        } else {
            Quote::Double
        };
        seq![Ch { b: b[i + 1], q }] + dq_text(b, i + 2)
    } else {
        seq![Ch { b: b[i], q: Quote::Double }] + dq_text(b, i + 1)
    }
}

pub proof fn lemma_dq_end(b: Seq<u8>, i: int)
    requires
        0 <= i <= b.len(),
    ensures
        i <= dq_end(b, i) <= b.len(),
    decreases b.len() - i,
{
    if i < b.len() && b[i] != 34 {
        if dq_escape(b, i) {
            lemma_dq_end(b, i + 2);
        } else {
            lemma_dq_end(b, i + 1);
        }
    }
}

/// Behind the closing quote at `j`; an open quote runs to the end of the line.
pub open spec fn past(b: Seq<u8>, j: int) -> int {
    if j < b.len() {
        j + 1
    } else {
        j
    }
}

/// A word that is a plain `2` in front of `>` names the error stream.
pub open spec fn err_prefix(word: Seq<Ch>) -> bool {
    word.len() == 1 && word[0] == (Ch { b: 50, q: Quote::Plain })
}

/// The operator that starts at `i`, with its length; the word in front counts
/// for `>` only.
pub open spec fn operator_at(b: Seq<u8>, i: int, word: Seq<Ch>) -> Option<(Op, int)> {
    let n1 = if i + 1 < b.len() {
        b[i + 1] as int
    } else {
        -1
    };
    let n2 = if i + 2 < b.len() {
        b[i + 2] as int
    } else {
        -1
    };
    if b[i] == 62 {
        if err_prefix(word) {
            if n1 == 62 {
                Some((Op::E2GtGt, 2int))
            } else if n1 == 38 && n2 == 49 {
                Some((Op::Dup21, 3int))
            } else {
                Some((Op::E2Gt, 1int))
            }
        } else if n1 == 62 {
            Some((Op::GtGt, 2int))
        } else {
            Some((Op::Gt, 1int))
        }
    } else if b[i] == 60 {
        Some((Op::Lt, 1int))
    } else if b[i] == 59 {
        Some((Op::Semi, 1int))
    } else if b[i] == 38 {
        if n1 == 38 {
            Some((Op::And, 2int))
        } else {
            Some((Op::Bg, 1int))
        }
    } else if b[i] == 124 && n1 == 124 {
        Some((Op::Or, 2int))
    } else {
        None
    }
}

/// The tokens of the rest of the line from `i` on, where `word` has been
/// gathered so far and `at_start` says that no word has begun. `None` where a
/// single `|` stands.
pub open spec fn lex(b: Seq<u8>, i: int, word: Seq<Ch>, at_start: bool) -> Option<Seq<Token>>
    decreases b.len() - i,
    when 0 <= i
{
    if i >= b.len() || (b[i] == 35 && at_start) {
        Some(flushed(word))
    } else if bytes::space_byte(b[i]) {
        prepend(flushed(word), lex(b, i + 1, Seq::empty(), true))
    } else if b[i] == 39 {
        let j = bytes::index_from(b, i + 1, 39);
        proof {
            bytes::lemma_index_from(b, i + 1, 39);
        }
        lex(b, past(b, j), word + marked(b.subrange(i + 1, j), Quote::Single), false)
    } else if b[i] == 34 {
        let j = dq_end(b, i + 1);
        proof {
            lemma_dq_end(b, i + 1);
        }
        lex(b, past(b, j), word + dq_text(b, i + 1), false)
    } else if b[i] == 92 {
        if i + 1 < b.len() {
            lex(b, i + 2, word.push(Ch { b: b[i + 1], q: Quote::Esc }), false)
        } else {
            lex(b, i + 1, word, false)
        }
    } else {
        match operator_at(b, i, word) {
            Some((op, n)) => {
                let kept = if b[i] == 62 && err_prefix(word) {
                    Seq::empty()
                } else {
                    word
                };
                prepend(flushed(kept).push(Token::Op(op)), lex(b, i + n, Seq::empty(), true))
            },
            None => if b[i] == 124 {
                None
            } else {
                lex(b, i + 1, word.push(Ch { b: b[i], q: Quote::Plain }), false)
            },
        }
    }
}

/// The tokens of a line, or `None` where a single `|` stands outside quotes.
pub open spec fn line_tokens(b: Seq<u8>) -> Option<Seq<Token>> {
    lex(b, 0, Seq::empty(), true)
}

fn flush(out: &mut Vec<Piece>, word: Vec<Ch>)
    ensures
        tokens(final(out)@) == tokens(old(out)@) + flushed(word@),
{
    if word.len() > 0 {
        out.push(Piece::Word(word));
    }
    assert(tokens(out@) =~= tokens(old(out)@) + flushed(word@));
}

/// Appends the text inside `"..."` that starts at `from`; returns the index of
/// the closing quote, or the length.
fn push_double_quoted(b: &[u8], from: usize, word: &mut Vec<Ch>) -> (r: usize)
    requires
        from <= b.len(),
    ensures
        r == dq_end(b@, from as int),
        from <= r <= b.len(),
        final(word)@ == old(word)@ + dq_text(b@, from as int),
{
    let mut i: usize = from;
    while i < b.len() && b[i] != 34
        invariant
            from <= i <= b.len(),
            dq_end(b@, from as int) == dq_end(b@, i as int),
            old(word)@ + dq_text(b@, from as int) == word@ + dq_text(b@, i as int),
        decreases b.len() - i,
    {
        let ghost before = word@;
        let ghost i0 = i as int;
        if b[i] == 92 && i + 1 < b.len() && (b[i + 1] == 36 || b[i + 1] == 34 || b[i + 1] == 92) {
            let q = if b[i + 1] == 36 {
                Quote::Esc
            } else {
                Quote::Double
            };
            word.push(Ch { b: b[i + 1], q });
            i += 2;
        } else {
            word.push(Ch { b: b[i], q: Quote::Double });
            i += 1;
        }
        assert(before + dq_text(b@, i0) =~= word@ + dq_text(b@, i as int));
    }
    assert(word@ + dq_text(b@, i as int) =~= word@);
    i
}

fn push_marked(word: &mut Vec<Ch>, s: &[u8], q: Quote)
    ensures
        final(word)@ == old(word)@ + marked(s@, q),
{
    let mut i: usize = 0;
    while i < s.len()
        invariant
            i <= s.len(),
            word@ == old(word)@ + marked(s@, q).take(i as int),
        decreases s.len() - i,
    {
        word.push(Ch { b: s[i], q });
        i += 1;
        assert(word@ =~= old(word)@ + marked(s@, q).take(i as int));
    }
    assert(marked(s@, q).take(i as int) =~= marked(s@, q));
}

fn operator(b: &[u8], i: usize, word: &Vec<Ch>) -> (r: Option<(Op, usize)>)
    requires
        i < b.len(),
    ensures
        match r {
            Some((op, n)) => operator_at(b@, i as int, word@) == Some((op, n as int)) && 1 <= n
                && i + n <= b.len(),
            None => operator_at(b@, i as int, word@) is None,
        },
{
    let n1: u8 = if i + 1 < b.len() {
        b[i + 1]
    } else {
        0
    };
    let n2: u8 = if b.len() - i > 2 {
        b[i + 2]
    } else {
        0
    };
    let c: u8 = b[i];
    if c == 62 {
        if word.len() == 1 && word[0].b == 50 && word[0].q == Quote::Plain {
            if n1 == 62 {
                Some((Op::E2GtGt, 2))
            } else if n1 == 38 && n2 == 49 {
                Some((Op::Dup21, 3))
            } else {
                Some((Op::E2Gt, 1))
            }
        } else if n1 == 62 {
            Some((Op::GtGt, 2))
        } else {
            Some((Op::Gt, 1))
        }
    } else if c == 60 {
        Some((Op::Lt, 1))
    } else if c == 59 {
        Some((Op::Semi, 1))
    } else if c == 38 {
        if n1 == 38 {
            Some((Op::And, 2))
        } else {
            Some((Op::Bg, 1))
        }
    } else if c == 124 && n1 == 124 {
        Some((Op::Or, 2))
    } else {
        None
    }
}

/// Splits a line into words, with the quoting of each byte, and operators.
/// Quotes and backslashes are consumed here; a quote that is never closed runs
/// to the end of the line.
pub fn tokenize(b: &[u8]) -> (r: Result<Vec<Piece>, ParseError>)
    ensures
        match r {
            Ok(v) => line_tokens(b@) == Some(tokens(v@)),
            Err(e) => line_tokens(b@) is None && e == ParseError::PipeUnsupported,
        },
{
    let mut out: Vec<Piece> = Vec::new();
    let mut word: Vec<Ch> = Vec::new();
    let mut at_start: bool = true;
    let mut i: usize = 0;
    assert(prepend(tokens(out@), line_tokens(b@)) =~= line_tokens(b@));
    while i < b.len() && !(b[i] == 35 && at_start)
        invariant
            i <= b.len(),
            line_tokens(b@) == prepend(tokens(out@), lex(b@, i as int, word@, at_start)),
        decreases b.len() - i,
    {
        let c: u8 = b[i];
        let ghost i0 = i as int;
        let ghost out0 = tokens(out@);
        let ghost word0 = word@;
        let ghost rest0 = lex(b@, i0, word0, at_start);
        if is_space(c) {
            flush(&mut out, word);
            word = Vec::new();
            at_start = true;
            i += 1;
            assert(prepend(out0, rest0) == prepend(tokens(out@), lex(b@, i0 + 1, Seq::empty(), true))) by {
                lemma_prepend(out0, flushed(word0), lex(b@, i0 + 1, Seq::empty(), true));
            }
        } else if c == 39 {
            let j: usize = find_byte(b, i + 1, 39);
            push_marked(&mut word, slice_subrange(b, i + 1, j), Quote::Single);
            i = if j < b.len() {
                j + 1
            } else {
                j
            };
            at_start = false;
        } else if c == 34 {
            let j: usize = push_double_quoted(b, i + 1, &mut word);
            i = if j < b.len() {
                j + 1
            } else {
                j
            };
            at_start = false;
        } else if c == 92 {
            if i + 1 < b.len() {
                word.push(Ch { b: b[i + 1], q: Quote::Esc });
                i += 2;
            } else {
                i += 1;
            }
            at_start = false;
        } else {
            match operator(b, i, &word) {
                Some((op, n)) => {
                    if c == 62 && word.len() == 1 && word[0].b == 50 && word[0].q == Quote::Plain {
                        word = Vec::new();
                    }
                    let ghost kept = word@;
                    flush(&mut out, word);
                    word = Vec::new();
                    let ghost mid = tokens(out@);
                    out.push(Piece::Op(op));
                    assert(tokens(out@) =~= mid.push(Token::Op(op)));
                    at_start = true;
                    i += n;
                    assert(prepend(out0, rest0) == prepend(
                        tokens(out@),
                        lex(b@, i as int, Seq::empty(), true),
                    )) by {
                        lemma_prepend(
                            out0,
                            flushed(kept).push(Token::Op(op)),
                            lex(b@, i as int, Seq::empty(), true),
                        );
                        assert(tokens(out@) =~= out0 + flushed(kept).push(Token::Op(op)));
                    }
                },
                None => {
                    if c == 124 {
                        return Err(ParseError::PipeUnsupported);
                    }
                    word.push(Ch { b: c, q: Quote::Plain });
                    at_start = false;
                    i += 1;
                },
            }
        }
    }
    flush(&mut out, word);
    Ok(out)
}

proof fn lemma_prepend(a: Seq<Token>, b: Seq<Token>, r: Option<Seq<Token>>)
    ensures
        prepend(a, prepend(b, r)) == prepend(a + b, r),
{
    if r is Some {
        assert(a + (b + r->0) =~= (a + b) + r->0);
    }
}

// ── Variables ──

/// The variables of the shell, in the order in which they were first set.
pub struct Vars {
    entries: Vec<(Vec<u8>, Vec<u8>)>,
}

/// The index of the first entry for `name`, or the length.
pub open spec fn var_index(vars: Seq<(Seq<u8>, Seq<u8>)>, name: Seq<u8>) -> int
    decreases vars.len(),
{
    if vars.len() == 0 {
        0
    } else if vars[0].0 == name {
        0
    } else {
        1 + var_index(vars.skip(1), name)
    }
}

/// The value of a variable, if it is set.
pub open spec fn var_value(vars: Seq<(Seq<u8>, Seq<u8>)>, name: Seq<u8>) -> Option<Seq<u8>> {
    let i = var_index(vars, name);
    if i < vars.len() {
        Some(vars[i].1)
    } else {
        None
    }
}

/// The variables once `name` has been set to `value`: in its place if it is
/// there already, else at the end.
pub open spec fn vars_with(
    vars: Seq<(Seq<u8>, Seq<u8>)>,
    name: Seq<u8>,
    value: Seq<u8>,
) -> Seq<(Seq<u8>, Seq<u8>)> {
    let i = var_index(vars, name);
    if i < vars.len() {
        vars.update(i, (name, value))
    } else {
        vars.push((name, value))
    }
}

/// The variables once `name` has been taken out.
pub open spec fn vars_without(vars: Seq<(Seq<u8>, Seq<u8>)>, name: Seq<u8>) -> Seq<
    (Seq<u8>, Seq<u8>),
> {
    let i = var_index(vars, name);
    if i < vars.len() {
        vars.remove(i)
    } else {
        vars
    }
}

/// No name occurs twice.
pub open spec fn vars_distinct(vars: Seq<(Seq<u8>, Seq<u8>)>) -> bool {
    forall|i: int, j: int| 0 <= i < j < vars.len() ==> #[trigger] vars[i].0 != #[trigger] vars[j].0
}

proof fn lemma_var_index(vars: Seq<(Seq<u8>, Seq<u8>)>, name: Seq<u8>)
    ensures
        0 <= var_index(vars, name) <= vars.len(),
        var_index(vars, name) < vars.len() ==> vars[var_index(vars, name)].0 == name,
        forall|k: int| 0 <= k < var_index(vars, name) ==> #[trigger] vars[k].0 != name,
    decreases vars.len(),
{
    if vars.len() > 0 && vars[0].0 != name {
        lemma_var_index(vars.skip(1), name);
        assert forall|k: int| 0 <= k < var_index(vars, name) implies #[trigger] vars[k].0
            != name by {
            if k > 0 {
                assert(vars[k] == vars.skip(1)[k - 1]);
            }
        }
    }
}

proof fn lemma_var_index_unique(vars: Seq<(Seq<u8>, Seq<u8>)>, name: Seq<u8>, j: int)
    requires
        0 <= j <= vars.len(),
        j < vars.len() ==> vars[j].0 == name,
        forall|k: int| 0 <= k < j ==> #[trigger] vars[k].0 != name,
    ensures
        var_index(vars, name) == j,
{
    lemma_var_index(vars, name);
    let i = var_index(vars, name);
    if i < j {
        assert(vars[i].0 != name);
    } else if j < i {
        assert(vars[j].0 != name);
    }
}

/// A variable that has been set has that value; every other variable keeps
/// its own.
pub proof fn law_vars_set_get(
    vars: Seq<(Seq<u8>, Seq<u8>)>,
    name: Seq<u8>,
    value: Seq<u8>,
    other: Seq<u8>,
)
    ensures
        var_value(vars_with(vars, name, value), other) == (if other == name {
            Some(value)
        } else {
            var_value(vars, other)
        }),
{
    lemma_var_index(vars, name);
    lemma_var_index(vars, other);
    let i = var_index(vars, name);
    let k = var_index(vars, other);
    let w = vars_with(vars, name, value);
    if other == name {
        assert forall|x: int| 0 <= x < i implies #[trigger] w[x].0 != name by {
            assert(w[x] == vars[x]);
        }
        lemma_var_index_unique(w, name, i);
    } else {
        let m = if k < vars.len() {
            k
        } else {
            w.len() as int
        };
        assert forall|x: int| 0 <= x < m implies #[trigger] w[x].0 != other by {
            if x < vars.len() && x != i {
                assert(w[x] == vars[x]);
            }
        }
        lemma_var_index_unique(w, other, m);
    }
}

/// A variable that has been taken out is not set; every other variable keeps
/// its value.
pub proof fn law_vars_unset_get(vars: Seq<(Seq<u8>, Seq<u8>)>, name: Seq<u8>, other: Seq<u8>)
    requires
        vars_distinct(vars),
    ensures
        var_value(vars_without(vars, name), other) == (if other == name {
            None
        } else {
            var_value(vars, other)
        }),
{
    lemma_var_index(vars, name);
    lemma_var_index(vars, other);
    let i = var_index(vars, name);
    let k = var_index(vars, other);
    let w = vars_without(vars, name);
    if i < vars.len() {
        let m = if other == name || k >= vars.len() {
            w.len() as int
        } else if k < i {
            k
        } else {
            k - 1
        };
        assert forall|x: int| 0 <= x < m implies #[trigger] w[x].0 != other by {
            if x < i {
                assert(w[x] == vars[x]);
            } else {
                assert(w[x] == vars[x + 1]);
            }
        }
        lemma_var_index_unique(w, other, m);
    }
}

/// Setting a variable, or taking one out, lets no name occur twice.
pub proof fn lemma_distinct_with(
    vars: Seq<(Seq<u8>, Seq<u8>)>,
    name: Seq<u8>,
    value: Option<Seq<u8>>,
)
    requires
        vars_distinct(vars),
    ensures
        match value {
            Some(v) => vars_distinct(vars_with(vars, name, v)),
            None => vars_distinct(vars_without(vars, name)),
        },
{
    lemma_var_index(vars, name);
}

impl Vars {
    pub closed spec fn view(&self) -> Seq<(Seq<u8>, Seq<u8>)> {
        Seq::new(self.entries@.len(), |i: int| (self.entries@[i].0@, self.entries@[i].1@))
    }

    /// No name occurs twice.
    pub open spec fn wf(&self) -> bool {
        vars_distinct(self@)
    }

    pub fn new() -> (r: Vars)
        ensures
            r@ == Seq::<(Seq<u8>, Seq<u8>)>::empty(),
            r.wf(),
    {
        let r = Vars { entries: Vec::new() };
        assert(r@ =~= Seq::empty());
        r
    }

    fn index_of(&self, name: &[u8]) -> (r: usize)
        ensures
            r == var_index(self@, name@),
            r <= self@.len(),
            self@.len() == self.entries@.len(),
    {
        let mut i: usize = 0;
        while i < self.entries.len() && !bytes_eq(&self.entries[i].0, name)
            invariant
                i <= self.entries@.len(),
                forall|k: int| 0 <= k < i ==> #[trigger] self@[k].0 != name@,
            decreases self.entries@.len() - i,
        {
            assert(self@[i as int].0 == self.entries@[i as int].0@);
            i += 1;
        }
        proof {
            if i < self@.len() {
                assert(self@[i as int].0 == self.entries@[i as int].0@);
            }
            lemma_var_index_unique(self@, name@, i as int);
        }
        i
    }

    /// Sets a variable.
    pub fn vars_set(&mut self, name: &[u8], val: &[u8])
        ensures
            final(self)@ == vars_with(old(self)@, name@, val@),
            old(self).wf() ==> final(self).wf(),
    {
        let i: usize = self.index_of(name);
        let entry = (copy_of(name), copy_of(val));
        proof {
            lemma_var_index(self@, name@);
        }
        if i < self.entries.len() {
            self.entries.set(i, entry);
        } else {
            self.entries.push(entry);
        }
        assert(self@ =~= vars_with(old(self)@, name@, val@));
    }

    /// Takes a variable out.
    pub fn vars_unset(&mut self, name: &[u8])
        ensures
            final(self)@ == vars_without(old(self)@, name@),
            old(self).wf() ==> final(self).wf(),
    {
        let i: usize = self.index_of(name);
        if i < self.entries.len() {
            self.entries.remove(i);
        }
        assert(self@ =~= vars_without(old(self)@, name@));
    }

    /// The value of a variable.
    pub fn vars_get(&self, name: &[u8]) -> (r: Option<Vec<u8>>)
        ensures
            match r {
                Some(v) => var_value(self@, name@) == Some(v@),
                None => var_value(self@, name@) is None,
            },
    {
        let i: usize = self.index_of(name);
        if i < self.entries.len() {
            Some(copy_of(&self.entries[i].1))
        } else {
            None
        }
    }

    /// All variables, in the order in which they were first set.
    pub fn vars_list(&self) -> (r: Vec<(Vec<u8>, Vec<u8>)>)
        ensures
            r@.len() == self@.len(),
            forall|i: int| 0 <= i < r@.len() ==> (#[trigger] r@[i]).0@ == self@[i].0 && r@[i].1@
                == self@[i].1,
    {
        let mut r: Vec<(Vec<u8>, Vec<u8>)> = Vec::new();
        let mut i: usize = 0;
        while i < self.entries.len()
            invariant
                i <= self.entries@.len(),
                r@.len() == i,
                forall|k: int| 0 <= k < i ==> (#[trigger] r@[k]).0@ == self@[k].0 && r@[k].1@
                    == self@[k].1,
            decreases self.entries@.len() - i,
        {
            r.push((copy_of(&self.entries[i].0), copy_of(&self.entries[i].1)));
            i += 1;
        }
        r
    }
}

/// A variable name: a letter or `_`, then letters, digits and `_`.
pub open spec fn name_ok(s: Seq<u8>) -> bool {
    s.len() > 0 && bytes::name_start_byte(s[0]) && forall|i: int|
        0 < i < s.len() ==> bytes::name_byte(#[trigger] s[i])
}

pub fn valid_name(s: &[u8]) -> (r: bool)
    ensures
        r == name_ok(s@),
{
    if s.len() == 0 || !is_name_start(s[0]) {
        return false;
    }
    let mut i: usize = 1;
    while i < s.len()
        invariant
            1 <= i <= s.len(),
            forall|k: int| 0 < k < i ==> bytes::name_byte(#[trigger] s@[k]),
        decreases s.len() - i,
    {
        if !is_name_byte(s[i]) {
            return false;
        }
        i += 1;
    }
    true
}

// ── Expansion ──

/// The bytes of a word, without their quoting.
pub open spec fn plain_bytes(w: Seq<Ch>) -> Seq<u8> {
    Seq::new(w.len(), |i: int| w[i].b)
}

fn ch_bytes(w: &[Ch]) -> (r: Vec<u8>)
    ensures
        r@ == plain_bytes(w@),
{
    let mut r: Vec<u8> = Vec::new();
    let mut i: usize = 0;
    while i < w.len()
        invariant
            i <= w.len(),
            r@ == plain_bytes(w@).take(i as int),
        decreases w.len() - i,
    {
        r.push(w[i].b);
        i += 1;
        assert(r@ =~= plain_bytes(w@).take(i as int));
    }
    assert(r@ =~= plain_bytes(w@));
    r
}

/// The text of a word once its quoting has been dropped.
pub fn word_string(w: &[Ch]) -> (r: Vec<u8>)
    ensures
        r@ == bytes::text_of(plain_bytes(w@)),
{
    text_or_empty(ch_bytes(w))
}

/// The index of the first plain `=` from `j` on, or the length.
pub open spec fn assign_index(w: Seq<Ch>, j: int) -> int
    decreases w.len() - j,
{
    if j >= w.len() || w[j] == (Ch { b: 61, q: Quote::Plain }) {
        j
    } else {
        assign_index(w, j + 1)
    }
}

/// `NAME=value` with an unquoted `=`: the name and the raw value.
pub open spec fn assignment(w: Seq<Ch>) -> Option<(Seq<u8>, Seq<Ch>)> {
    let j = assign_index(w, 0);
    if j < w.len() && name_ok(plain_bytes(w.take(j))) {
        Some((plain_bytes(w.take(j)), w.skip(j + 1)))
    } else {
        None
    }
}

/// Recognises `NAME=value`.
pub fn split_assign(w: &[Ch]) -> (r: Option<(Vec<u8>, Vec<Ch>)>)
    ensures
        match r {
            Some((n, v)) => assignment(w@) == Some((n@, v@)),
            None => assignment(w@) is None,
        },
{
    let mut j: usize = 0;
    while j < w.len() && !(w[j].b == 61 && w[j].q == Quote::Plain)
        invariant
            j <= w.len(),
            assign_index(w@, 0) == assign_index(w@, j as int),
        decreases w.len() - j,
    {
        j += 1;
    }
    if j >= w.len() {
        return None;
    }
    let name: Vec<u8> = ch_bytes(slice_subrange(w, 0, j));
    assert(w@.subrange(0, j as int) =~= w@.take(j as int));
    if !valid_name(&name) {
        return None;
    }
    let val: Vec<Ch> = vstd::slice::slice_to_vec(slice_subrange(w, j + 1, w.len()));
    assert(val@ =~= w@.skip(j + 1));
    Some((name, val))
}

/// What `$` expansions read: the variables, the last status and the process
/// id.
pub struct Scope {
    pub vars: Seq<(Seq<u8>, Seq<u8>)>,
    pub status: i64,
    pub pid: u64,
}

pub open spec fn value_or_empty(scope: Scope, name: Seq<u8>) -> Seq<u8> {
    match var_value(scope.vars, name) {
        Some(v) => v,
        None => Seq::empty(),
    }
}

/// The first index from `j` on that holds `}`, or the length.
pub open spec fn brace_index(w: Seq<Ch>, j: int) -> int
    decreases w.len() - j,
{
    if j >= w.len() || w[j].b == 125 {
        j
    } else {
        brace_index(w, j + 1)
    }
}

/// The first index from `j` on that cannot continue a name, or the length.
pub open spec fn name_end(w: Seq<Ch>, j: int) -> int
    decreases w.len() - j,
{
    if j >= w.len() || !bytes::name_byte(w[j].b) {
        j
    } else {
        name_end(w, j + 1)
    }
}

pub proof fn lemma_brace_index(w: Seq<Ch>, j: int)
    requires
        0 <= j <= w.len(),
    ensures
        j <= brace_index(w, j) <= w.len(),
    decreases w.len() - j,
{
    if j < w.len() && w[j].b != 125 {
        lemma_brace_index(w, j + 1);
    }
}

pub proof fn lemma_name_end(w: Seq<Ch>, j: int)
    requires
        0 <= j <= w.len(),
    ensures
        j <= name_end(w, j) <= w.len(),
    decreases w.len() - j,
{
    if j < w.len() && bytes::name_byte(w[j].b) {
        lemma_name_end(w, j + 1);
    }
}

/// What a `$` at `k` stands for, and the index behind it; `None` is a bad
/// substitution. A `$` that starts nothing stands for itself.
pub open spec fn dollar_at(w: Seq<Ch>, k: int, scope: Scope) -> Option<(Seq<Ch>, int)> {
    let q = if w[k].q == Quote::Double {
        Quote::ExpQ
    } else {
        Quote::Exp
    };
    if k + 1 >= w.len() {
        Some((seq![w[k]], k + 1))
    } else if w[k + 1].b == 123 {
        let j = brace_index(w, k + 2);
        let name = plain_bytes(w.subrange(k + 2, j));
        if j < w.len() && name_ok(name) {
            Some((marked(value_or_empty(scope, name), q), j + 1))
        } else {
            None
        }
    } else if w[k + 1].b == 63 {
        Some((marked(bytes::decimal(scope.status as u64 as nat), q), k + 2))
    } else if w[k + 1].b == 36 {
        Some((marked(bytes::decimal(scope.pid as nat), q), k + 2))
    } else if bytes::name_start_byte(w[k + 1].b) {
        let j = name_end(w, k + 2);
        Some((marked(value_or_empty(scope, plain_bytes(w.subrange(k + 1, j))), q), j))
    } else {
        Some((seq![w[k]], k + 1))
    }
}

/// A `$` that may start an expansion: typed directly or inside `"..."`.
pub open spec fn live_dollar(c: Ch) -> bool {
    c.b == 36 && (c.q == Quote::Plain || c.q == Quote::Double)
}

/// The rest of a word from `k` on with its variables expanded.
pub open spec fn expanded_from(w: Seq<Ch>, k: int, scope: Scope) -> Option<Seq<Ch>>
    decreases w.len() - k,
    when 0 <= k
{
    if k >= w.len() {
        Some(Seq::empty())
    } else if !live_dollar(w[k]) {
        match expanded_from(w, k + 1, scope) {
            Some(r) => Some(seq![w[k]] + r),
            None => None,
        }
    } else {
        match dollar_at(w, k, scope) {
            Some((v, j)) => {
                proof {
                    if k + 2 <= w.len() {
                        lemma_brace_index(w, k + 2);
                        lemma_name_end(w, k + 2);
                    }
                }
                match expanded_from(w, j, scope) {
                    Some(r) => Some(v + r),
                    None => None,
                }
            },
            None => None,
        }
    }
}

/// A word starts with an unquoted `~` that stands alone or before a `/`.
pub open spec fn home_tilde(w: Seq<Ch>) -> bool {
    w.len() > 0 && w[0] == (Ch { b: 126, q: Quote::Plain }) && (w.len() == 1 || w[1].b == 47)
}

/// A word with the `~` or `~/` at its start and its variables expanded; `None`
/// is a bad substitution.
pub open spec fn expanded(w: Seq<Ch>, scope: Scope) -> Option<Seq<Ch>> {
    if home_tilde(w) {
        match expanded_from(w, 1, scope) {
            Some(r) => Some(seq![Ch { b: 47, q: Quote::Plain }] + r),
            None => None,
        }
    } else {
        expanded_from(w, 0, scope)
    }
}

/// White space from an unquoted expansion separates words.
pub open spec fn splits_at(c: Ch) -> bool {
    bytes::space_byte(c.b) && c.q == Quote::Exp
}

/// The fields of a word; empty fields are dropped.
pub open spec fn fields(v: Seq<Ch>, cur: Seq<Ch>) -> Seq<Seq<Ch>>
    decreases v.len(),
{
    if v.len() == 0 {
        if cur.len() == 0 {
            Seq::empty()
        } else {
            seq![cur]
        }
    } else if splits_at(v[0]) {
        if cur.len() == 0 {
            fields(v.skip(1), Seq::empty())
        } else {
            seq![cur] + fields(v.skip(1), Seq::empty())
        }
    } else {
        fields(v.skip(1), cur.push(v[0]))
    }
}

/// The words that a word expands to.
pub open spec fn expansion(w: Seq<Ch>, scope: Scope, split: bool) -> Option<Seq<Seq<Ch>>> {
    match expanded(w, scope) {
        Some(v) => Some(
            if split {
                fields(v, Seq::empty())
            } else {
                seq![v]
            },
        ),
        None => None,
    }
}

fn split_fields(v: &Vec<Ch>) -> (r: Vec<Vec<Ch>>)
    ensures
        bytes::views(r@) == fields(v@, Seq::empty()),
{
    let mut words: Vec<Vec<Ch>> = Vec::new();
    let mut cur: Vec<Ch> = Vec::new();
    let mut i: usize = 0;
    assert(bytes::views(words@) + fields(v@, Seq::empty()) =~= fields(v@, Seq::empty()));
    assert(v@.skip(0) =~= v@);
    while i < v.len()
        invariant
            i <= v.len(),
            fields(v@, Seq::empty()) == bytes::views(words@) + fields(v@.skip(i as int), cur@),
        decreases v.len() - i,
    {
        let ghost words0 = bytes::views(words@);
        let ghost cur0 = cur@;
        assert(v@.skip(i as int).skip(1) =~= v@.skip(i + 1));
        assert(v@.skip(i as int)[0] == v@[i as int]);
        let c: Ch = v[i];
        if is_space(c.b) && c.q == Quote::Exp {
            if cur.len() > 0 {
                proof {
                    bytes::lemma_views_push(words@, cur);
                }
                words.push(cur);
                cur = Vec::new();
            }
            assert(cur@ =~= Seq::<Ch>::empty());
            assert(words0 + fields(v@.skip(i as int), cur0) =~= bytes::views(words@) + fields(
                v@.skip(i + 1),
                cur@,
            ));
        } else {
            cur.push(c);
        }
        i += 1;
    }
    assert(v@.skip(i as int).len() == 0);
    let ghost words0 = bytes::views(words@);
    let ghost cur0 = cur@;
    if cur.len() > 0 {
        proof {
            bytes::lemma_views_push(words@, cur);
        }
        words.push(cur);
    }
    assert(bytes::views(words@) =~= words0 + fields(v@.skip(i as int), cur0));
    words
}

/// What a `$` at `k` stands for is appended to `v`; returns the index behind
/// it.
fn push_dollar(
    w: &[Ch],
    k: usize,
    vars: &Vars,
    status: i64,
    pid: u64,
    v: &mut Vec<Ch>,
) -> (r: Result<usize, ParseError>)
    requires
        k < w.len(),
    ensures
        match r {
            Ok(j) => {
                &&& dollar_at(w@, k as int, Scope { vars: vars@, status, pid }) matches Some((x, e))
                &&& e == j
                &&& final(v)@ == old(v)@ + x
                &&& k < j <= w.len()
            },
            Err(e) => dollar_at(w@, k as int, Scope { vars: vars@, status, pid }) is None && e
                == ParseError::BadSubst,
        },
{
    let c: Ch = w[k];
    let q = if c.q == Quote::Double {
        Quote::ExpQ
    } else {
        Quote::Exp
    };
    if k + 1 >= w.len() {
        v.push(c);
        assert(v@ =~= old(v)@ + seq![c]);
        return Ok(k + 1);
    }
    let n: u8 = w[k + 1].b;
    if n == 123 {
        let mut j: usize = k + 2;
        while j < w.len() && w[j].b != 125
            invariant
                k + 2 <= j <= w.len(),
                brace_index(w@, k + 2) == brace_index(w@, j as int),
            decreases w.len() - j,
        {
            j += 1;
        }
        if j >= w.len() {
            return Err(ParseError::BadSubst);
        }
        let name: Vec<u8> = ch_bytes(slice_subrange(w, k + 2, j));
        if !valid_name(&name) {
            return Err(ParseError::BadSubst);
        }
        if let Some(val) = vars.vars_get(&name) {
            push_marked(v, &val, q);
        } else {
            assert(v@ =~= old(v)@ + marked(Seq::empty(), q));
        }
        return Ok(j + 1);
    }
    if n == 63 {
        let d: Vec<u8> = fmt_u64(status as u64);
        push_marked(v, &d, q);
        return Ok(k + 2);
    }
    if n == 36 {
        let d: Vec<u8> = fmt_u64(pid);
        push_marked(v, &d, q);
        return Ok(k + 2);
    }
    if is_name_start(n) {
        let mut j: usize = k + 2;
        while j < w.len() && is_name_byte(w[j].b)
            invariant
                k + 2 <= j <= w.len(),
                name_end(w@, k + 2) == name_end(w@, j as int),
            decreases w.len() - j,
        {
            j += 1;
        }
        let name: Vec<u8> = ch_bytes(slice_subrange(w, k + 1, j));
        if let Some(val) = vars.vars_get(&name) {
            push_marked(v, &val, q);
        } else {
            assert(v@ =~= old(v)@ + marked(Seq::empty(), q));
        }
        return Ok(j);
    }
    v.push(c);
    assert(v@ =~= old(v)@ + seq![c]);
    Ok(k + 1)
}

/// Expands a word: `~` or `~/` at its start, `$V`, `${V}`, `$?` and `$$`; a variable
/// that is not set is empty. With `split`, what comes from an expansion outside
/// quotes is split at white space.
pub fn expand_word(w: &[Ch], vars: &Vars, status: i64, pid: u64, split: bool) -> (r: Result<
    Vec<Vec<Ch>>,
    ParseError,
>)
    ensures
        match r {
            Ok(v) => expansion(w@, Scope { vars: vars@, status, pid }, split) == Some(
                bytes::views(v@),
            ),
            Err(e) => expansion(w@, Scope { vars: vars@, status, pid }, split) is None && e
                == ParseError::BadSubst,
        },
{
    let ghost scope = Scope { vars: vars@, status, pid };
    let mut v: Vec<Ch> = Vec::new();
    let mut k: usize = 0;
    if w.len() > 0 && w[0].b == 126 && w[0].q == Quote::Plain && (w.len() == 1 || w[1].b == 47) {
        v.push(Ch { b: 47, q: Quote::Plain });
        k = 1;
    }
    proof {
        if let Some(r) = expanded_from(w@, k as int, scope) {
            assert(v@ + r =~= expanded(w@, scope)->0);
        }
    }
    while k < w.len()
        invariant
            k <= w.len(),
            scope == (Scope { vars: vars@, status, pid }),
            expanded(w@, scope) == (match expanded_from(w@, k as int, scope) {
                Some(r) => Some(v@ + r),
                None => None,
            }),
        decreases w.len() - k,
    {
        let ghost v0 = v@;
        let ghost k0 = k as int;
        let c: Ch = w[k];
        if !(c.b == 36 && (c.q == Quote::Plain || c.q == Quote::Double)) {
            v.push(c);
            k += 1;
            proof {
                if let Some(r) = expanded_from(w@, k as int, scope) {
                    assert(v0 + (seq![c] + r) =~= v@ + r);
                }
            }
        } else {
            match push_dollar(w, k, vars, status, pid, &mut v) {
                Ok(j) => {
                    proof {
                        let (x, _e) = dollar_at(w@, k0, scope)->0;
                        if let Some(r) = expanded_from(w@, j as int, scope) {
                            assert(v0 + (x + r) =~= v@ + r);
                        }
                    }
                    k = j;
                },
                Err(e) => {
                    return Err(e);
                },
            }
        }
    }
    assert(v@ + Seq::<Ch>::empty() =~= v@);
    if !split {
        let mut one: Vec<Vec<Ch>> = Vec::new();
        one.push(v);
        assert(bytes::views(one@) =~= seq![v@]);
        return Ok(one);
    }
    Ok(split_fields(&v))
}

// ── Commands ──

/// A redirection: stream 0, 1 or 2, and its target. `2>&1` has no target.
pub struct Redir {
    pub slot: u8,
    pub append: bool,
    pub dup_to_1: bool,
    pub target: Vec<u8>,
}

/// A redirection as a value.
#[verifier::ext_equal]
pub struct RedirView {
    pub slot: u8,
    pub append: bool,
    pub dup_to_1: bool,
    pub target: Seq<u8>,
}

impl View for Redir {
    type V = RedirView;

    open spec fn view(&self) -> RedirView {
        RedirView {
            slot: self.slot,
            append: self.append,
            dup_to_1: self.dup_to_1,
            target: self.target@,
        }
    }
}

pub open spec fn redir_views(v: Seq<Redir>) -> Seq<RedirView> {
    Seq::new(v.len(), |i: int| v[i]@)
}

/// A redirection whose target is not expanded yet.
pub struct RawRedir {
    pub slot: u8,
    pub append: bool,
    pub dup_to_1: bool,
    pub target: Vec<Ch>,
}

/// A redirection whose target is not expanded yet, as a value.
#[verifier::ext_equal]
pub struct RawRedirView {
    pub slot: u8,
    pub append: bool,
    pub dup_to_1: bool,
    pub target: Seq<Ch>,
}

impl View for RawRedir {
    type V = RawRedirView;

    open spec fn view(&self) -> RawRedirView {
        RawRedirView {
            slot: self.slot,
            append: self.append,
            dup_to_1: self.dup_to_1,
            target: self.target@,
        }
    }
}

pub open spec fn raw_views(v: Seq<RawRedir>) -> Seq<RawRedirView> {
    Seq::new(v.len(), |i: int| v[i]@)
}

/// A command with its words expanded; file name patterns still stand in
/// `args`.
pub struct Command {
    pub args: Vec<Vec<Ch>>,
    pub redirs: Vec<Redir>,
    pub bg: bool,
    /// `NAME=value` as the whole command.
    pub assign: Option<(Vec<u8>, Vec<u8>)>,
}

/// A command as a value.
#[verifier::ext_equal]
pub struct CommandView {
    pub args: Seq<Seq<Ch>>,
    pub redirs: Seq<RedirView>,
    pub bg: bool,
    pub assign: Option<(Seq<u8>, Seq<u8>)>,
}

impl View for Command {
    type V = CommandView;

    open spec fn view(&self) -> CommandView {
        CommandView {
            args: bytes::views(self.args@),
            redirs: redir_views(self.redirs@),
            bg: self.bg,
            assign: match self.assign {
                Some((n, v)) => Some((n@, v@)),
                None => None,
            },
        }
    }
}

/// The commands of a line and the connectors between them.
pub struct CommandList {
    pub cmds: Vec<Command>,
    pub cons: Vec<Conn>,
}

/// The commands of a line as a value.
#[verifier::ext_equal]
pub struct ListView {
    pub cmds: Seq<CommandView>,
    pub cons: Seq<Conn>,
}

pub open spec fn command_views(v: Seq<Command>) -> Seq<CommandView> {
    Seq::new(v.len(), |i: int| v[i]@)
}

impl View for CommandList {
    type V = ListView;

    open spec fn view(&self) -> ListView {
        ListView { cmds: command_views(self.cmds@), cons: self.cons@ }
    }
}

/// The words that a list of words expands to, in order; `None` if one of them
/// is a bad substitution.
pub open spec fn all_args(words: Seq<Seq<Ch>>, scope: Scope) -> Option<Seq<Seq<Ch>>>
    decreases words.len(),
{
    if words.len() == 0 {
        Some(Seq::empty())
    } else {
        match (all_args(words.drop_last(), scope), expansion(words.last(), scope, true)) {
            (Some(a), Some(b)) => Some(a + b),
            _ => None,
        }
    }
}

pub open spec fn redir_of(r: RawRedirView, scope: Scope) -> Option<RedirView> {
    match expanded(r.target, scope) {
        Some(t) => Some(
            RedirView {
                slot: r.slot,
                append: r.append,
                dup_to_1: r.dup_to_1,
                target: bytes::text_of(plain_bytes(t)),
            },
        ),
        None => None,
    }
}

pub open spec fn all_redirs(redirs: Seq<RawRedirView>, scope: Scope) -> Option<Seq<RedirView>>
    decreases redirs.len(),
{
    if redirs.len() == 0 {
        Some(Seq::empty())
    } else {
        match (all_redirs(redirs.drop_last(), scope), redir_of(redirs.last(), scope)) {
            (Some(a), Some(b)) => Some(a.push(b)),
            _ => None,
        }
    }
}

/// Words and redirections as a command; `None` if nothing is left of them. A
/// single word `NAME=value` is an assignment; one in front of other words is
/// an error.
pub open spec fn finished(
    words: Seq<Seq<Ch>>,
    redirs: Seq<RawRedirView>,
    bg: bool,
    scope: Scope,
) -> Result<Option<CommandView>, ParseError> {
    if words.len() > 1 && assignment(words[0]) is Some {
        Err(ParseError::EnvPrefix)
    } else {
        let sole = if words.len() == 1 {
            assignment(words[0])
        } else {
            None
        };
        let value = match sole {
            Some((n, v)) => match expanded(v, scope) {
                Some(x) => Some(Some((n, bytes::text_of(plain_bytes(x))))),
                None => None,
            },
            None => Some(None),
        };
        let args = if sole is Some {
            Some(Seq::empty())
        } else {
            all_args(words, scope)
        };
        match (value, args, all_redirs(redirs, scope)) {
            (Some(assign), Some(a), Some(r)) => if assign is None && a.len() == 0 && r.len() == 0 {
                Ok(None)
            } else {
                Ok(Some(CommandView { args: a, redirs: r, bg, assign }))
            },
            _ => Err(ParseError::BadSubst),
        }
    }
}

fn expand_all(words: &Vec<Vec<Ch>>, vars: &Vars, status: i64, pid: u64) -> (r: Result<
    Vec<Vec<Ch>>,
    ParseError,
>)
    ensures
        match r {
            Ok(v) => all_args(bytes::views(words@), Scope { vars: vars@, status, pid }) == Some(
                bytes::views(v@),
            ),
            Err(e) => all_args(bytes::views(words@), Scope { vars: vars@, status, pid }) is None
                && e == ParseError::BadSubst,
        },
{
    let ghost scope = Scope { vars: vars@, status, pid };
    let ghost ws = bytes::views(words@);
    let mut args: Vec<Vec<Ch>> = Vec::new();
    let mut i: usize = 0;
    assert(ws.take(0) =~= Seq::empty());
    assert(bytes::views(args@) =~= Seq::empty());
    while i < words.len()
        invariant
            i <= words.len(),
            ws == bytes::views(words@),
            scope == (Scope { vars: vars@, status, pid }),
            all_args(ws.take(i as int), scope) == Some(bytes::views(args@)),
        decreases words.len() - i,
    {
        assert(ws.take(i + 1).drop_last() =~= ws.take(i as int));
        assert(ws.take(i + 1).last() == words@[i as int]@);
        match expand_word(&words[i], vars, status, pid, true) {
            Ok(mut pieces) => {
                let ghost a0 = bytes::views(args@);
                let ghost p0 = bytes::views(pieces@);
                args.append(&mut pieces);
                assert(bytes::views(args@) =~= a0 + p0);
            },
            Err(e) => {
                proof {
                    lemma_all_args_none(ws, i + 1, scope);
                }
                return Err(e);
            },
        }
        i += 1;
    }
    assert(ws.take(i as int) =~= ws);
    Ok(args)
}

proof fn lemma_all_args_none(words: Seq<Seq<Ch>>, i: int, scope: Scope)
    requires
        0 <= i <= words.len(),
        all_args(words.take(i), scope) is None,
    ensures
        all_args(words, scope) is None,
    decreases words.len() - i,
{
    if i < words.len() {
        assert(words.take(i + 1).drop_last() =~= words.take(i));
        lemma_all_args_none(words, i + 1, scope);
    } else {
        assert(words.take(i) =~= words);
    }
}

fn expand_redirs(redirs: &Vec<RawRedir>, vars: &Vars, status: i64, pid: u64) -> (r: Result<
    Vec<Redir>,
    ParseError,
>)
    ensures
        match r {
            Ok(v) => all_redirs(raw_views(redirs@), Scope { vars: vars@, status, pid }) == Some(
                redir_views(v@),
            ),
            Err(e) => all_redirs(raw_views(redirs@), Scope { vars: vars@, status, pid }) is None
                && e == ParseError::BadSubst,
        },
{
    let ghost scope = Scope { vars: vars@, status, pid };
    let ghost rs = raw_views(redirs@);
    let mut out: Vec<Redir> = Vec::new();
    let mut i: usize = 0;
    assert(rs.take(0) =~= Seq::empty());
    assert(redir_views(out@) =~= Seq::empty());
    while i < redirs.len()
        invariant
            i <= redirs.len(),
            rs == raw_views(redirs@),
            scope == (Scope { vars: vars@, status, pid }),
            all_redirs(rs.take(i as int), scope) == Some(redir_views(out@)),
        decreases redirs.len() - i,
    {
        assert(rs.take(i + 1).drop_last() =~= rs.take(i as int));
        assert(rs.take(i + 1).last() == redirs@[i as int]@);
        match expand_word(&redirs[i].target, vars, status, pid, false) {
            Ok(t) => {
                assert(bytes::views(t@).len() == t@.len());
                assert(bytes::views(t@)[0] == t@[0]@);
                let ghost o0 = redir_views(out@);
                let red = Redir {
                    slot: redirs[i].slot,
                    append: redirs[i].append,
                    dup_to_1: redirs[i].dup_to_1,
                    target: word_string(&t[0]),
                };
                let ghost rv = red@;
                out.push(red);
                assert(redir_views(out@) =~= o0.push(rv));
            },
            Err(e) => {
                proof {
                    lemma_all_redirs_none(rs, i + 1, scope);
                }
                return Err(e);
            },
        }
        i += 1;
    }
    assert(rs.take(i as int) =~= rs);
    Ok(out)
}

proof fn lemma_all_redirs_none(redirs: Seq<RawRedirView>, i: int, scope: Scope)
    requires
        0 <= i <= redirs.len(),
        all_redirs(redirs.take(i), scope) is None,
    ensures
        all_redirs(redirs, scope) is None,
    decreases redirs.len() - i,
{
    if i < redirs.len() {
        assert(redirs.take(i + 1).drop_last() =~= redirs.take(i));
        lemma_all_redirs_none(redirs, i + 1, scope);
    } else {
        assert(redirs.take(i) =~= redirs);
    }
}

/// What a parsed command is as a value.
pub open spec fn opt_view(c: Option<Command>) -> Option<CommandView> {
    match c {
        Some(c) => Some(c@),
        None => None,
    }
}

/// Closes words and redirections into a command.
pub fn finish(
    words: &Vec<Vec<Ch>>,
    redirs: &Vec<RawRedir>,
    vars: &Vars,
    status: i64,
    pid: u64,
    bg: bool,
) -> (r: Result<Option<Command>, ParseError>)
    ensures
        match r {
            Ok(c) => finished(
                bytes::views(words@),
                raw_views(redirs@),
                bg,
                Scope { vars: vars@, status, pid },
            ) == Ok::<_, ParseError>(opt_view(c)),
            Err(e) => finished(
                bytes::views(words@),
                raw_views(redirs@),
                bg,
                Scope { vars: vars@, status, pid },
            ) == Err::<Option<CommandView>, _>(e),
        },
{
    let ghost ws = bytes::views(words@);
    let mut assign: Option<(Vec<u8>, Vec<u8>)> = None;
    let mut args: Vec<Vec<Ch>> = Vec::new();
    assert(bytes::views(args@) =~= Seq::empty());
    let mut sole: bool = false;
    if words.len() >= 1 {
        assert(ws[0] == words@[0]@);
        if let Some((name, val)) = split_assign(&words[0]) {
            if words.len() > 1 {
                return Err(ParseError::EnvPrefix);
            }
            sole = true;
            match expand_word(&val, vars, status, pid, false) {
                Ok(v) => {
                    assert(bytes::views(v@).len() == v@.len());
                    assert(bytes::views(v@)[0] == v@[0]@);
                    assign = Some((name, word_string(&v[0])));
                },
                Err(e) => {
                    return Err(e);
                },
            }
        }
    }
    if !sole {
        match expand_all(words, vars, status, pid) {
            Ok(a) => {
                args = a;
            },
            Err(e) => {
                return Err(e);
            },
        }
    }
    match expand_redirs(redirs, vars, status, pid) {
        Ok(rr) => {
            if args.len() == 0 && rr.len() == 0 && assign.is_none() {
                return Ok(None);
            }
            let cmd = Command { args, redirs: rr, bg, assign };
            Ok(Some(cmd))
        },
        Err(e) => Err(e),
    }
}

// ── Lines ──

/// The redirection that an operator stands for: stream and append mode.
pub open spec fn redir_kind(op: Op) -> Option<(u8, bool)> {
    match op {
        Op::Gt => Some((1u8, false)),
        Op::GtGt => Some((1u8, true)),
        Op::Lt => Some((0u8, false)),
        Op::E2Gt => Some((2u8, false)),
        Op::E2GtGt => Some((2u8, true)),
        _ => None,
    }
}

/// The connector that an operator stands for, and whether it puts the command
/// before it into the background.
pub open spec fn conn_kind(op: Op) -> (Conn, bool) {
    match op {
        Op::And => (Conn::And, false),
        Op::Or => (Conn::Or, false),
        Op::Bg => (Conn::Always, true),
        _ => (Conn::Always, false),
    }
}

/// Commands and connectors in front of those of the rest of a line.
pub open spec fn joined(
    cmds: Seq<CommandView>,
    cons: Seq<Conn>,
    rest: Result<ListView, ParseError>,
) -> Result<ListView, ParseError> {
    match rest {
        Ok(l) => Ok(ListView { cmds: cmds + l.cmds, cons: cons + l.cons }),
        Err(e) => Err(e),
    }
}

/// The connector in front of a command: none before the first one.
pub open spec fn gap(any: bool, pending: Option<Conn>) -> Seq<Conn> {
    if !any {
        Seq::empty()
    } else {
        seq![match pending {
            Some(c) => c,
            None => Conn::Always,
        }]
    }
}

/// The commands of the tokens from `i` on, where `words` and `redirs` belong to
/// the command being gathered, `any` says that a command came before, and
/// `pending` is the last connector since then. Of several connectors in a row
/// the last one counts.
pub open spec fn parsed(
    t: Seq<Token>,
    i: int,
    words: Seq<Seq<Ch>>,
    redirs: Seq<RawRedirView>,
    any: bool,
    pending: Option<Conn>,
    scope: Scope,
) -> Result<ListView, ParseError>
    decreases t.len() - i,
{
    if i >= t.len() {
        match finished(words, redirs, false, scope) {
            Ok(Some(c)) => Ok(ListView { cmds: seq![c], cons: gap(any, pending) }),
            Ok(None) => Ok(ListView { cmds: Seq::empty(), cons: Seq::empty() }),
            Err(e) => Err(e),
        }
    } else {
        match t[i] {
            Token::Word(w) => parsed(t, i + 1, words.push(w), redirs, any, pending, scope),
            Token::Op(op) => if op == Op::Dup21 {
                let r = RawRedirView {
                    slot: 2,
                    append: false,
                    dup_to_1: true,
                    target: Seq::empty(),
                };
                parsed(t, i + 1, words, redirs.push(r), any, pending, scope)
            } else if redir_kind(op) is Some {
                let (slot, append) = redir_kind(op)->0;
                if i + 1 < t.len() && t[i + 1] is Word {
                    let r = RawRedirView {
                        slot,
                        append,
                        dup_to_1: false,
                        target: t[i + 1]->Word_0,
                    };
                    parsed(t, i + 2, words, redirs.push(r), any, pending, scope)
                } else {
                    Err(ParseError::MissingTarget(op))
                }
            } else {
                let (conn, bg) = conn_kind(op);
                match finished(words, redirs, bg, scope) {
                    Ok(Some(c)) => joined(
                        seq![c],
                        gap(any, pending),
                        parsed(t, i + 1, Seq::empty(), Seq::empty(), true, Some(conn), scope),
                    ),
                    Ok(None) => parsed(
                        t,
                        i + 1,
                        Seq::empty(),
                        Seq::empty(),
                        any,
                        if any {
                            Some(conn)
                        } else {
                            pending
                        },
                        scope,
                    ),
                    Err(e) => Err(e),
                }
            },
        }
    }
}

/// What a line means: its commands and connectors, or the first error.
pub open spec fn line_meaning(line: Seq<u8>, scope: Scope) -> Result<ListView, ParseError> {
    match line_tokens(line) {
        Some(t) => parsed(t, 0, Seq::empty(), Seq::empty(), false, None, scope),
        None => Err(ParseError::PipeUnsupported),
    }
}

fn push_conn(cons: &mut Vec<Conn>, any: bool, pending: Option<Conn>)
    ensures
        final(cons)@ == old(cons)@ + gap(any, pending),
{
    if any {
        match pending {
            Some(c) => {
                cons.push(c);
            },
            None => {
                cons.push(Conn::Always);
            },
        }
    }
    assert(cons@ =~= old(cons)@ + gap(any, pending));
}

fn redir_slot(op: Op) -> (r: Option<(u8, bool)>)
    ensures
        r == redir_kind(op),
{
    match op {
        Op::Gt => Some((1, false)),
        Op::GtGt => Some((1, true)),
        Op::Lt => Some((0, false)),
        Op::E2Gt => Some((2, false)),
        Op::E2GtGt => Some((2, true)),
        _ => None,
    }
}

fn conn_of(op: Op) -> (r: (Conn, bool))
    ensures
        r == conn_kind(op),
{
    match op {
        Op::And => (Conn::And, false),
        Op::Or => (Conn::Or, false),
        Op::Bg => (Conn::Always, true),
        _ => (Conn::Always, false),
    }
}

fn copy_word(w: &Vec<Ch>) -> (r: Vec<Ch>)
    ensures
        r@ == w@,
{
    vstd::slice::slice_to_vec(w.as_slice())
}

/// The meaning of a line is known: the part gathered so far in front of the
/// meaning of the rest.
spec fn progress(
    t: Seq<Token>,
    i: int,
    words: Seq<Seq<Ch>>,
    redirs: Seq<RawRedirView>,
    cmds: Seq<CommandView>,
    cons: Seq<Conn>,
    pending: Option<Conn>,
    scope: Scope,
) -> bool {
    parsed(t, 0, Seq::empty(), Seq::empty(), false, None, scope) == joined(
        cmds,
        cons,
        parsed(t, i, words, redirs, cmds.len() > 0, pending, scope),
    )
}

proof fn lemma_joined(
    a: Seq<CommandView>,
    ac: Seq<Conn>,
    b: Seq<CommandView>,
    bc: Seq<Conn>,
    rest: Result<ListView, ParseError>,
)
    ensures
        joined(a, ac, joined(b, bc, rest)) == joined(a + b, ac + bc, rest),
{
    if let Ok(l) = rest {
        assert(a + (b + l.cmds) =~= (a + b) + l.cmds);
        assert(ac + (bc + l.cons) =~= (ac + bc) + l.cons);
    }
}

/// Parses a line into commands with connectors. `status` is the value of `$?`
/// and `pid` that of `$$`.
pub fn parse_line(line: &[u8], vars: &Vars, status: i64, pid: u64) -> (r: Result<
    CommandList,
    ParseError,
>)
    ensures
        match r {
            Ok(l) => line_meaning(line@, Scope { vars: vars@, status, pid }) == Ok::<
                _,
                ParseError,
            >(l@),
            Err(e) => line_meaning(line@, Scope { vars: vars@, status, pid }) == Err::<
                ListView,
                _,
            >(e),
        },
{
    let ghost scope = Scope { vars: vars@, status, pid };
    let pieces: Vec<Piece> = match tokenize(line) {
        Ok(p) => p,
        Err(e) => {
            return Err(e);
        },
    };
    let ghost t = tokens(pieces@);
    let mut cmds: Vec<Command> = Vec::new();
    let mut cons: Vec<Conn> = Vec::new();
    let mut pending: Option<Conn> = None;
    let mut words: Vec<Vec<Ch>> = Vec::new();
    let mut redirs: Vec<RawRedir> = Vec::new();
    let mut i: usize = 0;
    assert(bytes::views(words@) =~= Seq::empty());
    assert(raw_views(redirs@) =~= Seq::empty());
    assert(command_views(cmds@) =~= Seq::empty());
    proof {
        if let Ok(l) = parsed(t, 0, Seq::empty(), Seq::empty(), false, None, scope) {
            assert(Seq::<CommandView>::empty() + l.cmds =~= l.cmds);
            assert(Seq::<Conn>::empty() + l.cons =~= l.cons);
        }
    }
    while i < pieces.len()
        invariant
            i <= pieces.len(),
            t == tokens(pieces@),
            line_tokens(line@) == Some(t),
            scope == (Scope { vars: vars@, status, pid }),
            progress(
                t,
                i as int,
                bytes::views(words@),
                raw_views(redirs@),
                command_views(cmds@),
                cons@,
                pending,
                scope,
            ),
        decreases pieces.len() - i,
    {
        let ghost ws = bytes::views(words@);
        let ghost rs = raw_views(redirs@);
        let ghost cs = command_views(cmds@);
        assert(t[i as int] == pieces@[i as int]@);
        match &pieces[i] {
            Piece::Word(w) => {
                let w2: Vec<Ch> = copy_word(w);
                proof {
                    bytes::lemma_views_push(words@, w2);
                }
                words.push(w2);
                i += 1;
            },
            Piece::Op(op) => {
                let op: Op = *op;
                if op == Op::Dup21 {
                    redirs.push(
                        RawRedir { slot: 2, append: false, dup_to_1: true, target: Vec::new() },
                    );
                    assert(raw_views(redirs@) =~= rs.push(
                        RawRedirView {
                            slot: 2,
                            append: false,
                            dup_to_1: true,
                            target: Seq::empty(),
                        },
                    ));
                    i += 1;
                } else if let Some((slot, append)) = redir_slot(op) {
                    if i + 1 >= pieces.len() {
                        return Err(ParseError::MissingTarget(op));
                    }
                    assert(t[i + 1] == pieces@[i + 1]@);
                    match &pieces[i + 1] {
                        Piece::Word(w) => {
                            let target: Vec<Ch> = copy_word(w);
                            let ghost tv = target@;
                            redirs.push(RawRedir { slot, append, dup_to_1: false, target });
                            assert(raw_views(redirs@) =~= rs.push(
                                RawRedirView { slot, append, dup_to_1: false, target: tv },
                            ));
                        },
                        Piece::Op(_) => {
                            return Err(ParseError::MissingTarget(op));
                        },
                    }
                    i += 2;
                } else {
                    let (conn, bg): (Conn, bool) = conn_of(op);
                    let any: bool = cmds.len() > 0;
                    match finish(&words, &redirs, vars, status, pid, bg) {
                        Ok(Some(cmd)) => {
                            let ghost cv = cmd@;
                            let ghost cons0 = cons@;
                            let ghost pending0 = pending;
                            cmds.push(cmd);
                            assert(command_views(cmds@) =~= cs + seq![cv]);
                            push_conn(&mut cons, any, pending);
                            pending = Some(conn);
                            proof {
                                lemma_joined(
                                    cs,
                                    cons0,
                                    seq![cv],
                                    gap(any, pending0),
                                    parsed(
                                        t,
                                        i + 1,
                                        Seq::empty(),
                                        Seq::empty(),
                                        true,
                                        Some(conn),
                                        scope,
                                    ),
                                );
                            }
                        },
                        Ok(None) => {
                            if any {
                                pending = Some(conn);
                            }
                        },
                        Err(e) => {
                            return Err(e);
                        },
                    }
                    words = Vec::new();
                    redirs = Vec::new();
                    assert(bytes::views(words@) =~= Seq::empty());
                    assert(raw_views(redirs@) =~= Seq::empty());
                    i += 1;
                }
            },
        }
    }
    let any: bool = cmds.len() > 0;
    let ghost cs = command_views(cmds@);
    match finish(&words, &redirs, vars, status, pid, false) {
        Ok(Some(cmd)) => {
            let ghost cv = cmd@;
            cmds.push(cmd);
            assert(command_views(cmds@) =~= cs + seq![cv]);
            push_conn(&mut cons, any, pending);
        },
        Ok(None) => {
            assert(cs + Seq::<CommandView>::empty() =~= cs);
            assert(cons@ + Seq::<Conn>::empty() =~= cons@);
        },
        Err(e) => {
            return Err(e);
        },
    }
    Ok(CommandList { cmds, cons })
}

/// Between the commands of a line stands exactly one connector each.
pub proof fn law_one_connector_per_gap(line: Seq<u8>, scope: Scope)
    ensures
        line_meaning(line, scope) matches Ok(l) ==> l.cons.len() == (if l.cmds.len() == 0 {
            0
        } else {
            (l.cmds.len() - 1) as nat
        }),
{
    if let Some(t) = line_tokens(line) {
        lemma_parsed_cons(t, 0, Seq::empty(), Seq::empty(), false, None, scope);
    }
}

proof fn lemma_parsed_cons(
    t: Seq<Token>,
    i: int,
    words: Seq<Seq<Ch>>,
    redirs: Seq<RawRedirView>,
    any: bool,
    pending: Option<Conn>,
    scope: Scope,
)
    ensures
        parsed(t, i, words, redirs, any, pending, scope) matches Ok(l) ==> l.cons.len() == (if any
            || l.cmds.len() == 0 {
            l.cmds.len()
        } else {
            (l.cmds.len() - 1) as nat
        }),
    decreases t.len() - i,
{
    if i < t.len() {
        match t[i] {
            Token::Word(w) => {
                lemma_parsed_cons(t, i + 1, words.push(w), redirs, any, pending, scope);
            },
            Token::Op(op) => {
                if op == Op::Dup21 {
                    let r = RawRedirView {
                        slot: 2,
                        append: false,
                        dup_to_1: true,
                        target: Seq::empty(),
                    };
                    lemma_parsed_cons(t, i + 1, words, redirs.push(r), any, pending, scope);
                } else if redir_kind(op) is Some {
                    let (slot, append) = redir_kind(op)->0;
                    if i + 1 < t.len() && t[i + 1] is Word {
                        let r = RawRedirView {
                            slot,
                            append,
                            dup_to_1: false,
                            target: t[i + 1]->Word_0,
                        };
                        lemma_parsed_cons(t, i + 2, words, redirs.push(r), any, pending, scope);
                    }
                } else {
                    let (conn, bg) = conn_kind(op);
                    match finished(words, redirs, bg, scope) {
                        Ok(Some(c)) => {
                            lemma_parsed_cons(
                                t,
                                i + 1,
                                Seq::empty(),
                                Seq::empty(),
                                true,
                                Some(conn),
                                scope,
                            );
                        },
                        Ok(None) => {
                            lemma_parsed_cons(
                                t,
                                i + 1,
                                Seq::empty(),
                                Seq::empty(),
                                any,
                                if any {
                                    Some(conn)
                                } else {
                                    pending
                                },
                                scope,
                            );
                        },
                        Err(_) => {},
                    }
                }
            },
        }
    }
}

/// The bytes of a word that were all quoted with `'...'` or escaped.
pub open spec fn all_literal(w: Seq<Ch>) -> bool {
    forall|i: int|
        0 <= i < w.len() ==> (#[trigger] w[i]).q == Quote::Single || w[i].q == Quote::Esc
}

proof fn lemma_literal_from(w: Seq<Ch>, k: int, scope: Scope)
    requires
        all_literal(w),
        0 <= k <= w.len(),
    ensures
        expanded_from(w, k, scope) == Some(w.skip(k)),
    decreases w.len() - k,
{
    if k < w.len() {
        lemma_literal_from(w, k + 1, scope);
        assert(w[k].q == Quote::Single || w[k].q == Quote::Esc);
        assert(seq![w[k]] + w.skip(k + 1) =~= w.skip(k));
    } else {
        assert(w.skip(k) =~= Seq::empty());
    }
}

proof fn lemma_literal_fields(w: Seq<Ch>, cur: Seq<Ch>)
    requires
        all_literal(w),
        w.len() + cur.len() > 0,
    ensures
        fields(w, cur) == seq![cur + w],
    decreases w.len(),
{
    if w.len() > 0 {
        let rest = w.skip(1);
        assert(w[0].q == Quote::Single || w[0].q == Quote::Esc);
        assert forall|i: int| 0 <= i < rest.len() implies (#[trigger] rest[i]).q == Quote::Single
            || rest[i].q == Quote::Esc by {
            assert(rest[i] == w[i + 1]);
        }
        lemma_literal_fields(rest, cur.push(w[0]));
        assert(cur.push(w[0]) + rest =~= cur + w);
    } else {
        assert(cur + w =~= cur);
    }
}

/// A word that was quoted with `'...'` or escaped stands for itself: it is not
/// expanded and stays one word.
pub proof fn law_literal_stands_for_itself(w: Seq<Ch>, scope: Scope, split: bool)
    requires
        all_literal(w),
        w.len() > 0,
    ensures
        expansion(w, scope, split) == Some(seq![w]),
{
    assert(w[0].q == Quote::Single || w[0].q == Quote::Esc);
    lemma_literal_from(w, 0, scope);
    assert(w.skip(0) =~= w);
    lemma_literal_fields(w, Seq::empty());
    assert(Seq::<Ch>::empty() + w =~= w);
}

/// Whatever stands between single quotes is one literal word: operators,
/// white space, `$`, `#` and `\` mean nothing there.
pub proof fn law_single_quotes_keep_all(s: Seq<u8>)
    requires
        s.len() > 0,
        !s.contains(39u8),
    ensures
        line_tokens(seq![39u8] + s + seq![39u8]) == Some(
            seq![Token::Word(marked(s, Quote::Single))],
        ),
        all_literal(marked(s, Quote::Single)),
{
    let b = seq![39u8] + s + seq![39u8];
    let n = s.len() as int;
    let w = marked(s, Quote::Single);
    assert(b[n + 1] == 39);
    assert forall|k: int| 1 <= k < n + 1 implies b[k] != 39 by {
        assert(b[k] == s[k - 1]);
    }
    bytes::lemma_index_from_unique(b, 1, 39, n + 1);
    assert(b.subrange(1, n + 1) =~= s);
    assert(Seq::<Ch>::empty() + w =~= w);
    assert(lex(b, n + 2, w, false) == Some(flushed(w)));
    assert(lex(b, 0, Seq::empty(), true) == lex(b, n + 2, w, false));
}

} // verus!
