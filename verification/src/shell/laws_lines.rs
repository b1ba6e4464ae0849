//! What expansions, redirections and connectors of a command line come to.
use vstd::prelude::*;

use super::parser;
use super::parser::{
    Ch, CommandView, Conn, ListView, Op, ParseError, Quote, RawRedirView, RedirView, Scope, Token,
};
use crate::bytes;

verus! {

// ── Variables ──

/// No byte of a word starts an expansion.
pub open spec fn no_dollar(w: Seq<Ch>) -> bool {
    forall|i: int| 0 <= i < w.len() ==> !parser::live_dollar(#[trigger] w[i])
}

/// How the value of a variable is marked: inside `"..."` it stays one word.
pub open spec fn value_mark(q: Quote) -> Quote {
    if q == Quote::Double {
        Quote::ExpQ
    } else {
        Quote::Exp
    }
}

proof fn lemma_no_dollar_from(w: Seq<Ch>, k: int, scope: Scope)
    requires
        0 <= k <= w.len(),
        forall|i: int| k <= i < w.len() ==> !parser::live_dollar(#[trigger] w[i]),
    ensures
        parser::expanded_from(w, k, scope) == Some(w.skip(k)),
    decreases w.len() - k,
{
    if k < w.len() {
        lemma_no_dollar_from(w, k + 1, scope);
        assert(seq![w[k]] + w.skip(k + 1) =~= w.skip(k));
    } else {
        assert(w.skip(k) =~= Seq::empty());
    }
}

proof fn lemma_front_stays(w: Seq<Ch>, k: int, n: int, r: Seq<Ch>, scope: Scope)
    requires
        0 <= k <= n <= w.len(),
        forall|i: int| k <= i < n ==> !parser::live_dollar(#[trigger] w[i]),
        parser::expanded_from(w, n, scope) == Some(r),
    ensures
        parser::expanded_from(w, k, scope) == Some(w.subrange(k, n) + r),
    decreases n - k,
{
    if k < n {
        lemma_front_stays(w, k + 1, n, r, scope);
        assert(seq![w[k]] + (w.subrange(k + 1, n) + r) =~= w.subrange(k, n) + r);
    } else {
        assert(w.subrange(k, n) + r =~= r);
    }
}

proof fn lemma_name_end_at(w: Seq<Ch>, j: int, e: int)
    requires
        0 <= j <= e <= w.len(),
        forall|i: int| j <= i < e ==> bytes::name_byte((#[trigger] w[i]).b),
        e < w.len() ==> !bytes::name_byte(w[e].b),
    ensures
        parser::name_end(w, j) == e,
    decreases e - j,
{
    if j < e {
        assert(bytes::name_byte(w[j].b));
        lemma_name_end_at(w, j + 1, e);
    }
}

proof fn lemma_brace_at(w: Seq<Ch>, j: int, e: int)
    requires
        0 <= j <= e < w.len(),
        forall|i: int| j <= i < e ==> (#[trigger] w[i]).b != 125,
        w[e].b == 125,
    ensures
        parser::brace_index(w, j) == e,
    decreases e - j,
{
    if j < e {
        lemma_brace_at(w, j + 1, e);
    }
}

/// `$NAME` stands for the value of the variable, and for nothing where there is
/// none; what stands around it stays. The name goes as far as it can.
pub proof fn law_variable_stands_for_its_value(
    p: Seq<Ch>,
    name: Seq<u8>,
    q: Quote,
    s: Seq<Ch>,
    scope: Scope,
)
    requires
        no_dollar(p),
        no_dollar(s),
        parser::name_ok(name),
        q == Quote::Plain || q == Quote::Double,
        s.len() > 0 ==> !bytes::name_byte(s[0].b),
        !parser::home_tilde(p + parser::marked(seq![36u8] + name, q) + s),
    ensures
        parser::expanded(p + parser::marked(seq![36u8] + name, q) + s, scope) == Some(
            p + parser::marked(
                match parser::var_value(scope.vars, name) {
                    Some(v) => v,
                    None => Seq::empty(),
                },
                value_mark(q),
            ) + s,
        ),
{
    let m = parser::marked(seq![36u8] + name, q);
    let w = p + m + s;
    let k = p.len() as int;
    let e = k + 1 + name.len();
    let v = parser::marked(parser::value_or_empty(scope, name), value_mark(q));
    assert(w[k] == m[0]);
    assert(parser::live_dollar(w[k]));
    assert forall|i: int| k + 1 <= i < e implies (#[trigger] w[i]).b == name[i - k - 1] by {
        assert(w[i] == m[i - k]);
    }
    assert(w[k + 1].b == name[0]);
    assert(bytes::name_start_byte(name[0]));
    assert forall|i: int| k + 2 <= i < e implies bytes::name_byte((#[trigger] w[i]).b) by {
        assert(w[i].b == name[i - k - 1]);
    }
    if s.len() > 0 {
        assert(w[e] == s[0]);
    }
    lemma_name_end_at(w, k + 2, e);
    assert(parser::plain_bytes(w.subrange(k + 1, e)) =~= name);
    assert(w.skip(e) =~= s);
    assert forall|i: int| e <= i < w.len() implies !parser::live_dollar(#[trigger] w[i]) by {
        assert(w[i] == s[i - e]);
    }
    lemma_no_dollar_from(w, e, scope);
    assert(parser::expanded_from(w, k, scope) == Some(v + s));
    assert forall|i: int| 0 <= i < k implies !parser::live_dollar(#[trigger] w[i]) by {
        assert(w[i] == p[i]);
    }
    lemma_front_stays(w, 0, k, v + s, scope);
    assert(w.subrange(0, k) + (v + s) =~= p + v + s);
}

/// `${NAME}` is `$NAME`, whatever comes behind it.
pub proof fn law_braces_hold_a_name(
    p: Seq<Ch>,
    name: Seq<u8>,
    q: Quote,
    s: Seq<Ch>,
    scope: Scope,
)
    requires
        no_dollar(p),
        no_dollar(s),
        parser::name_ok(name),
        q == Quote::Plain || q == Quote::Double,
        !parser::home_tilde(p + parser::marked(seq![36u8, 123u8] + name + seq![125u8], q) + s),
    ensures
        parser::expanded(p + parser::marked(seq![36u8, 123u8] + name + seq![125u8], q) + s, scope)
            == Some(
            p + parser::marked(
                match parser::var_value(scope.vars, name) {
                    Some(v) => v,
                    None => Seq::empty(),
                },
                value_mark(q),
            ) + s,
        ),
{
    let t = seq![36u8, 123u8] + name + seq![125u8];
    let m = parser::marked(t, q);
    let w = p + m + s;
    let k = p.len() as int;
    let e = k + 2 + name.len();
    let v = parser::marked(parser::value_or_empty(scope, name), value_mark(q));
    assert(w[k] == m[0]);
    assert(w[k + 1] == m[1]);
    assert(w[e] == m[2 + name.len() as int]);
    assert forall|i: int| k + 2 <= i < e implies (#[trigger] w[i]).b == name[i - k - 2] by {
        assert(w[i] == m[i - k]);
    }
    assert forall|i: int| k + 2 <= i < e implies (#[trigger] w[i]).b != 125 by {
        assert(bytes::name_byte(name[i - k - 2]));
    }
    lemma_brace_at(w, k + 2, e);
    assert(parser::plain_bytes(w.subrange(k + 2, e)) =~= name);
    assert(w.skip(e + 1) =~= s);
    assert forall|i: int| e + 1 <= i < w.len() implies !parser::live_dollar(#[trigger] w[i]) by {
        assert(w[i] == s[i - e - 1]);
    }
    lemma_no_dollar_from(w, e + 1, scope);
    assert(parser::expanded_from(w, k, scope) == Some(v + s));
    assert forall|i: int| 0 <= i < k implies !parser::live_dollar(#[trigger] w[i]) by {
        assert(w[i] == p[i]);
    }
    lemma_front_stays(w, 0, k, v + s, scope);
    assert(w.subrange(0, k) + (v + s) =~= p + v + s);
}

/// `$?` stands for the last status, read as an unsigned number, and `$$` for the
/// process id.
pub proof fn law_status_and_process(p: Seq<Ch>, q: Quote, s: Seq<Ch>, scope: Scope)
    requires
        no_dollar(p),
        no_dollar(s),
        q == Quote::Plain || q == Quote::Double,
        p.len() > 0 ==> p[0].b != 126,
    ensures
        parser::expanded(p + parser::marked(seq![36u8, 63u8], q) + s, scope) == Some(
            p + parser::marked(bytes::decimal(scope.status as u64 as nat), value_mark(q)) + s,
        ),
        parser::expanded(p + parser::marked(seq![36u8, 36u8], q) + s, scope) == Some(
            p + parser::marked(bytes::decimal(scope.pid as nat), value_mark(q)) + s,
        ),
{
    lemma_sign(p, 63, q, s, scope);
    lemma_sign(p, 36, q, s, scope);
}

proof fn lemma_sign(p: Seq<Ch>, c: u8, q: Quote, s: Seq<Ch>, scope: Scope)
    requires
        no_dollar(p),
        no_dollar(s),
        q == Quote::Plain || q == Quote::Double,
        p.len() > 0 ==> p[0].b != 126,
        c == 63 || c == 36,
    ensures
        parser::expanded(p + parser::marked(seq![36u8, c], q) + s, scope) == Some(
            p + parser::marked(
                bytes::decimal(
                    if c == 63 {
                        scope.status as u64 as nat
                    } else {
                        scope.pid as nat
                    },
                ),
                value_mark(q),
            ) + s,
        ),
{
    let m = parser::marked(seq![36u8, c], q);
    let w = p + m + s;
    let k = p.len() as int;
    let v = parser::marked(
        bytes::decimal(
            if c == 63 {
                scope.status as u64 as nat
            } else {
                scope.pid as nat
            },
        ),
        value_mark(q),
    );
    assert(w[k] == m[0] && w[k + 1] == m[1]);
    assert(w[0].b != 126) by {
        if k > 0 {
            assert(w[0] == p[0]);
        }
    }
    assert(w.skip(k + 2) =~= s);
    assert forall|i: int| k + 2 <= i < w.len() implies !parser::live_dollar(#[trigger] w[i]) by {
        assert(w[i] == s[i - k - 2]);
    }
    lemma_no_dollar_from(w, k + 2, scope);
    assert(parser::expanded_from(w, k, scope) == Some(v + s));
    assert forall|i: int| 0 <= i < k implies !parser::live_dollar(#[trigger] w[i]) by {
        assert(w[i] == p[i]);
    }
    lemma_front_stays(w, 0, k, v + s, scope);
    assert(w.subrange(0, k) + (v + s) =~= p + v + s);
}

/// A `~` alone or before a `/` at the start of a word stands for the root; the
/// rest of the word stays.
pub proof fn law_tilde_is_the_root(s: Seq<Ch>, scope: Scope)
    requires
        no_dollar(s),
        s.len() > 0 ==> s[0].b == 47,
    ensures
        parser::expanded(seq![Ch { b: 126, q: Quote::Plain }] + s, scope) == Some(
            seq![Ch { b: 47, q: Quote::Plain }] + s,
        ),
{
    let w = seq![Ch { b: 126, q: Quote::Plain }] + s;
    assert(w.skip(1) =~= s);
    if s.len() > 0 {
        assert(w[1] == s[0]);
    }
    assert forall|i: int| 1 <= i < w.len() implies !parser::live_dollar(#[trigger] w[i]) by {
        assert(w[i] == s[i - 1]);
    }
    lemma_no_dollar_from(w, 1, scope);
}

// ── Fields ──

proof fn lemma_fields_append(a: Seq<Ch>, b: Seq<Ch>, c: Ch, cur: Seq<Ch>)
    requires
        parser::splits_at(c),
    ensures
        parser::fields(a + seq![c] + b, cur) == parser::fields(a, cur) + parser::fields(
            b,
            Seq::empty(),
        ),
    decreases a.len(),
{
    let all = a + seq![c] + b;
    let rest = parser::fields(b, Seq::empty());
    if a.len() == 0 {
        assert(all[0] == c);
        assert(all.skip(1) =~= b);
        assert(Seq::<Seq<Ch>>::empty() + rest =~= rest);
    } else {
        assert(all[0] == a[0]);
        assert(all.skip(1) =~= a.skip(1) + seq![c] + b);
        if parser::splits_at(a[0]) {
            lemma_fields_append(a.skip(1), b, c, Seq::empty());
            if cur.len() > 0 {
                assert(seq![cur] + (parser::fields(a.skip(1), Seq::empty()) + rest) =~= (seq![cur]
                    + parser::fields(a.skip(1), Seq::empty())) + rest);
            }
        } else {
            lemma_fields_append(a.skip(1), b, c, cur.push(a[0]));
        }
    }
}

/// White space that came out of an expansion outside quotes separates words: what
/// stands before it and what stands behind it are split each by itself.
pub proof fn law_expanded_space_separates(a: Seq<Ch>, b: Seq<Ch>, c: Ch)
    requires
        c.q == Quote::Exp,
        bytes::space_byte(c.b),
    ensures
        parser::fields(a + seq![c] + b, Seq::empty()) == parser::fields(a, Seq::empty())
            + parser::fields(b, Seq::empty()),
{
    lemma_fields_append(a, b, c, Seq::empty());
}

proof fn lemma_whole_field(v: Seq<Ch>, cur: Seq<Ch>)
    requires
        forall|i: int|
            0 <= i < v.len() ==> (#[trigger] v[i]).q != Quote::Exp || !bytes::space_byte(v[i].b),
        v.len() + cur.len() > 0,
    ensures
        parser::fields(v, cur) == seq![cur + v],
    decreases v.len(),
{
    if v.len() == 0 {
        assert(cur + v =~= cur);
    } else {
        let t = v.skip(1);
        assert(!parser::splits_at(v[0]));
        assert forall|i: int| 0 <= i < t.len() implies (#[trigger] t[i]).q != Quote::Exp
            || !bytes::space_byte(t[i].b) by {
            assert(t[i] == v[i + 1]);
        }
        lemma_whole_field(t, cur.push(v[0]));
        assert(cur.push(v[0]) + t =~= cur + v);
    }
}

/// A word without such white space is one field: quoted expansions and typed
/// bytes are never split.
pub proof fn law_other_space_does_not_separate(v: Seq<Ch>)
    requires
        v.len() > 0,
        forall|i: int|
            0 <= i < v.len() ==> (#[trigger] v[i]).q != Quote::Exp || !bytes::space_byte(v[i].b),
    ensures
        parser::fields(v, Seq::empty()) == seq![v],
{
    lemma_whole_field(v, Seq::empty());
    assert(Seq::<Ch>::empty() + v =~= v);
}

// ── Commands ──

/// Words that are all quoted, none of them empty.
pub open spec fn literal_words(ws: Seq<Seq<Ch>>) -> bool {
    forall|i: int|
        0 <= i < ws.len() ==> (#[trigger] ws[i]).len() > 0 && parser::all_literal(ws[i])
}

/// The tokens of words.
pub open spec fn word_tokens(ws: Seq<Seq<Ch>>) -> Seq<Token> {
    Seq::new(ws.len(), |i: int| Token::Word(ws[i]))
}

proof fn lemma_literal_args(ws: Seq<Seq<Ch>>, scope: Scope)
    requires
        literal_words(ws),
    ensures
        parser::all_args(ws, scope) == Some(ws),
    decreases ws.len(),
{
    if ws.len() > 0 {
        let front = ws.drop_last();
        assert forall|i: int| 0 <= i < front.len() implies (#[trigger] front[i]).len() > 0
            && parser::all_literal(front[i]) by {
            assert(front[i] == ws[i]);
        }
        lemma_literal_args(front, scope);
        assert(ws[ws.len() - 1].len() > 0);
        parser::law_literal_stands_for_itself(ws.last(), scope, true);
        assert(front + seq![ws.last()] =~= ws);
    }
}

proof fn lemma_no_assignment(w: Seq<Ch>, j: int)
    requires
        parser::all_literal(w),
        0 <= j <= w.len(),
    ensures
        parser::assign_index(w, j) == w.len(),
    decreases w.len() - j,
{
    if j < w.len() {
        assert(w[j].q == Quote::Single || w[j].q == Quote::Esc);
        lemma_no_assignment(w, j + 1);
    }
}

proof fn lemma_words_gathered(
    t: Seq<Token>,
    i: int,
    ws: Seq<Seq<Ch>>,
    words: Seq<Seq<Ch>>,
    redirs: Seq<RawRedirView>,
    any: bool,
    pending: Option<Conn>,
    scope: Scope,
)
    requires
        0 <= i,
        i + ws.len() <= t.len(),
        forall|k: int| 0 <= k < ws.len() ==> t[i + k] == Token::Word(#[trigger] ws[k]),
    ensures
        parser::parsed(t, i, words, redirs, any, pending, scope) == parser::parsed(
            t,
            i + ws.len(),
            words + ws,
            redirs,
            any,
            pending,
            scope,
        ),
    decreases ws.len(),
{
    if ws.len() == 0 {
        assert(words + ws =~= words);
    } else {
        let rest = ws.skip(1);
        assert(t[i + 0] == Token::Word(ws[0]));
        assert forall|k: int| 0 <= k < rest.len() implies t[i + 1 + k] == Token::Word(
            #[trigger] rest[k],
        ) by {
            assert(rest[k] == ws[k + 1]);
            assert(t[i + (k + 1)] == Token::Word(ws[k + 1]));
        }
        lemma_words_gathered(t, i + 1, rest, words.push(ws[0]), redirs, any, pending, scope);
        assert(words.push(ws[0]) + rest =~= words + ws);
    }
}

/// What words of a line come to as a command: their own list of arguments, in
/// order.
pub open spec fn simple_command(ws: Seq<Seq<Ch>>, redirs: Seq<RedirView>, bg: bool) -> CommandView {
    CommandView { args: ws, redirs, bg, assign: None }
}

proof fn lemma_finished(
    ws: Seq<Seq<Ch>>,
    raw: Seq<RawRedirView>,
    redirs: Seq<RedirView>,
    bg: bool,
    scope: Scope,
)
    requires
        literal_words(ws),
        ws.len() > 0,
        parser::all_redirs(raw, scope) == Some(redirs),
    ensures
        parser::finished(ws, raw, bg, scope) == Ok::<Option<CommandView>, ParseError>(
            Some(simple_command(ws, redirs, bg)),
        ),
{
    lemma_literal_args(ws, scope);
    assert(parser::all_literal(ws[0]));
    lemma_no_assignment(ws[0], 0);
}

/// The stream that an operator redirects, and whether the file is kept: `>` and
/// `>>` the output, `2>` and `2>>` the errors, `<` the input.
pub open spec fn redirects(op: Op, slot: u8, append: bool) -> bool {
    match op {
        Op::Gt => slot == 1 && !append,
        Op::GtGt => slot == 1 && append,
        Op::E2Gt => slot == 2 && !append,
        Op::E2GtGt => slot == 2 && append,
        Op::Lt => slot == 0 && !append,
        _ => false,
    }
}

/// A redirection takes the word behind it and leaves all others to the command,
/// wherever among them it stands.
pub proof fn law_redirection_takes_one_word(
    before: Seq<Seq<Ch>>,
    op: Op,
    slot: u8,
    append: bool,
    target: Seq<Ch>,
    after: Seq<Seq<Ch>>,
    scope: Scope,
)
    requires
        literal_words(before),
        literal_words(after),
        before.len() + after.len() > 0,
        redirects(op, slot, append),
        parser::all_literal(target),
        target.len() > 0,
    ensures
        parser::parsed(
            word_tokens(before) + seq![Token::Op(op), Token::Word(target)] + word_tokens(after),
            0,
            Seq::empty(),
            Seq::empty(),
            false,
            None,
            scope,
        ) == Ok::<ListView, ParseError>(
            ListView {
                cmds: seq![
                    simple_command(
                        before + after,
                        seq![
                            RedirView {
                                slot,
                                append,
                                dup_to_1: false,
                                target: bytes::text_of(parser::plain_bytes(target)),
                            },
                        ],
                        false,
                    ),
                ],
                cons: Seq::empty(),
            },
        ),
{
    let t = word_tokens(before) + seq![Token::Op(op), Token::Word(target)] + word_tokens(after);
    let n = before.len() as int;
    let none = Seq::<Seq<Ch>>::empty();
    let nor = Seq::<RawRedirView>::empty();
    let raw = RawRedirView { slot, append, dup_to_1: false, target };
    let made = RedirView {
        slot,
        append,
        dup_to_1: false,
        target: bytes::text_of(parser::plain_bytes(target)),
    };
    assert forall|k: int| 0 <= k < before.len() implies t[0 + k] == Token::Word(
        #[trigger] before[k],
    ) by {
        assert(t[k] == word_tokens(before)[k]);
    }
    lemma_words_gathered(t, 0, before, none, nor, false, None, scope);
    assert(none + before =~= before);
    assert(t[n] == Token::Op(op));
    assert(t[n + 1] == Token::Word(target));
    assert forall|k: int| 0 <= k < after.len() implies t[n + 2 + k] == Token::Word(
        #[trigger] after[k],
    ) by {
        assert(t[n + 2 + k] == word_tokens(after)[k]);
    }
    lemma_words_gathered(t, n + 2, after, before, nor.push(raw), false, None, scope);
    assert(target[0].q == Quote::Single || target[0].q == Quote::Esc);
    assert forall|i: int| 0 <= i < target.len() implies !parser::live_dollar(#[trigger] target[i]) by {
        assert(target[i].q == Quote::Single || target[i].q == Quote::Esc);
    }
    lemma_no_dollar_from(target, 0, scope);
    assert(target.skip(0) =~= target);
    let raws = nor.push(raw);
    assert(raws.drop_last() =~= nor);
    assert(parser::all_redirs(nor, scope) == Some(Seq::<RedirView>::empty()));
    assert(Seq::<RedirView>::empty().push(made) =~= seq![made]);
    assert(parser::all_redirs(raws, scope) == Some(seq![made]));
    let ws = before + after;
    assert forall|i: int| 0 <= i < ws.len() implies (#[trigger] ws[i]).len() > 0
        && parser::all_literal(ws[i]) by {
        if i < n {
            assert(ws[i] == before[i]);
        } else {
            assert(ws[i] == after[i - n]);
        }
    }
    lemma_finished(ws, raws, seq![made], false, scope);
}

/// How an operator joins two commands, and whether the first one goes to the
/// background.
pub open spec fn joins(op: Op, conn: Conn, bg: bool) -> bool {
    match op {
        Op::Semi => conn == Conn::Always && !bg,
        Op::Bg => conn == Conn::Always && bg,
        Op::And => conn == Conn::And && !bg,
        Op::Or => conn == Conn::Or && !bg,
        _ => false,
    }
}

/// Operators join commands in the order in which they stand, and the operator
/// between two commands is the connector between them; only `&` puts the command
/// before it into the background.
pub proof fn law_operator_joins_two_commands(
    a: Seq<Seq<Ch>>,
    op: Op,
    conn: Conn,
    bg: bool,
    b: Seq<Seq<Ch>>,
    scope: Scope,
)
    requires
        literal_words(a),
        literal_words(b),
        a.len() > 0,
        b.len() > 0,
        joins(op, conn, bg),
    ensures
        parser::parsed(
            word_tokens(a) + seq![Token::Op(op)] + word_tokens(b),
            0,
            Seq::empty(),
            Seq::empty(),
            false,
            None,
            scope,
        ) == Ok::<ListView, ParseError>(
            ListView {
                cmds: seq![
                    simple_command(a, Seq::empty(), bg),
                    simple_command(b, Seq::empty(), false),
                ],
                cons: seq![conn],
            },
        ),
{
    let t = word_tokens(a) + seq![Token::Op(op)] + word_tokens(b);
    let n = a.len() as int;
    let none = Seq::<Seq<Ch>>::empty();
    let nor = Seq::<RawRedirView>::empty();
    let ca = simple_command(a, Seq::empty(), bg);
    let cb = simple_command(b, Seq::empty(), false);
    assert forall|k: int| 0 <= k < a.len() implies t[0 + k] == Token::Word(#[trigger] a[k]) by {
        assert(t[k] == word_tokens(a)[k]);
    }
    lemma_words_gathered(t, 0, a, none, nor, false, None, scope);
    assert(none + a =~= a);
    assert(t[n] == Token::Op(op));
    assert forall|k: int| 0 <= k < b.len() implies t[n + 1 + k] == Token::Word(#[trigger] b[k]) by {
        assert(t[n + 1 + k] == word_tokens(b)[k]);
    }
    lemma_words_gathered(t, n + 1, b, none, nor, true, Some(conn), scope);
    assert(none + b =~= b);
    lemma_finished(a, nor, Seq::empty(), bg, scope);
    lemma_finished(b, nor, Seq::empty(), false, scope);
    assert(seq![ca] + seq![cb] =~= seq![ca, cb]);
    assert(Seq::<Conn>::empty() + seq![conn] =~= seq![conn]);
}

/// `NAME=value` alone sets the variable to the value, which may hold any bytes.
pub proof fn law_assignment_sets_its_value(name: Seq<u8>, value: Seq<Ch>, scope: Scope)
    requires
        parser::name_ok(name),
        parser::all_literal(value),
    ensures
        parser::finished(
            seq![parser::marked(name + seq![61u8], Quote::Plain) + value],
            Seq::empty(),
            false,
            scope,
        ) == Ok::<Option<CommandView>, ParseError>(
            Some(
                CommandView {
                    args: Seq::empty(),
                    redirs: Seq::empty(),
                    bg: false,
                    assign: Some((name, bytes::text_of(parser::plain_bytes(value)))),
                },
            ),
        ),
{
    let m = parser::marked(name + seq![61u8], Quote::Plain);
    let w = m + value;
    let n = name.len() as int;
    assert forall|i: int| 0 <= i < n implies #[trigger] w[i] != (Ch { b: 61, q: Quote::Plain }) by {
        assert(w[i] == m[i]);
        assert(w[i].b == name[i]);
        assert(bytes::name_byte(name[i]));
    }
    assert(w[n] == m[n]);
    lemma_assign_at(w, 0, n);
    assert(parser::plain_bytes(w.take(n)) =~= name) by {
        assert forall|i: int| 0 <= i < n implies parser::plain_bytes(w.take(n))[i] == name[i] by {
            assert(w[i] == m[i]);
        }
    }
    assert(w.skip(n + 1) =~= value);
    assert forall|i: int| 0 <= i < value.len() implies !parser::live_dollar(#[trigger] value[i]) by {
        assert(value[i].q == Quote::Single || value[i].q == Quote::Esc);
    }
    lemma_no_dollar_from(value, 0, scope);
    assert(value.skip(0) =~= value);
    if value.len() > 0 {
        assert(value[0].q == Quote::Single || value[0].q == Quote::Esc);
    }
}

proof fn lemma_assign_at(w: Seq<Ch>, j: int, e: int)
    requires
        0 <= j <= e < w.len(),
        forall|i: int| j <= i < e ==> #[trigger] w[i] != (Ch { b: 61, q: Quote::Plain }),
        w[e] == (Ch { b: 61, q: Quote::Plain }),
    ensures
        parser::assign_index(w, j) == e,
    decreases e - j,
{
    if j < e {
        lemma_assign_at(w, j + 1, e);
    }
}

} // verus!
