//! What keys do to the line that is typed and to the row that shows it.
use vstd::prelude::*;

use super::line;
use super::line::{EditorView, Esc};
use crate::bytes;

verus! {

// ── The line ──

/// Bytes that stand for themselves on the screen.
pub open spec fn printable(s: Seq<u8>) -> bool {
    forall|i: int| 0 <= i < s.len() ==> 0x20 <= #[trigger] s[i] <= 0x7E
}

/// The line after some keys.
pub open spec fn typed_all(e: EditorView, hist: Seq<Seq<u8>>, keys: Seq<u8>) -> EditorView
    decreases keys.len(),
{
    if keys.len() == 0 {
        e
    } else {
        line::typed(typed_all(e, hist, keys.drop_last()), hist, keys.last()).e
    }
}

/// A line that waits for a key, outside any sequence.
pub open spec fn ready(e: EditorView, hist: Seq<Seq<u8>>) -> bool {
    line::editor_ok(e, hist) && e.esc == Esc::Outside
}

/// Text that is typed goes in where the cursor is, as it was typed, and the
/// cursor goes behind it.
pub proof fn law_text_goes_in_at_the_cursor(e: EditorView, hist: Seq<Seq<u8>>, keys: Seq<u8>)
    requires
        ready(e, hist),
        printable(keys),
    ensures
        typed_all(e, hist, keys).buf == e.buf.take(e.cur) + keys + e.buf.skip(e.cur),
        typed_all(e, hist, keys).cur == e.cur + keys.len(),
        ready(typed_all(e, hist, keys), hist),
        typed_all(e, hist, keys).record == e.record,
    decreases keys.len(),
{
    if keys.len() == 0 {
        assert(e.buf.take(e.cur) + keys + e.buf.skip(e.cur) =~= e.buf);
    } else {
        let front = keys.drop_last();
        assert forall|i: int| 0 <= i < front.len() implies 0x20 <= #[trigger] front[i] <= 0x7E by {
            assert(front[i] == keys[i]);
        }
        law_text_goes_in_at_the_cursor(e, hist, front);
        let m = typed_all(e, hist, front);
        assert(0x20 <= keys[keys.len() - 1] <= 0x7E);
        assert(m.buf.insert(m.cur, keys.last()) =~= e.buf.take(e.cur) + keys + e.buf.skip(e.cur));
    }
}

/// The finished line is the one that was typed, and the history ends with it.
pub proof fn law_typed_line_comes_out(
    e: EditorView,
    hist: Seq<Seq<u8>>,
    keys: Seq<u8>,
    enter: u8,
)
    requires
        ready(e, hist),
        e.buf.len() == 0,
        printable(keys),
        vstd::utf8::valid_utf8(keys),
        enter == 10 || enter == 13,
        keys.len() > 0,
        e.record,
    ensures
        ({
            let t = line::typed(typed_all(e, hist, keys), hist, enter);
            &&& t.line == Some(keys)
            &&& t.hist.len() > 0
            &&& t.hist.last() == keys
            &&& t.e.buf.len() == 0
        }),
{
    law_text_goes_in_at_the_cursor(e, hist, keys);
    assert(e.buf.take(e.cur) + keys + e.buf.skip(e.cur) =~= keys);
}

/// After Home, text goes in front of the line; after End, behind it.
pub proof fn law_home_and_end(e: EditorView, hist: Seq<Seq<u8>>, keys: Seq<u8>)
    requires
        ready(e, hist),
        printable(keys),
    ensures
        typed_all(line::sequence(e, hist, 72), hist, keys).buf == keys + e.buf,
        typed_all(line::sequence(e, hist, 70), hist, keys).buf == e.buf + keys,
{
    let home = line::sequence(e, hist, 72);
    let end = line::sequence(e, hist, 70);
    law_text_goes_in_at_the_cursor(home, hist, keys);
    law_text_goes_in_at_the_cursor(end, hist, keys);
    assert(e.buf.take(0) + keys + e.buf.skip(0) =~= keys + e.buf);
    let n = e.buf.len() as int;
    assert(e.buf.take(n) + keys + e.buf.skip(n) =~= e.buf + keys);
}

/// The arrows move over one byte each and change nothing else: the one undoes
/// the other.
pub proof fn law_arrows_undo_each_other(e: EditorView, hist: Seq<Seq<u8>>)
    requires
        ready(e, hist),
    ensures
        e.cur > 0 ==> line::sequence(e, hist, 68).cur == e.cur - 1 && line::sequence(
            line::sequence(e, hist, 68),
            hist,
            67,
        ).cur == e.cur,
        e.cur < e.buf.len() ==> line::sequence(e, hist, 67).cur == e.cur + 1,
        line::sequence(e, hist, 68).buf == e.buf,
        line::sequence(e, hist, 67).buf == e.buf,
        e.cur == 0 ==> line::sequence(e, hist, 68).cur == 0,
        e.cur == e.buf.len() ==> line::sequence(e, hist, 67).cur == e.cur,
{
}

/// The line after the Delete key.
pub open spec fn deleted(e: EditorView, hist: Seq<Seq<u8>>) -> EditorView {
    line::typed(line::sequence(e, hist, 51), hist, 126).e
}

/// Delete takes the byte under the cursor: what the right arrow and the
/// backspace would take.
pub proof fn law_delete_takes_what_is_under_the_cursor(e: EditorView, hist: Seq<Seq<u8>>)
    requires
        ready(e, hist),
    ensures
        e.cur < e.buf.len() ==> deleted(e, hist).buf == line::typed(
            line::sequence(e, hist, 67),
            hist,
            8,
        ).e.buf && deleted(e, hist).cur == e.cur,
        e.cur == e.buf.len() ==> deleted(e, hist).buf == e.buf,
{
}

/// The up arrow calls up what was typed before, the newest line first.
pub proof fn law_up_calls_the_last_line(e: EditorView, hist: Seq<Seq<u8>>)
    requires
        ready(e, hist),
        e.hist_pos == hist.len(),
        hist.len() > 0,
    ensures
        line::sequence(e, hist, 65).buf == hist.last(),
        hist.len() > 1 ==> line::sequence(line::sequence(e, hist, 65), hist, 65).buf
            == hist[hist.len() - 2],
{
}

// ── The row ──

/// A row of a screen, and where its cursor is.
#[verifier::ext_equal]
pub struct Row {
    pub text: Seq<u8>,
    pub col: int,
}

/// The row after a byte that stands for itself.
pub open spec fn put(r: Row, b: u8) -> Row {
    Row {
        text: if r.col < r.text.len() {
            r.text.update(r.col, b)
        } else {
            r.text.push(b)
        },
        col: r.col + 1,
    }
}

/// The row after a sequence: `D` moves to the left, `K` erases what is at the
/// cursor and behind it.
pub open spec fn steered(r: Row, letter: u8) -> Row {
    if letter == 68 {
        Row { col: r.col - 1, ..r }
    } else if letter == 75 {
        Row { text: r.text.take(r.col), ..r }
    } else {
        r
    }
}

/// The row after what is printed on it.
pub open spec fn printed(r: Row, out: Seq<u8>) -> Row
    decreases out.len(),
{
    if out.len() == 0 {
        r
    } else if out.len() >= 3 && out[0] == 27 && out[1] == 91 {
        printed(steered(r, out[2]), out.skip(3))
    } else {
        printed(put(r, out[0]), out.skip(1))
    }
}

proof fn lemma_sequences()
    ensures
        bytes::lit("\x1b[D") == seq![27u8, 91u8, 68u8],
        bytes::lit("\x1b[K") == seq![27u8, 91u8, 75u8],
{
    reveal_strlit("\x1b[D");
    reveal_strlit("\x1b[K");
    vstd::utf8::is_ascii_chars_encode_utf8("\x1b[D"@);
    vstd::utf8::is_ascii_chars_encode_utf8("\x1b[K"@);
    assert(bytes::lit("\x1b[D") =~= seq![27u8, 91u8, 68u8]);
    assert(bytes::lit("\x1b[K") =~= seq![27u8, 91u8, 75u8]);
}

proof fn lemma_moved_left(r: Row, n: int, rest: Seq<u8>)
    requires
        n >= 0,
    ensures
        printed(r, line::moves_left(n) + rest) == printed(Row { col: r.col - n, ..r }, rest),
    decreases n,
{
    lemma_sequences();
    if n == 0 {
        assert(line::moves_left(n) + rest =~= rest);
    } else {
        let d = seq![27u8, 91u8, 68u8];
        assert(line::moves_left(n) + rest =~= line::moves_left(n - 1) + (d + rest));
        lemma_moved_left(r, n - 1, d + rest);
        assert((d + rest).skip(3) =~= rest);
    }
}

proof fn lemma_written(r: Row, s: Seq<u8>, rest: Seq<u8>)
    requires
        printable(s),
        r.col == r.text.len(),
    ensures
        printed(r, s + rest) == printed(
            Row { text: r.text + s, col: r.col + s.len() },
            rest,
        ),
    decreases s.len(),
{
    if s.len() == 0 {
        assert(s + rest =~= rest);
        assert(r.text + s =~= r.text);
    } else {
        let t = s.skip(1);
        assert forall|i: int| 0 <= i < t.len() implies 0x20 <= #[trigger] t[i] <= 0x7E by {
            assert(t[i] == s[i + 1]);
        }
        assert(0x20 <= s[0] <= 0x7E);
        assert((s + rest).skip(1) =~= t + rest);
        lemma_written(put(r, s[0]), t, rest);
        assert(r.text.push(s[0]) + t =~= r.text + s);
    }
}

/// Whatever the row showed behind the prompt, what is printed when the line
/// changes leaves it showing the line, with the cursor where the next byte goes.
pub proof fn law_row_shows_the_line(prompt: Seq<u8>, e: EditorView, hist: Seq<Seq<u8>>, stale: Seq<u8>)
    requires
        line::editor_ok(e, hist),
        printable(e.buf),
        0 <= e.screen <= stale.len(),
    ensures
        ({
            let t = line::redrawn(e, hist);
            let r = printed(
                Row { text: prompt + stale, col: prompt.len() + e.screen },
                t.echo,
            );
            &&& r.text == prompt + e.buf
            &&& r.col == prompt.len() + t.e.screen
            &&& t.e.screen == e.cur
        }),
{
    lemma_sequences();
    let r0 = Row { text: prompt + stale, col: prompt.len() + e.screen };
    let k = seq![27u8, 91u8, 75u8];
    let back = line::moves_left(e.buf.len() - e.cur);
    assert(line::redraw_text(e) =~= line::moves_left(e.screen) + (k + (e.buf + back)));
    lemma_moved_left(r0, e.screen, k + (e.buf + back));
    assert((k + (e.buf + back)).skip(3) =~= e.buf + back);
    let n = prompt.len() as int;
    assert((prompt + stale).take(n) =~= prompt);
    let r1 = Row { text: prompt, col: n };
    lemma_written(r1, e.buf, back);
    let r2 = Row { text: prompt + e.buf, col: n + e.buf.len() };
    let none = Seq::<u8>::empty();
    assert(back + none =~= back);
    lemma_moved_left(r2, e.buf.len() - e.cur, none);
}

/// Every key that changes the line shows it anew: what the row shows is the line,
/// before and after.
pub proof fn law_row_follows_the_keys(prompt: Seq<u8>, e: EditorView, hist: Seq<Seq<u8>>, b: u8)
    requires
        line::editor_ok(e, hist),
        printable(e.buf),
        e.screen == e.cur,
        e.stash is Some ==> printable(e.stash->0),
        forall|i: int| 0 <= i < hist.len() ==> printable(#[trigger] hist[i]),
        b != 10,
        b != 13,
    ensures
        ({
            let t = line::typed(e, hist, b);
            let r = printed(Row { text: prompt + e.buf, col: prompt.len() + e.screen }, t.echo);
            &&& r.text == prompt + t.e.buf
            &&& r.col == prompt.len() + t.e.cur
            &&& t.e.screen == t.e.cur
        }),
{
    let t = line::typed(e, hist, b);
    if t.echo.len() == 0 {
        assert(t.echo =~= Seq::<u8>::empty());
    }
    lemma_same_or_redrawn(e, hist, b);
    if !(t.e.buf == e.buf && t.e.cur == e.cur && t.e.screen == e.screen && t.echo.len() == 0) {
        let n = EditorView { screen: e.screen, ..t.e };
        law_row_shows_the_line(prompt, n, hist, e.buf);
    }
}

proof fn lemma_same_or_redrawn(e: EditorView, hist: Seq<Seq<u8>>, b: u8)
    requires
        line::editor_ok(e, hist),
        printable(e.buf),
        e.screen == e.cur,
        e.stash is Some ==> printable(e.stash->0),
        forall|i: int| 0 <= i < hist.len() ==> printable(#[trigger] hist[i]),
        b != 10,
        b != 13,
    ensures
        ({
            let t = line::typed(e, hist, b);
            ||| t.e.buf == e.buf && t.e.cur == e.cur && t.e.screen == e.screen && t.echo.len() == 0
            ||| t == line::redrawn(EditorView { screen: e.screen, ..t.e }, hist) && line::editor_ok(
                EditorView { screen: e.screen, ..t.e },
                hist,
            ) && printable(t.e.buf)
        }),
{
    let t = line::typed(e, hist, b);
    if e.esc == Esc::Outside && 0x20 <= b <= 0x7E {
        let m = e.buf.insert(e.cur, b);
        assert forall|i: int| 0 <= i < m.len() implies 0x20 <= #[trigger] m[i] <= 0x7E by {
            if i < e.cur {
                assert(m[i] == e.buf[i]);
            } else if i > e.cur {
                assert(m[i] == e.buf[i - 1]);
            }
        }
    }
    if e.esc == Esc::Outside && b == 8 && e.cur > 0 {
        lemma_removed(e.buf, e.cur - 1);
    }
    if e.esc == Esc::Three && b == 126 && e.cur < e.buf.len() {
        lemma_removed(e.buf, e.cur);
    }
}

proof fn lemma_removed(s: Seq<u8>, k: int)
    requires
        printable(s),
        0 <= k < s.len(),
    ensures
        printable(s.remove(k)),
{
    let m = s.remove(k);
    assert forall|i: int| 0 <= i < m.len() implies 0x20 <= #[trigger] m[i] <= 0x7E by {
        if i < k {
            assert(m[i] == s[i]);
        } else {
            assert(m[i] == s[i + 1]);
        }
    }
}

/// A line that was typed goes to the end of the history, unless it is empty or
/// the same as the last one there, or is not to be kept.
pub proof fn law_history_takes_new_lines(hist: Seq<Seq<u8>>, buf: Seq<u8>)
    requires
        vstd::utf8::valid_utf8(buf),
    ensures
        buf.len() > 0 && (hist.len() == 0 || hist.last() != buf) ==> line::hist_with(
            hist,
            true,
            buf,
        ) == hist.push(buf),
        hist.len() > 0 && hist.last() == buf ==> line::hist_with(hist, true, buf) == hist,
        buf.len() == 0 ==> line::hist_with(hist, true, buf) == hist,
        line::hist_with(hist, false, buf) == hist,
{
}

} // verus!
