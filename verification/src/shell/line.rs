//! The line editor: what the keys do to the line being typed, what is shown,
//! and the history.
//!
//! It edits and shows the line by itself. Keys arrive as bytes; the arrow keys,
//! Home, End and Delete as sequences that start with an escape.
use vstd::prelude::*;

use crate::bytes;
use crate::bytes::{append_bytes, bytes_eq, copy_of, push_str, text_or_empty};

verus! {

/// How often the rest of an escape sequence is looked for.
pub const ESC_TRIES: u32 = 50;

/// How much of an escape sequence has come.
#[derive(Clone, Copy, PartialEq, Eq, Debug, Structural)]
pub enum Esc {
    Outside,
    /// The escape.
    Start,
    /// `[` too.
    Bracket,
    /// `3` too.
    Three,
}

/// The line being typed.
pub struct Editor {
    pub buf: Vec<u8>,
    /// Where the next byte goes.
    pub cur: usize,
    /// Where the cursor is on the screen, counted from the end of the prompt.
    pub screen: usize,
    /// The line of the history that is shown; its length for the line that is
    /// being typed.
    pub hist_pos: usize,
    /// The line that was being typed when the history was first called up.
    pub stash: Option<Vec<u8>>,
    /// Whether the line goes into the history.
    pub record: bool,
    pub esc: Esc,
    /// How often the rest of an escape sequence was looked for in vain.
    pub tries: u32,
}

/// The line being typed, as a value.
#[verifier::ext_equal]
pub struct EditorView {
    pub buf: Seq<u8>,
    pub cur: int,
    pub screen: int,
    pub hist_pos: int,
    pub stash: Option<Seq<u8>>,
    pub record: bool,
    pub esc: Esc,
    pub tries: int,
}

impl View for Editor {
    type V = EditorView;

    open spec fn view(&self) -> EditorView {
        EditorView {
            buf: self.buf@,
            cur: self.cur as int,
            screen: self.screen as int,
            hist_pos: self.hist_pos as int,
            stash: match self.stash {
                Some(s) => Some(s@),
                None => None,
            },
            record: self.record,
            esc: self.esc,
            tries: self.tries as int,
        }
    }
}

/// The cursor is in the line, and what is shown is in the history or is the
/// line being typed.
pub open spec fn editor_ok(e: EditorView, hist: Seq<Seq<u8>>) -> bool {
    &&& 0 <= e.cur <= e.buf.len()
    &&& 0 <= e.hist_pos <= hist.len()
    &&& 0 <= e.tries < ESC_TRIES
}

/// Moves the cursor to the left `n` times.
pub open spec fn moves_left(n: int) -> Seq<u8>
    decreases n,
{
    if n <= 0 {
        Seq::empty()
    } else {
        moves_left(n - 1) + bytes::lit("\x1b[D")
    }
}

/// What shows the line anew: back to its start, erased to the end of the row,
/// written, and the cursor put where it belongs.
pub open spec fn redraw_text(e: EditorView) -> Seq<u8> {
    moves_left(e.screen) + bytes::lit("\x1b[K") + e.buf + moves_left(e.buf.len() - e.cur)
}

/// What a key leads to: the line, the history, what is shown, and the line that
/// is finished, if it is.
#[verifier::ext_equal]
pub struct Typed {
    pub e: EditorView,
    pub hist: Seq<Seq<u8>>,
    pub echo: Seq<u8>,
    pub line: Option<Seq<u8>>,
}

/// The line changes and is shown anew.
pub open spec fn redrawn(e: EditorView, hist: Seq<Seq<u8>>) -> Typed {
    Typed {
        e: EditorView { screen: e.cur, ..e },
        hist,
        echo: redraw_text(e),
        line: None,
    }
}

/// Nothing is shown.
pub open spec fn unshown(e: EditorView, hist: Seq<Seq<u8>>) -> Typed {
    Typed { e, hist, echo: Seq::empty(), line: None }
}

/// The history with a line more: not an empty one, nor the last one again.
pub open spec fn hist_with(hist: Seq<Seq<u8>>, record: bool, buf: Seq<u8>) -> Seq<Seq<u8>> {
    let line = bytes::text_of(buf);
    if !record || buf.len() == 0 || (hist.len() > 0 && hist.last() == line) {
        hist
    } else {
        hist.push(line)
    }
}

/// The line of the history before the one that is shown.
pub open spec fn earlier(e: EditorView, hist: Seq<Seq<u8>>) -> Typed {
    if e.hist_pos == 0 {
        unshown(e, hist)
    } else {
        let buf = hist[e.hist_pos - 1];
        redrawn(
            EditorView {
                buf,
                cur: buf.len() as int,
                hist_pos: e.hist_pos - 1,
                stash: if e.hist_pos == hist.len() {
                    Some(e.buf)
                } else {
                    e.stash
                },
                ..e
            },
            hist,
        )
    }
}

/// The line of the history after the one that is shown; after the last, the
/// line that was being typed.
pub open spec fn later(e: EditorView, hist: Seq<Seq<u8>>) -> Typed {
    if e.hist_pos >= hist.len() {
        unshown(e, hist)
    } else {
        let last = e.hist_pos + 1 == hist.len();
        let buf = if !last {
            hist[e.hist_pos + 1]
        } else if e.stash is Some {
            e.stash->0
        } else {
            Seq::empty()
        };
        redrawn(
            EditorView {
                buf,
                cur: buf.len() as int,
                hist_pos: e.hist_pos + 1,
                stash: if last {
                    None
                } else {
                    e.stash
                },
                ..e
            },
            hist,
        )
    }
}

/// What a byte leads to that is no part of an escape sequence.
pub open spec fn plain_key(e: EditorView, hist: Seq<Seq<u8>>, b: u8) -> Typed {
    if b == 10 || b == 13 {
        Typed {
            e: EditorView { buf: Seq::empty(), cur: 0, ..e },
            hist: hist_with(hist, e.record, e.buf),
            echo: seq![10u8],
            line: Some(bytes::text_of(e.buf)),
        }
    } else if b == 8 {
        if e.cur > 0 {
            redrawn(EditorView { buf: e.buf.remove(e.cur - 1), cur: e.cur - 1, ..e }, hist)
        } else {
            unshown(e, hist)
        }
    } else if b == 0x1B {
        unshown(EditorView { esc: Esc::Start, ..e }, hist)
    } else if 0x20 <= b <= 0x7E {
        redrawn(EditorView { buf: e.buf.insert(e.cur, b), cur: e.cur + 1, ..e }, hist)
    } else {
        unshown(e, hist)
    }
}

/// What the last byte of a sequence with one letter leads to.
pub open spec fn letter_key(e: EditorView, hist: Seq<Seq<u8>>, b: u8) -> Typed {
    if b == 65 {
        earlier(e, hist)
    } else if b == 66 {
        later(e, hist)
    } else if b == 67 && e.cur < e.buf.len() {
        redrawn(EditorView { cur: e.cur + 1, ..e }, hist)
    } else if b == 68 && e.cur > 0 {
        redrawn(EditorView { cur: e.cur - 1, ..e }, hist)
    } else if b == 72 {
        redrawn(EditorView { cur: 0, ..e }, hist)
    } else if b == 70 {
        redrawn(EditorView { cur: e.buf.len() as int, ..e }, hist)
    } else {
        unshown(e, hist)
    }
}

/// What a byte leads to. A sequence that means nothing is dropped.
pub open spec fn typed(at: EditorView, hist: Seq<Seq<u8>>, b: u8) -> Typed {
    let e = EditorView { tries: 0, ..at };
    let none = EditorView { esc: Esc::Outside, ..e };
    match e.esc {
        Esc::Outside => plain_key(e, hist, b),
        Esc::Start => if b == 91 {
            unshown(EditorView { esc: Esc::Bracket, ..e }, hist)
        } else {
            unshown(none, hist)
        },
        Esc::Bracket => if b == 51 {
            unshown(EditorView { esc: Esc::Three, ..e }, hist)
        } else {
            letter_key(none, hist, b)
        },
        Esc::Three => if b == 126 && e.cur < e.buf.len() {
            redrawn(EditorView { buf: e.buf.remove(e.cur), ..none }, hist)
        } else {
            unshown(none, hist)
        },
    }
}

/// The line once no byte came.
pub open spec fn unheard(e: EditorView) -> EditorView {
    if e.esc is Outside {
        e
    } else if e.tries + 1 < ESC_TRIES {
        EditorView { tries: e.tries + 1, ..e }
    } else {
        EditorView { esc: Esc::Outside, tries: 0, ..e }
    }
}

/// The commands that were typed, the last one at the end.
pub struct History {
    pub lines: Vec<Vec<u8>>,
}

/// A key did what it should.
pub open spec fn did(e: EditorView, hist: Seq<Seq<u8>>, echo: Seq<u8>, line: Option<Seq<u8>>, t: Typed) -> bool {
    &&& e == t.e
    &&& hist == t.hist
    &&& echo == t.echo
    &&& line == t.line
}

fn push_left(v: &mut Vec<u8>, n: usize)
    ensures
        final(v)@ == old(v)@ + moves_left(n as int),
{
    let ghost v0 = v@;
    let mut i: usize = 0;
    assert(v0 + moves_left(0) =~= v0);
    while i < n
        invariant
            i <= n,
            v@ == v0 + moves_left(i as int),
        decreases n - i,
    {
        push_str(v, "\x1b[D");
        i = i + 1;
        assert(v@ =~= v0 + moves_left(i as int));
    }
}

impl History {
    pub open spec fn view(&self) -> Seq<Seq<u8>> {
        bytes::views(self.lines@)
    }

    pub fn new() -> (r: History)
        ensures
            r@ == Seq::<Seq<u8>>::empty(),
    {
        let r = History { lines: Vec::new() };
        assert(r@ =~= Seq::empty());
        r
    }

    /// Takes a line in.
    fn commit(&mut self, record: bool, buf: &Vec<u8>)
        ensures
            final(self)@ == hist_with(old(self)@, record, buf@),
    {
        broadcast use bytes::lemma_views_push;

        if !record || buf.len() == 0 {
            return ;
        }
        let line: Vec<u8> = text_or_empty(copy_of(buf));
        let n: usize = self.lines.len();
        if n > 0 {
            assert(self@.last() == self.lines@[n - 1]@);
            if bytes_eq(&self.lines[n - 1], &line) {
                return ;
            }
        }
        self.lines.push(line);
    }
}

impl Editor {
    /// A new line, after a prompt.
    pub fn new(hist: &History, record: bool) -> (r: Editor)
        ensures
            r@ == (EditorView {
                buf: Seq::empty(),
                cur: 0,
                screen: 0,
                hist_pos: hist@.len() as int,
                stash: None,
                record,
                esc: Esc::Outside,
                tries: 0,
            }),
            editor_ok(r@, hist@),
    {
        let r = Editor {
            buf: Vec::new(),
            cur: 0,
            screen: 0,
            hist_pos: hist.lines.len(),
            stash: None,
            record,
            esc: Esc::Outside,
            tries: 0,
        };
        assert(r@.buf =~= Seq::empty());
        r
    }

    /// Shows the line anew.
    fn redraw(&mut self) -> (r: Vec<u8>)
        requires
            old(self).cur <= old(self).buf@.len(),
        ensures
            r@ == redraw_text(old(self)@),
            final(self)@ == (EditorView { screen: old(self).cur as int, ..old(self)@ }),
            *final(self) == (Editor { screen: old(self).cur, ..*old(self) }),
    {
        let mut out: Vec<u8> = Vec::new();
        push_left(&mut out, self.screen);
        push_str(&mut out, "\x1b[K");
        append_bytes(&mut out, &self.buf);
        push_left(&mut out, self.buf.len() - self.cur);
        self.screen = self.cur;
        assert(out@ =~= redraw_text(old(self)@));
        out
    }

    /// Calls up the line of the history before the one that is shown.
    fn hist_prev(&mut self, hist: &History) -> (r: Vec<u8>)
        requires
            editor_ok(old(self)@, hist@),
        ensures
            did(final(self)@, hist@, r@, None, earlier(old(self)@, hist@)),
            editor_ok(final(self)@, hist@),
    {
        let ghost e0 = self@;
        if self.hist_pos == 0 {
            let r: Vec<u8> = Vec::new();
            assert(r@ =~= Seq::empty());
            return r;
        }
        if self.hist_pos == hist.lines.len() {
            self.stash = Some(copy_of(&self.buf));
        }
        self.hist_pos = self.hist_pos - 1;
        self.buf = copy_of(&hist.lines[self.hist_pos]);
        assert(self.buf@ == hist@[e0.hist_pos - 1]);
        self.cur = self.buf.len();
        let ghost e1 = self@;
        let r: Vec<u8> = self.redraw();
        assert(self@ =~= earlier(e0, hist@).e);
        assert(r@ == redraw_text(e1));
        r
    }

    /// Calls up the line of the history after the one that is shown.
    fn hist_next(&mut self, hist: &History) -> (r: Vec<u8>)
        requires
            editor_ok(old(self)@, hist@),
        ensures
            did(final(self)@, hist@, r@, None, later(old(self)@, hist@)),
            editor_ok(final(self)@, hist@),
    {
        let ghost e0 = self@;
        if self.hist_pos >= hist.lines.len() {
            let r: Vec<u8> = Vec::new();
            assert(r@ =~= Seq::empty());
            return r;
        }
        self.hist_pos = self.hist_pos + 1;
        if self.hist_pos == hist.lines.len() {
            let kept: Option<Vec<u8>> = self.stash.take();
            self.buf = match kept {
                Some(s) => s,
                None => Vec::new(),
            };
            assert(e0.stash is None ==> self.buf@ =~= Seq::empty());
        } else {
            self.buf = copy_of(&hist.lines[self.hist_pos]);
            assert(self.buf@ == hist@[e0.hist_pos + 1]);
        }
        self.cur = self.buf.len();
        let ghost e1 = self@;
        let r: Vec<u8> = self.redraw();
        assert(self@ =~= later(e0, hist@).e);
        assert(r@ == redraw_text(e1));
        r
    }

    fn letter(&mut self, b: u8, hist: &History) -> (r: Vec<u8>)
        requires
            editor_ok(old(self)@, hist@),
        ensures
            did(final(self)@, hist@, r@, None, letter_key(old(self)@, hist@, b)),
            editor_ok(final(self)@, hist@),
    {
        let ghost e0 = self@;
        let none: Vec<u8> = Vec::new();
        assert(none@ =~= Seq::empty());
        if b == 65 {
            return self.hist_prev(hist);
        }
        if b == 66 {
            return self.hist_next(hist);
        }
        if b == 67 && self.cur < self.buf.len() {
            self.cur = self.cur + 1;
            assert(self@ =~= EditorView { cur: e0.cur + 1, ..e0 });
            return self.redraw();
        }
        if b == 68 && self.cur > 0 {
            self.cur = self.cur - 1;
            assert(self@ =~= EditorView { cur: e0.cur - 1, ..e0 });
            return self.redraw();
        }
        if b == 72 {
            self.cur = 0;
            assert(self@ =~= EditorView { cur: 0, ..e0 });
            return self.redraw();
        }
        if b == 70 {
            self.cur = self.buf.len();
            assert(self@ =~= EditorView { cur: e0.buf.len() as int, ..e0 });
            return self.redraw();
        }
        none
    }

    /// Takes a byte in. What is to be shown is put into `echo`; the line comes
    /// back when it is finished.
    pub fn key(&mut self, b: u8, hist: &mut History, echo: &mut Vec<u8>) -> (r: Option<Vec<u8>>)
        requires
            editor_ok(old(self)@, old(hist)@),
            old(self).buf@.len() < usize::MAX,
        ensures
            ({
                let t = typed(old(self)@, old(hist)@, b);
                &&& final(self)@ == t.e
                &&& final(hist)@ == t.hist
                &&& final(echo)@ == old(echo)@ + t.echo
                &&& match r {
                    Some(l) => t.line == Some(l@),
                    None => t.line is None,
                }
            }),
            editor_ok(final(self)@, final(hist)@),
    {
        self.tries = 0;
        let ghost e0 = self@;
        let ghost h0 = hist@;
        let ghost x0 = echo@;
        assert(e0 =~= EditorView { tries: 0, ..old(self)@ });
        assert(e0 =~= EditorView { tries: 0, ..e0 });
        assert(x0 + Seq::<u8>::empty() =~= x0);
        match self.esc {
            Esc::Start => {
                self.esc = if b == 91 {
                    Esc::Bracket
                } else {
                    Esc::Outside
                };
                assert(self@ =~= typed(e0, h0, b).e);
                None
            },
            Esc::Bracket => {
                if b == 51 {
                    self.esc = Esc::Three;
                    assert(self@ =~= typed(e0, h0, b).e);
                    return None;
                }
                self.esc = Esc::Outside;
                assert(self@ =~= EditorView { esc: Esc::Outside, ..e0 });
                let out: Vec<u8> = self.letter(b, hist);
                append_bytes(echo, &out);
                None
            },
            Esc::Three => {
                self.esc = Esc::Outside;
                if b == 126 && self.cur < self.buf.len() {
                    self.buf.remove(self.cur);
                    assert(self@ =~= EditorView {
                        buf: e0.buf.remove(e0.cur),
                        esc: Esc::Outside,
                        ..e0
                    });
                    let out: Vec<u8> = self.redraw();
                    append_bytes(echo, &out);
                } else {
                    assert(self@ =~= EditorView { esc: Esc::Outside, ..e0 });
                }
                None
            },
            Esc::Outside => {
                if b == 10 || b == 13 {
                    hist.commit(self.record, &self.buf);
                    let line: Vec<u8> = text_or_empty(copy_of(&self.buf));
                    self.buf = Vec::new();
                    self.cur = 0;
                    assert(self@ =~= typed(e0, h0, b).e);
                    echo.push(10);
                    assert(echo@ =~= x0 + seq![10u8]);
                    return Some(line);
                }
                if b == 8 {
                    if self.cur > 0 {
                        self.buf.remove(self.cur - 1);
                        self.cur = self.cur - 1;
                        assert(self@ =~= EditorView {
                            buf: e0.buf.remove(e0.cur - 1),
                            cur: e0.cur - 1,
                            ..e0
                        });
                        let out: Vec<u8> = self.redraw();
                        append_bytes(echo, &out);
                    }
                    return None;
                }
                if b == 0x1B {
                    self.esc = Esc::Start;
                    assert(self@ =~= EditorView { esc: Esc::Start, ..e0 });
                    return None;
                }
                if 0x20 <= b && b <= 0x7E {
                    self.buf.insert(self.cur, b);
                    self.cur = self.cur + 1;
                    assert(self@ =~= EditorView {
                        buf: e0.buf.insert(e0.cur, b),
                        cur: e0.cur + 1,
                        ..e0
                    });
                    let out: Vec<u8> = self.redraw();
                    append_bytes(echo, &out);
                }
                None
            },
        }
    }

    /// No byte came. If the rest of an escape sequence does not come for long
    /// enough, it was just the key.
    pub fn quiet(&mut self)
        requires
            old(self).tries < ESC_TRIES,
        ensures
            final(self)@ == unheard(old(self)@),
            final(self).tries < ESC_TRIES,
    {
        let ghost e0 = self@;
        match self.esc {
            Esc::Outside => {},
            _ => {
                if self.tries + 1 < ESC_TRIES {
                    self.tries = self.tries + 1;
                } else {
                    self.esc = Esc::Outside;
                    self.tries = 0;
                }
            },
        }
        assert(self@ =~= unheard(e0));
    }
}

// ── Laws ──

/// The keys of one escape sequence.
pub open spec fn sequence(e: EditorView, hist: Seq<Seq<u8>>, letter: u8) -> EditorView {
    typed(typed(typed(e, hist, 0x1B).e, hist, 91).e, hist, letter).e
}

/// Backspace takes back what was typed before it: the line and the cursor are
/// as they were.
pub proof fn law_backspace_undoes_typing(e: EditorView, hist: Seq<Seq<u8>>, b: u8)
    requires
        editor_ok(e, hist),
        e.esc is Outside,
        0x20 <= b <= 0x7E,
    ensures
        ({
            let a = typed(typed(e, hist, b).e, hist, 8).e;
            a.buf == e.buf && a.cur == e.cur
        }),
{
    assert(e.buf.insert(e.cur, b).remove(e.cur) =~= e.buf);
}

/// The key up and then the key down lead back to the line being typed, with the
/// cursor at its end.
pub proof fn law_history_and_back(e: EditorView, hist: Seq<Seq<u8>>)
    requires
        editor_ok(e, hist),
        e.esc is Outside,
        e.hist_pos == hist.len(),
    ensures
        ({
            let a = sequence(sequence(e, hist, 65), hist, 66);
            a.buf == e.buf && a.hist_pos == e.hist_pos && (hist.len() > 0 ==> a.cur
                == e.buf.len())
        }),
{
}

/// The line after it was looked for a byte some times in vain.
pub open spec fn unheard_for(e: EditorView, n: nat) -> EditorView
    decreases n,
{
    if n == 0 {
        e
    } else {
        unheard(unheard_for(e, (n - 1) as nat))
    }
}

proof fn lemma_unheard_for(e: EditorView, n: nat)
    requires
        !(e.esc is Outside),
        e.tries == 0,
        n < ESC_TRIES,
    ensures
        unheard_for(e, n) == (EditorView { tries: n as int, ..e }),
    decreases n,
{
    if n > 0 {
        lemma_unheard_for(e, (n - 1) as nat);
    }
}

/// The escape key alone does nothing: if nothing follows it, what is typed next
/// is typed as if it had not been pressed.
pub proof fn law_lone_escape_is_dropped(e: EditorView, hist: Seq<Seq<u8>>)
    requires
        editor_ok(e, hist),
        e.esc is Outside,
        e.tries == 0,
    ensures
        unheard_for(typed(e, hist, 0x1B).e, ESC_TRIES as nat) == e,
        typed(e, hist, 0x1B).echo.len() == 0,
{
    let a = typed(e, hist, 0x1B).e;
    lemma_unheard_for(a, (ESC_TRIES - 1) as nat);
    assert(unheard_for(a, ESC_TRIES as nat) =~= e);
}

/// A finished line is the last of the history, unless it is empty or is not to
/// be kept.
pub proof fn law_history_ends_with_line(e: EditorView, hist: Seq<Seq<u8>>)
    requires
        editor_ok(e, hist),
        e.esc is Outside,
        e.record,
        e.buf.len() > 0,
    ensures
        ({
            let t = typed(e, hist, 10);
            t.hist.len() > 0 && t.line == Some(t.hist.last())
        }),
{
}

} // verus!
