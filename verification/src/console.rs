//! The console: a screen of 25 rows of 80 characters. Writing happens in the
//! last row; what does not fit moves the screen up.
use vstd::prelude::*;

use crate::fs::codes::{DEV_CONSOLE, DEV_OPEN, DEV_READ, DEV_WRITE, ERR};

verus! {

pub const ROWS: usize = 25;

pub const COLS: usize = 80;

/// How many cells there are.
pub const CELLS: usize = 2000;

/// Where the last row starts.
pub const LAST: usize = 1920;

/// The colour of all cells: white on black.
pub const COLOR: u8 = 0x0F;

/// The screen: the characters of all cells, row by row, and the column where
/// the next one goes.
pub struct Screen {
    pub cells: Vec<u8>,
    pub cursor: usize,
}

/// The screen as a value.
#[verifier::ext_equal]
pub struct ScreenView {
    pub cells: Seq<u8>,
    pub cursor: int,
}

impl View for Screen {
    type V = ScreenView;

    open spec fn view(&self) -> ScreenView {
        ScreenView { cells: self.cells@, cursor: self.cursor as int }
    }
}

/// All cells are there, and the cursor is in the row.
pub open spec fn screen_ok(s: ScreenView) -> bool {
    s.cells.len() == CELLS && 0 <= s.cursor < COLS
}

/// The character of a cell.
pub open spec fn cell(s: ScreenView, row: int, col: int) -> u8 {
    s.cells[row * 80 + col]
}

pub open spec fn blank_screen() -> ScreenView {
    ScreenView { cells: Seq::new(2000, |i: int| 32u8), cursor: 0 }
}

/// The screen moved up by a row: each row is what the one below it was, the
/// last is blank.
pub open spec fn scrolled(cells: Seq<u8>) -> Seq<u8> {
    Seq::new(
        2000,
        |i: int|
            if i < LAST {
                cells[i + COLS]
            } else {
                32u8
            },
    )
}

/// The screen after a byte: a form feed clears it, a line feed moves it up, a
/// carriage return goes to the start of the row, a backspace takes a character
/// back, a printable character is written. Anything else does nothing.
pub open spec fn written(s: ScreenView, b: u8) -> ScreenView {
    if b == 12 {
        blank_screen()
    } else if b == 10 {
        ScreenView { cells: scrolled(s.cells), cursor: 0 }
    } else if b == 13 {
        ScreenView { cursor: 0, ..s }
    } else if b == 8 {
        if s.cursor > 0 {
            ScreenView { cells: s.cells.update(LAST + s.cursor - 1, 32), cursor: s.cursor - 1 }
        } else {
            s
        }
    } else if 0x20 <= b <= 0x7E {
        let cells = s.cells.update(LAST + s.cursor, b);
        if s.cursor + 1 >= COLS {
            ScreenView { cells: scrolled(cells), cursor: 0 }
        } else {
            ScreenView { cells, cursor: s.cursor + 1 }
        }
    } else {
        s
    }
}

/// The screen after some bytes.
pub open spec fn written_all(s: ScreenView, data: Seq<u8>) -> ScreenView
    decreases data.len(),
{
    if data.len() == 0 {
        s
    } else {
        written(written_all(s, data.drop_last()), data.last())
    }
}

/// What is answered to a request: a word, and bytes for the one who reads.
pub struct Answer {
    pub reply: u64,
    pub frame: Option<Vec<u8>>,
}

impl Screen {
    /// A blank screen.
    pub fn new() -> (r: Screen)
        ensures
            r@ == blank_screen(),
            screen_ok(r@),
    {
        let mut cells: Vec<u8> = Vec::new();
        while cells.len() < CELLS
            invariant
                cells@.len() <= CELLS,
                forall|i: int| 0 <= i < cells@.len() ==> #[trigger] cells@[i] == 32,
            decreases CELLS - cells.len(),
        {
            cells.push(32);
        }
        let r = Screen { cells, cursor: 0 };
        assert(r@ =~= blank_screen());
        r
    }

    fn clear(&mut self)
        requires
            old(self).cells@.len() == CELLS,
        ensures
            final(self)@ == blank_screen(),
    {
        let mut i: usize = 0;
        while i < CELLS
            invariant
                i <= CELLS,
                self.cells@.len() == CELLS,
                forall|k: int| 0 <= k < i ==> #[trigger] self.cells@[k] == 32,
            decreases CELLS - i,
        {
            self.cells.set(i, 32);
            i = i + 1;
        }
        self.cursor = 0;
        assert(self@ =~= blank_screen());
    }

    fn scroll(&mut self)
        requires
            old(self).cells@.len() == CELLS,
        ensures
            final(self)@ == (ScreenView { cells: scrolled(old(self).cells@), cursor: 0 }),
    {
        let ghost c0 = self.cells@;
        let mut i: usize = 0;
        while i < LAST
            invariant
                i <= LAST,
                self.cells@.len() == CELLS,
                c0.len() == CELLS,
                forall|k: int| 0 <= k < i ==> #[trigger] self.cells@[k] == c0[k + COLS],
                forall|k: int| i <= k < CELLS ==> #[trigger] self.cells@[k] == c0[k],
            decreases LAST - i,
        {
            let b: u8 = self.cells[i + COLS];
            assert(b == c0[i + COLS]);
            self.cells.set(i, b);
            i = i + 1;
        }
        while i < CELLS
            invariant
                LAST <= i <= CELLS,
                self.cells@.len() == CELLS,
                forall|k: int| 0 <= k < LAST ==> #[trigger] self.cells@[k] == c0[k + COLS],
                forall|k: int| LAST <= k < i ==> #[trigger] self.cells@[k] == 32,
            decreases CELLS - i,
        {
            self.cells.set(i, 32);
            i = i + 1;
        }
        self.cursor = 0;
        assert(self@ =~= ScreenView { cells: scrolled(c0), cursor: 0 });
    }

    /// Writes a byte.
    pub fn vga_write_char(&mut self, b: u8)
        requires
            screen_ok(old(self)@),
        ensures
            final(self)@ == written(old(self)@, b),
            screen_ok(final(self)@),
    {
        let ghost s0 = self@;
        if b == 12 {
            self.clear();
        } else if b == 10 {
            self.scroll();
        } else if b == 13 {
            self.cursor = 0;
            assert(self@ =~= ScreenView { cursor: 0, ..s0 });
        } else if b == 8 {
            if self.cursor > 0 {
                self.cursor = self.cursor - 1;
                self.cells.set(LAST + self.cursor, 32);
                assert(self@ =~= written(s0, b));
            }
        } else if 0x20 <= b && b <= 0x7E {
            self.cells.set(LAST + self.cursor, b);
            if self.cursor + 1 >= COLS {
                self.scroll();
            } else {
                self.cursor = self.cursor + 1;
            }
            assert(self@ =~= written(s0, b));
        }
    }

    /// Writes some bytes.
    pub fn write(&mut self, data: &[u8])
        requires
            screen_ok(old(self)@),
        ensures
            final(self)@ == written_all(old(self)@, data@),
            screen_ok(final(self)@),
    {
        let ghost s0 = self@;
        let mut i: usize = 0;
        assert(data@.take(0) =~= Seq::empty());
        while i < data.len()
            invariant
                i <= data@.len(),
                screen_ok(self@),
                self@ == written_all(s0, data@.take(i as int)),
            decreases data.len() - i,
        {
            assert(data@.take(i + 1).drop_last() =~= data@.take(i as int));
            assert(data@.take(i + 1).last() == data@[i as int]);
            self.vga_write_char(data[i]);
            i = i + 1;
        }
        assert(data@.take(data@.len() as int) =~= data@);
    }

    /// What is written to the screen's registers to put the cursor that is seen
    /// where the next character goes: the two bytes of the cell's number, the
    /// high one first.
    pub fn hw_cursor(&self) -> (r: (u8, u8))
        requires
            screen_ok(self@),
        ensures
            r.0 * 256 + r.1 == LAST + self.cursor,
    {
        let offset: usize = LAST + self.cursor;
        ((offset / 256) as u8, (offset % 256) as u8)
    }

    /// Serves a request. `data` is what came with a write. Nothing can be read.
    pub fn serve(&mut self, tag: u64, w0: u64, w1: u64, data: &[u8]) -> (r: Answer)
        requires
            screen_ok(old(self)@),
        ensures
            screen_ok(final(self)@),
            final(self)@ == (if tag == DEV_WRITE {
                written_all(old(self)@, data@)
            } else {
                old(self)@
            }),
            r.reply == (if tag == DEV_OPEN && w0 != DEV_CONSOLE {
                ERR
            } else if tag == DEV_WRITE {
                w1
            } else {
                0
            }),
            r.frame is Some <==> tag == DEV_READ,
            r.frame is Some ==> r.frame->0@ == Seq::<u8>::empty(),
    {
        if tag == DEV_OPEN {
            let v: u64 = if w0 == DEV_CONSOLE {
                0
            } else {
                ERR
            };
            return Answer { reply: v, frame: None };
        }
        if tag == DEV_READ {
            let f: Vec<u8> = Vec::new();
            assert(f@ =~= Seq::empty());
            return Answer { reply: 0, frame: Some(f) };
        }
        if tag == DEV_WRITE {
            self.write(data);
            return Answer { reply: w1, frame: None };
        }
        Answer { reply: 0, frame: None }
    }
}

// ── Laws ──

/// A text that fits in the row is shown in the last row as it is written, from
/// the cursor on; the rest of the screen stays.
pub proof fn law_text_is_shown(s: ScreenView, text: Seq<u8>)
    requires
        screen_ok(s),
        s.cursor + text.len() < COLS,
        forall|i: int| 0 <= i < text.len() ==> 0x20 <= #[trigger] text[i] <= 0x7E,
    ensures
        ({
            let t = written_all(s, text);
            &&& screen_ok(t)
            &&& t.cursor == s.cursor + text.len()
            &&& forall|i: int|
                0 <= i < CELLS ==> #[trigger] t.cells[i] == (if LAST + s.cursor <= i < LAST
                    + t.cursor {
                    text[i - LAST - s.cursor]
                } else {
                    s.cells[i]
                })
        }),
    decreases text.len(),
{
    if text.len() > 0 {
        let most = text.drop_last();
        assert(0x20 <= text[text.len() - 1] <= 0x7E);
        assert forall|i: int| 0 <= i < most.len() implies 0x20 <= #[trigger] most[i] <= 0x7E by {
            assert(text[i] == most[i]);
        }
        law_text_is_shown(s, most);
        let u = written_all(s, most);
        let t = written_all(s, text);
        assert(t == written(u, text.last()));
        assert forall|i: int| 0 <= i < CELLS implies #[trigger] t.cells[i] == (if LAST + s.cursor
            <= i < LAST + t.cursor {
            text[i - LAST - s.cursor]
        } else {
            s.cells[i]
        }) by {
            assert(u.cells[i] == (if LAST + s.cursor <= i < LAST + u.cursor {
                most[i - LAST - s.cursor]
            } else {
                s.cells[i]
            }));
        }
    }
}

/// A line end moves every row up by one and blanks the last.
pub proof fn law_line_end_moves_up(s: ScreenView, row: int, col: int)
    requires
        screen_ok(s),
        0 <= row < ROWS,
        0 <= col < COLS,
    ensures
        cell(written(s, 10), row, col) == (if row + 1 < ROWS {
            cell(s, row + 1, col)
        } else {
            32u8
        }),
{
}

/// A backspace takes back a character that was written where the row was
/// blank, if it did not end the row.
pub proof fn law_backspace_erases(s: ScreenView, b: u8)
    requires
        screen_ok(s),
        0x20 <= b <= 0x7E,
        s.cursor + 1 < COLS,
        cell(s, 24, s.cursor) == 32,
    ensures
        written(written(s, b), 8) == s,
{
    assert(written(written(s, b), 8).cells =~= s.cells);
}

/// A character in the last column ends the row: the row moves up with it, and
/// the next one starts at the left.
pub proof fn law_full_row_moves_up(s: ScreenView, b: u8, row: int, col: int)
    requires
        screen_ok(s),
        s.cursor == COLS - 1,
        0x20 <= b <= 0x7E,
        0 <= row < ROWS,
        0 <= col < COLS,
    ensures
        written(s, b).cursor == 0,
        cell(written(s, b), row, col) == (if row == ROWS - 1 {
            32u8
        } else if row == ROWS - 2 && col == COLS - 1 {
            b
        } else {
            cell(s, row + 1, col)
        }),
{
}

/// A form feed leaves nothing on the screen; a carriage return leaves all and
/// goes to the left; other control bytes change nothing.
pub proof fn law_control_bytes(s: ScreenView, b: u8, row: int, col: int)
    requires
        screen_ok(s),
        0 <= row < ROWS,
        0 <= col < COLS,
    ensures
        cell(written(s, 12), row, col) == 32,
        written(s, 12).cursor == 0,
        cell(written(s, 13), row, col) == cell(s, row, col),
        written(s, 13).cursor == 0,
        s.cursor == 0 ==> written(s, 8) == s,
        (b < 8 || b == 9 || b == 11 || 14 <= b < 0x20 || b >= 0x7F) ==> written(s, b) == s,
{
}

/// What is written in two parts is shown as if it were written at once.
pub proof fn law_writes_follow_each_other(s: ScreenView, a: Seq<u8>, b: Seq<u8>)
    ensures
        written_all(s, a + b) == written_all(written_all(s, a), b),
    decreases b.len(),
{
    if b.len() == 0 {
        assert(a + b =~= a);
    } else {
        assert((a + b).drop_last() =~= a + b.drop_last());
        law_writes_follow_each_other(s, a, b.drop_last());
    }
}

} // verus!
