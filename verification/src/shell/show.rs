//! The commands that show a file, `cat`, `wc` and `hexdump`: what they print of
//! each piece that was read, and at the end.
//!
//! A file ends at the first read that fails or brings nothing.
use vstd::prelude::*;

use super::builtins::Builtin;
use super::info;
use super::info::{hexdump_row, Wc};
use crate::bytes;
use crate::bytes::{copy_of, is_utf8};

verus! {

/// How much is read at once.
pub const SHOW_ROOM: usize = 4096;

/// How many bytes a row of a dump has.
pub const DUMP_ROOM: usize = 16;

/// A command that shows a file.
#[derive(Clone, Copy, PartialEq, Eq, Debug, Structural)]
pub enum Show {
    Cat,
    Wc(Wc),
    /// The offset of the next row.
    Hexdump(u64),
}

/// A command that shows a file, as a value.
pub enum ShowView {
    Cat,
    Wc(info::WcView),
    Hexdump(int),
}

impl View for Show {
    type V = ShowView;

    open spec fn view(&self) -> ShowView {
        match *self {
            Show::Cat => ShowView::Cat,
            Show::Wc(w) => ShowView::Wc(w@),
            Show::Hexdump(off) => ShowView::Hexdump(off as int),
        }
    }
}

/// The commands that show a file.
pub open spec fn shows(b: Builtin) -> bool {
    match b {
        Builtin::Cat | Builtin::Wc | Builtin::Hexdump => true,
        _ => false,
    }
}

pub open spec fn show_start(b: Builtin) -> ShowView {
    match b {
        Builtin::Wc => ShowView::Wc(
            info::WcView { lines: 0, words: 0, bytes: 0, in_word: false },
        ),
        Builtin::Hexdump => ShowView::Hexdump(0),
        _ => ShowView::Cat,
    }
}

/// The command after a piece more.
pub open spec fn show_next(s: ShowView, piece: Seq<u8>) -> ShowView {
    match s {
        ShowView::Cat => ShowView::Cat,
        ShowView::Wc(w) => ShowView::Wc(info::wc_all(w, piece)),
        ShowView::Hexdump(off) => ShowView::Hexdump(off + piece.len()),
    }
}

/// What is printed of a piece. `cat` leaves a piece out that is not text.
pub open spec fn show_text(s: ShowView, piece: Seq<u8>) -> Seq<u8> {
    match s {
        ShowView::Cat => if vstd::utf8::valid_utf8(piece) {
            piece
        } else {
            Seq::empty()
        },
        ShowView::Wc(_) => Seq::empty(),
        ShowView::Hexdump(off) => info::hexdump_text(off, piece),
    }
}

/// What is printed at the end.
pub open spec fn end_text(s: ShowView, name: Seq<u8>) -> Seq<u8> {
    match s {
        ShowView::Cat => bytes::lit("\n"),
        ShowView::Wc(w) => info::wc_text(w, name),
        ShowView::Hexdump(_) => Seq::empty(),
    }
}

impl Show {
    /// The counts are right, and have room for a piece of `n` bytes.
    pub open spec fn has_room(&self, n: int) -> bool {
        match *self {
            Show::Cat => true,
            Show::Wc(w) => w.wf() && w.bytes + n <= u64::MAX,
            Show::Hexdump(off) => off + n <= u64::MAX,
        }
    }

    /// A command that begins.
    pub fn new(b: Builtin) -> (r: Show)
        requires
            shows(b),
        ensures
            r@ == show_start(b),
            r.has_room(0xFFFF_FFFF),
    {
        match b {
            Builtin::Wc => Show::Wc(Wc::new()),
            Builtin::Hexdump => Show::Hexdump(0),
            _ => Show::Cat,
        }
    }

    /// How many bytes are to be read next.
    pub fn room(&self) -> (r: usize)
        ensures
            r == (if self@ is Hexdump {
                DUMP_ROOM
            } else {
                SHOW_ROOM
            }),
    {
        match self {
            Show::Hexdump(_) => DUMP_ROOM,
            _ => SHOW_ROOM,
        }
    }

    /// Takes a piece in, and gives what is printed of it.
    pub fn piece(&mut self, piece: &[u8]) -> (r: Vec<u8>)
        requires
            old(self).has_room(piece@.len() as int),
        ensures
            final(self).has_room(0),
            final(self)@ == show_next(old(self)@, piece@),
            r@ == show_text(old(self)@, piece@),
    {
        let none: Vec<u8> = Vec::new();
        assert(none@ =~= Seq::empty());
        match *self {
            Show::Cat => {
                if is_utf8(piece) {
                    copy_of(piece)
                } else {
                    none
                }
            },
            Show::Wc(w) => {
                let mut more: Wc = w;
                more.count(piece);
                *self = Show::Wc(more);
                none
            },
            Show::Hexdump(off) => {
                *self = Show::Hexdump(off + piece.len() as u64);
                hexdump_row(off, piece)
            },
        }
    }

    /// What is printed at the end.
    pub fn end(&self, name: &[u8]) -> (r: Vec<u8>)
        ensures
            r@ == end_text(self@, name@),
    {
        match self {
            Show::Cat => copy_of("\n".as_bytes()),
            Show::Wc(w) => w.report(name),
            Show::Hexdump(_) => {
                let none: Vec<u8> = Vec::new();
                assert(none@ =~= Seq::empty());
                none
            },
        }
    }
}

/// The command after some pieces.
pub open spec fn show_after(s: ShowView, pieces: Seq<Seq<u8>>) -> ShowView
    decreases pieces.len(),
{
    if pieces.len() == 0 {
        s
    } else {
        show_next(show_after(s, pieces.drop_last()), pieces.last())
    }
}

/// What is printed of some pieces.
pub open spec fn show_all(s: ShowView, pieces: Seq<Seq<u8>>) -> Seq<u8>
    decreases pieces.len(),
{
    if pieces.len() == 0 {
        Seq::empty()
    } else {
        show_all(s, pieces.drop_last()) + show_text(
            show_after(s, pieces.drop_last()),
            pieces.last(),
        )
    }
}

/// The pieces, put together.
pub open spec fn whole(pieces: Seq<Seq<u8>>) -> Seq<u8>
    decreases pieces.len(),
{
    if pieces.len() == 0 {
        Seq::empty()
    } else {
        whole(pieces.drop_last()) + pieces.last()
    }
}

/// `wc` counts the file, however it is read: in the end it prints the counts of
/// all its bytes.
pub proof fn law_wc_counts_the_file(pieces: Seq<Seq<u8>>, name: Seq<u8>)
    ensures
        end_text(show_after(show_start(Builtin::Wc), pieces), name) == info::wc_text(
            info::wc_all(
                info::WcView { lines: 0, words: 0, bytes: 0, in_word: false },
                whole(pieces),
            ),
            name,
        ),
        show_all(show_start(Builtin::Wc), pieces) == Seq::<u8>::empty(),
{
    lemma_wc_after(pieces);
}

proof fn lemma_wc_after(pieces: Seq<Seq<u8>>)
    ensures
        show_after(show_start(Builtin::Wc), pieces) == ShowView::Wc(
            info::wc_all(
                info::WcView { lines: 0, words: 0, bytes: 0, in_word: false },
                whole(pieces),
            ),
        ),
        show_all(show_start(Builtin::Wc), pieces) == Seq::<u8>::empty(),
    decreases pieces.len(),
{
    if pieces.len() > 0 {
        let w = info::WcView { lines: 0, words: 0, bytes: 0, in_word: false };
        lemma_wc_after(pieces.drop_last());
        info::law_wc_pieces(w, whole(pieces.drop_last()), pieces.last());
    }
}

/// `cat` prints a file of text as it is, and a line end after it.
pub proof fn law_cat_prints_the_file(pieces: Seq<Seq<u8>>, name: Seq<u8>)
    requires
        forall|i: int| 0 <= i < pieces.len() ==> vstd::utf8::valid_utf8(#[trigger] pieces[i]),
    ensures
        show_all(show_start(Builtin::Cat), pieces) + end_text(
            show_after(show_start(Builtin::Cat), pieces),
            name,
        ) == whole(pieces) + bytes::lit("\n"),
{
    lemma_cat_all(pieces);
}

proof fn lemma_cat_all(pieces: Seq<Seq<u8>>)
    requires
        forall|i: int| 0 <= i < pieces.len() ==> vstd::utf8::valid_utf8(#[trigger] pieces[i]),
    ensures
        show_after(show_start(Builtin::Cat), pieces) == ShowView::Cat,
        show_all(show_start(Builtin::Cat), pieces) == whole(pieces),
    decreases pieces.len(),
{
    if pieces.len() > 0 {
        assert(pieces.last() == pieces[pieces.len() - 1]);
        assert forall|i: int| 0 <= i < pieces.drop_last().len() implies vstd::utf8::valid_utf8(
            #[trigger] pieces.drop_last()[i],
        ) by {
            assert(pieces.drop_last()[i] == pieces[i]);
        }
        lemma_cat_all(pieces.drop_last());
    }
}

} // verus!
