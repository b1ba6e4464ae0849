//! Redirections: which files are opened for a command, in what order, and
//! which descriptors are closed again.
//!
//! All targets are opened, in order. For one stream the last one counts; those
//! before it are created or emptied all the same. `2>&1` makes stream 2 what
//! stream 1 is at that moment.
use vstd::prelude::*;

use super::cwd;
use super::cwd::Cwd;
use crate::bytes;
use crate::bytes::push_str;
use crate::fs::codes::{O_APPEND, O_CREAT, O_TRUNC};

verus! {

/// A redirection of a command that is about to run: stream 0, 1 or 2, and its
/// target. `2>&1` has no target; the target of a here-document is the line that
/// ends it.
pub struct Redirect {
    pub slot: u8,
    pub append: bool,
    pub dup_to_1: bool,
    pub target: Vec<u8>,
    pub heredoc: bool,
    /// The text of a here-document, once it is read.
    pub body: Option<Vec<u8>>,
}

/// A redirection as a value.
#[verifier::ext_equal]
pub struct RedirectView {
    pub slot: u8,
    pub append: bool,
    pub dup_to_1: bool,
    pub target: Seq<u8>,
    pub heredoc: bool,
    pub body: Option<Seq<u8>>,
}

impl View for Redirect {
    type V = RedirectView;

    open spec fn view(&self) -> RedirectView {
        RedirectView {
            slot: self.slot,
            append: self.append,
            dup_to_1: self.dup_to_1,
            target: self.target@,
            heredoc: self.heredoc,
            body: match self.body {
                Some(b) => Some(b@),
                None => None,
            },
        }
    }
}

pub open spec fn redirect_views(v: Seq<Redirect>) -> Seq<RedirectView> {
    Seq::new(v.len(), |i: int| v[i]@)
}

/// The descriptors of the three streams; -1 where there is none.
pub type Fds = [i64; 3];

/// No descriptor.
pub const NO_FD: i64 = -1;

pub open spec fn no_fds() -> Seq<i64> {
    seq![NO_FD, NO_FD, NO_FD]
}

/// What is closed when a stream lets go of its descriptor: that descriptor,
/// unless another stream has it too or it is one of `keep`.
pub open spec fn let_go(fds: Seq<i64>, slot: int, keep: Seq<i64>) -> Seq<i64> {
    let fd = fds[slot];
    if fd >= 0 && !fds.update(slot, NO_FD).contains(fd) && !keep.contains(fd) {
        seq![fd]
    } else {
        Seq::empty()
    }
}

fn holds(fds: &Fds, fd: i64) -> (r: bool)
    ensures
        r == fds@.contains(fd),
{
    assert(fds@.len() == 3);
    if fds[0] == fd {
        assert(fds@[0] == fd);
        return true;
    }
    if fds[1] == fd {
        assert(fds@[1] == fd);
        return true;
    }
    if fds[2] == fd {
        assert(fds@[2] == fd);
        return true;
    }
    false
}

/// Empties a stream. What is to be closed is put into `closes`.
pub fn drop_slot(fds: &mut Fds, slot: usize, keep: &Fds, closes: &mut Vec<i64>)
    requires
        slot < 3,
    ensures
        final(fds)@ == old(fds)@.update(slot as int, NO_FD),
        final(closes)@ == old(closes)@ + let_go(old(fds)@, slot as int, keep@),
{
    let fd: i64 = fds[slot];
    fds[slot] = -1;
    if fd >= 0 {
        if !holds(fds, fd) && !holds(keep, fd) {
            closes.push(fd);
        }
    }
    assert(fds@ =~= old(fds)@.update(slot as int, NO_FD));
    assert(closes@ =~= old(closes)@ + let_go(old(fds)@, slot as int, keep@));
}

/// The stream that a redirection is of.
pub open spec fn slot_of(slot: u8) -> int {
    if slot == 0 {
        0
    } else if slot == 1 {
        1
    } else {
        2
    }
}

/// How a target is opened: for reading, it has to exist; for writing it is
/// created, and written on or emptied.
pub open spec fn open_flags(slot: u8, append: bool) -> u32 {
    if slot == 0 {
        0
    } else if append {
        O_CREAT | O_APPEND
    } else {
        O_CREAT | O_TRUNC
    }
}

/// What the next redirection needs.
#[verifier::ext_equal]
pub enum NeedView {
    /// Its target is to be opened.
    Open { path: Seq<u8>, flags: u32 },
    /// Nothing: it opens no file.
    Nothing,
    /// There is no further one.
    Done,
}

pub enum Need {
    Open { path: Vec<u8>, flags: u32 },
    Nothing,
    Done,
}

impl View for Need {
    type V = NeedView;

    open spec fn view(&self) -> NeedView {
        match *self {
            Need::Open { path, flags } => NeedView::Open { path: path@, flags },
            Need::Nothing => NeedView::Nothing,
            Need::Done => NeedView::Done,
        }
    }
}

pub open spec fn need_of(redirs: Seq<RedirectView>, at: int, dir: Seq<u8>) -> NeedView {
    if at >= redirs.len() {
        NeedView::Done
    } else {
        let r = redirs[at];
        if r.dup_to_1 || r.heredoc {
            NeedView::Nothing
        } else {
            NeedView::Open {
                path: cwd::resolved(dir, r.target),
                flags: open_flags(r.slot, r.append),
            }
        }
    }
}

/// The descriptors after a redirection.
pub open spec fn fds_after(fds: Seq<i64>, r: RedirectView, opened: Option<i64>) -> Seq<i64> {
    if r.heredoc {
        fds
    } else if r.dup_to_1 {
        fds.update(2, fds[1])
    } else {
        match opened {
            Some(fd) => fds.update(slot_of(r.slot), fd),
            None => no_fds(),
        }
    }
}

/// What is closed at a redirection. If its target cannot be opened, that is
/// everything opened before it.
pub open spec fn closed_by(
    fds: Seq<i64>,
    r: RedirectView,
    opened: Option<i64>,
    keep: Seq<i64>,
) -> Seq<i64> {
    if r.heredoc {
        Seq::empty()
    } else if r.dup_to_1 {
        let_go(fds, 2, keep)
    } else {
        match opened {
            Some(fd) => let_go(fds, slot_of(r.slot), keep),
            None => all_let_go(fds, keep),
        }
    }
}

/// What is closed when all streams let go of their descriptors.
pub open spec fn all_let_go(fds: Seq<i64>, keep: Seq<i64>) -> Seq<i64> {
    let_go(fds, 0, keep) + let_go(fds.update(0, NO_FD), 1, keep) + let_go(
        fds.update(0, NO_FD).update(1, NO_FD),
        2,
        keep,
    )
}

/// The opening of a command's redirections. `seed` is what the streams are
/// connected to already, the ends of pipes: those are not closed here.
pub struct Opening {
    pub seed: Fds,
    pub fds: Fds,
    pub at: usize,
}

impl Opening {
    pub fn new(seed: Fds) -> (r: Opening)
        ensures
            r == (Opening { seed, fds: seed, at: 0 }),
    {
        Opening { seed, fds: seed, at: 0 }
    }

    /// What is to be opened next.
    pub fn need(&self, redirs: &Vec<Redirect>, dir: &Cwd) -> (r: Need)
        ensures
            r@ == need_of(redirect_views(redirs@), self.at as int, dir@),
    {
        if self.at >= redirs.len() {
            return Need::Done;
        }
        let r: &Redirect = &redirs[self.at];
        assert(redirect_views(redirs@)[self.at as int] == r@);
        if r.dup_to_1 || r.heredoc {
            return Need::Nothing;
        }
        let flags: u32 = if r.slot == 0 {
            0
        } else if r.append {
            O_CREAT | O_APPEND
        } else {
            O_CREAT | O_TRUNC
        };
        Need::Open { path: dir.resolve(&r.target), flags }
    }

    /// Goes on to the next redirection. `opened` is what came of opening its
    /// target. What is to be closed is put into `closes`; false if the target
    /// could not be opened.
    pub fn step(&mut self, redirs: &Vec<Redirect>, opened: Option<i64>, closes: &mut Vec<i64>) -> (r:
        bool)
        requires
            old(self).at < redirs.len(),
        ensures
            ({
                let v = redirs[old(self).at as int]@;
                &&& r == (v.heredoc || v.dup_to_1 || opened is Some)
                &&& final(self).at == old(self).at + 1
                &&& final(self).seed == old(self).seed
                &&& final(self).fds@ == fds_after(old(self).fds@, v, opened)
                &&& final(closes)@ == old(closes)@ + closed_by(
                    old(self).fds@,
                    v,
                    opened,
                    old(self).seed@,
                )
            }),
    {
        let v: &Redirect = &redirs[self.at];
        self.at = self.at + 1;
        let seed: Fds = self.seed;
        let ghost f0 = self.fds@;
        let ghost c0 = closes@;
        assert(f0.len() == 3);
        if v.heredoc {
            assert(closes@ =~= c0 + Seq::empty());
            return true;
        }
        if v.dup_to_1 {
            drop_slot(&mut self.fds, 2, &seed, closes);
            let one: i64 = self.fds[1];
            self.fds[2] = one;
            assert(self.fds@ =~= f0.update(2, f0[1]));
            return true;
        }
        let slot: usize = if v.slot == 0 {
            0
        } else if v.slot == 1 {
            1
        } else {
            2
        };
        match opened {
            Some(fd) => {
                drop_slot(&mut self.fds, slot, &seed, closes);
                self.fds[slot] = fd;
                assert(self.fds@ =~= f0.update(slot as int, fd));
                true
            },
            None => {
                drop_slot(&mut self.fds, 0, &seed, closes);
                drop_slot(&mut self.fds, 1, &seed, closes);
                drop_slot(&mut self.fds, 2, &seed, closes);
                assert(self.fds@ =~= no_fds());
                assert(closes@ =~= c0 + all_let_go(f0, seed@));
                false
            },
        }
    }
}

/// The distinct descriptors among some, in order.
pub open spec fn distinct(s: Seq<i64>) -> Seq<i64>
    decreases s.len(),
{
    if s.len() == 0 {
        Seq::empty()
    } else {
        let d = distinct(s.drop_last());
        if s.last() >= 0 && !d.contains(s.last()) {
            d.push(s.last())
        } else {
            d
        }
    }
}

/// Where a stream goes: to what it was turned to, or to the terminal. Errors
/// never go where the output was turned to.
pub fn stream(fds: &Fds, slot: usize, term: i64) -> (r: i64)
    requires
        slot < 3,
    ensures
        r == (if fds@[slot as int] >= 0 {
            fds@[slot as int]
        } else {
            term
        }),
{
    if fds[slot] >= 0 {
        fds[slot]
    } else {
        term
    }
}

/// Whether any stream was turned to a file. Only then are the streams set for a
/// command, and set back after it.
pub fn any_turned(fds: &Fds) -> (r: bool)
    ensures
        r == (fds@ != seq![NO_FD, NO_FD, NO_FD]),
{
    let r: bool = fds[0] != NO_FD || fds[1] != NO_FD || fds[2] != NO_FD;
    assert(!r ==> fds@ =~= seq![NO_FD, NO_FD, NO_FD]);
    r
}

/// What is to be closed to close the streams' descriptors, each once.
pub fn close_all(fds: &Fds) -> (r: Vec<i64>)
    ensures
        r@ == distinct(fds@),
{
    let mut out: Vec<i64> = Vec::new();
    let mut i: usize = 0;
    assert(fds@.len() == 3);
    assert(fds@.take(0) =~= Seq::<i64>::empty());
    while i < 3
        invariant
            i <= 3,
            fds@.len() == 3,
            out@ == distinct(fds@.take(i as int)),
        decreases 3 - i,
    {
        let fd: i64 = fds[i];
        let mut seen: bool = false;
        let mut j: usize = 0;
        while j < out.len()
            invariant
                j <= out@.len(),
                seen == exists|k: int| 0 <= k < j && out@[k] == fd,
            decreases out.len() - j,
        {
            if out[j] == fd {
                seen = true;
            }
            j = j + 1;
        }
        assert(seen == out@.contains(fd));
        assert(fds@.take(i + 1).drop_last() =~= fds@.take(i as int));
        if fd >= 0 && !seen {
            out.push(fd);
        }
        i = i + 1;
    }
    assert(fds@.take(3) =~= fds@);
    out
}

pub(crate) fn append_fds(v: &mut Vec<i64>, more: &Vec<i64>)
    ensures
        final(v)@ == old(v)@ + more@,
{
    let ghost v0 = v@;
    let mut i: usize = 0;
    assert(v0 + more@.take(0) =~= v0);
    while i < more.len()
        invariant
            i <= more@.len(),
            v@ == v0 + more@.take(i as int),
        decreases more.len() - i,
    {
        v.push(more[i]);
        i = i + 1;
        assert(v@ =~= v0 + more@.take(i as int));
    }
    assert(more@.take(more@.len() as int) =~= more@);
}

pub proof fn lemma_distinct_has(s: Seq<i64>, fd: i64)
    requires
        fd >= 0,
        s.contains(fd),
    ensures
        distinct(s).contains(fd),
    decreases s.len(),
{
    let d = distinct(s.drop_last());
    let i = s.index_of(fd);
    if i == s.len() - 1 {
        if !d.contains(fd) {
            assert(d.push(fd)[d.len() as int] == fd);
        }
    } else {
        assert(s.drop_last()[i] == fd);
        lemma_distinct_has(s.drop_last(), fd);
        let k = d.index_of(fd);
        assert(d.push(s.last())[k] == fd);
    }
}

/// Why a file could not be opened.
#[derive(Clone, Copy, PartialEq, Eq, Debug, Structural)]
pub enum OpenError {
    NotFound,
    ReadOnly,
    IsDir,
    Other,
}

pub open spec fn open_error_text(target: Seq<u8>, e: OpenError) -> Seq<u8> {
    bytes::lit("redirect: cannot open ") + target + match e {
        OpenError::NotFound => bytes::lit(": no such file or directory\n"),
        OpenError::ReadOnly => bytes::lit(": read-only file system\n"),
        OpenError::IsDir => bytes::lit(": is a directory\n"),
        OpenError::Other => bytes::lit(": failed\n"),
    }
}

/// What is said of a target that could not be opened.
pub fn report_open_error(target: &[u8], e: OpenError) -> (r: Vec<u8>)
    ensures
        r@ == open_error_text(target@, e),
{
    let mut v: Vec<u8> = Vec::new();
    push_str(&mut v, "redirect: cannot open ");
    bytes::append_bytes(&mut v, target);
    match e {
        OpenError::NotFound => push_str(&mut v, ": no such file or directory\n"),
        OpenError::ReadOnly => push_str(&mut v, ": read-only file system\n"),
        OpenError::IsDir => push_str(&mut v, ": is a directory\n"),
        OpenError::Other => push_str(&mut v, ": failed\n"),
    }
    assert(v@ =~= open_error_text(target@, e));
    v
}

/// The descriptors that a command's streams hold and that were opened for it.
pub open spec fn opened_fds(fds: Seq<i64>, seed: Seq<i64>) -> Set<i64> {
    Set::new(|fd: i64| fd >= 0 && fds.contains(fd) && !seed.contains(fd))
}

/// No descriptor is lost: after each redirection, what was opened so far and
/// is not held by a stream has been closed. If a target cannot be opened, all
/// are closed.
pub proof fn law_nothing_stays_open(
    fds: Seq<i64>,
    seed: Seq<i64>,
    r: RedirectView,
    opened: Option<i64>,
)
    requires
        fds.len() == 3,
        opened is Some ==> opened->0 >= 0 && !fds.contains(opened->0) && !seed.contains(
            opened->0,
        ),
    ensures
        ({
            let before = opened_fds(fds, seed);
            let gained = if r.heredoc || r.dup_to_1 || opened is None {
                before
            } else {
                before.insert(opened->0)
            };
            let closes = closed_by(fds, r, opened, seed);
            &&& opened_fds(fds_after(fds, r, opened), seed) =~= gained.difference(closes.to_set())
            &&& closes.no_duplicates()
        }),
{
    let after = fds_after(fds, r, opened);
    let closes = closed_by(fds, r, opened, seed);
    if !r.heredoc {
        if !r.dup_to_1 && opened is None {
            let f1 = fds.update(0, NO_FD);
            let f2 = f1.update(1, NO_FD);
            let a = let_go(fds, 0, seed);
            let b = let_go(f1, 1, seed);
            let c = let_go(f2, 2, seed);
            assert(closes =~= a + b + c);
            assert(fds.update(0, NO_FD)[1] == fds[1] && fds.update(0, NO_FD)[2] == fds[2]);
            assert(f1.update(1, NO_FD)[2] == fds[2] && f2[2] == fds[2]);
            assert forall|fd: i64| #[trigger] opened_fds(fds, seed).contains(fd) implies closes.contains(fd) by {
                let i = fds.index_of(fd);
                if fds[2] == fd {
                    assert(!f2.update(2, NO_FD).contains(fd));
                    assert(c[0] == fd);
                    assert(closes[(a.len() + b.len()) as int] == fd);
                } else if fds[1] == fd {
                    assert(!f1.update(1, NO_FD).contains(fd));
                    assert(b[0] == fd);
                    assert(closes[a.len() as int] == fd);
                } else {
                    assert(!fds.update(0, NO_FD).contains(fd));
                    assert(a[0] == fd);
                    assert(closes[0] == fd);
                }
            }
            assert(a.len() == 1 ==> a[0] == fds[0] && fds[0] != fds[1] && fds[0] != fds[2]) by {
                assert(fds.update(0, NO_FD)[1] == fds[1]);
            }
            assert(b.len() == 1 ==> b[0] == fds[1] && fds[1] != fds[2]) by {
                assert(f1.update(1, NO_FD)[2] == fds[2]);
            }
            assert(forall|fd: i64| !after.contains(fd) || fd == -1);
        } else {
            let slot = if r.dup_to_1 {
                2
            } else {
                slot_of(r.slot)
            };
            let rest = fds.update(slot, NO_FD);
            assert forall|fd: i64| fd >= 0 implies (#[trigger] after.contains(fd) == (rest.contains(fd)
                || after[slot] == fd)) by {
                if after.contains(fd) {
                    let i = after.index_of(fd);
                    if i != slot {
                        assert(rest[i] == fd);
                    }
                }
                if rest.contains(fd) {
                    let i = rest.index_of(fd);
                    assert(after[i] == fd);
                }
                if after[slot] == fd {
                    assert(after.contains(fd));
                }
            }
            assert forall|fd: i64| fd >= 0 implies (#[trigger] fds.contains(fd) == (rest.contains(fd)
                || fds[slot] == fd)) by {
                if fds.contains(fd) {
                    let i = fds.index_of(fd);
                    if i != slot {
                        assert(rest[i] == fd);
                    }
                }
                if rest.contains(fd) {
                    let i = rest.index_of(fd);
                    assert(fds[i] == fd);
                }
            }
            assert(closes.len() == 1 ==> closes[0] == fds[slot]);
            assert(forall|fd: i64| closes.contains(fd) ==> fd == fds[slot]);
            if closes.len() == 1 {
                assert(closes.contains(fds[slot]));
            }
            if r.dup_to_1 {
                assert(rest[1] == fds[1]);
            }
        }
    }
}

} // verus!
