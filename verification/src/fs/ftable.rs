//! Open files: descriptors by channel.
use std::collections::BTreeMap;
use vstd::prelude::*;

use super::block::BlockSource;
use super::fat32::dir;
use super::fat32::types::{Fat32, FileInfo};
use super::mount_legacy::FsKind;
use super::provider::AnyHandle;
use crate::bytes::copy_of;
use crate::tables::keys64;

verus! {

broadcast use vstd::std_specs::btree::group_btree_axioms;

/// What a descriptor stands for.
pub enum FileEntry {
    /// A local file. `path` is relative to its file system. `fat_info` is what
    /// was last known of a file on a volume; it holds as long as `fat_gen` is
    /// the current generation. With `append`, writes go to the end.
    Local {
        path: Vec<u8>,
        kind: FsKind,
        offset: usize,
        mnt: Option<u64>,
        handle: Option<AnyHandle>,
        fat_info: Option<FileInfo>,
        fat_gen: u64,
        append: bool,
    },
    /// A file of a driver.
    Remote { server_chan: u64, remote_fd: u32 },
    /// An end of a pipe.
    Pipe { pipe: u32, write: bool },
}

/// What a descriptor stands for, as a value.
#[verifier::ext_equal]
pub enum EntryView {
    Local {
        path: Seq<u8>,
        kind: FsKind,
        offset: usize,
        mnt: Option<u64>,
        handle: Option<AnyHandle>,
        fat_info: Option<FileInfo>,
        fat_gen: u64,
        append: bool,
    },
    Remote { server_chan: u64, remote_fd: u32 },
    Pipe { pipe: u32, write: bool },
}

impl View for FileEntry {
    type V = EntryView;

    open spec fn view(&self) -> EntryView {
        match *self {
            FileEntry::Local {
                path,
                kind,
                offset,
                mnt,
                handle,
                fat_info,
                fat_gen,
                append,
            } => EntryView::Local {
                path: path@,
                kind,
                offset,
                mnt,
                handle,
                fat_info,
                fat_gen,
                append,
            },
            FileEntry::Remote { server_chan, remote_fd } => EntryView::Remote {
                server_chan,
                remote_fd,
            },
            FileEntry::Pipe { pipe, write } => EntryView::Pipe { pipe, write },
        }
    }
}

impl FileEntry {
    /// A copy.
    pub fn snapshot(&self) -> (r: FileEntry)
        ensures
            r@ == self@,
    {
        match self {
            FileEntry::Local { path, kind, offset, mnt, handle, fat_info, fat_gen, append } =>
                FileEntry::Local {
                path: copy_of(path),
                kind: *kind,
                offset: *offset,
                mnt: *mnt,
                handle: *handle,
                fat_info: *fat_info,
                fat_gen: *fat_gen,
                append: *append,
            },
            FileEntry::Remote { server_chan, remote_fd } => FileEntry::Remote {
                server_chan: *server_chan,
                remote_fd: *remote_fd,
            },
            FileEntry::Pipe { pipe, write } => FileEntry::Pipe { pipe: *pipe, write: *write },
        }
    }
}

/// The entry of a fresh local descriptor.
pub open spec fn fresh_local(
    path: Seq<u8>,
    kind: FsKind,
    mnt: Option<u64>,
    handle: Option<AnyHandle>,
    info: Option<FileInfo>,
    fgen: u64,
    append: bool,
) -> EntryView {
    EntryView::Local {
        path,
        kind,
        offset: 0,
        mnt,
        handle,
        fat_info: info,
        fat_gen: fgen,
        append,
    }
}

/// A copy of a local entry for another channel: nothing cached goes along.
pub open spec fn cloned_entry(e: EntryView) -> Option<EntryView> {
    match e {
        EntryView::Local { path, kind, offset, mnt, handle, fat_info, fat_gen, append } => Some(
            EntryView::Local {
                path,
                kind,
                offset,
                mnt,
                handle,
                fat_info: None,
                fat_gen: 0,
                append,
            },
        ),
        _ => None,
    }
}

/// An entry with another offset; only local ones have one.
pub open spec fn moved_to(e: EntryView, to: usize) -> EntryView {
    match e {
        EntryView::Local { path, kind, offset, mnt, handle, fat_info, fat_gen, append } =>
            EntryView::Local { path, kind, offset: to, mnt, handle, fat_info, fat_gen, append },
        other => other,
    }
}

/// An entry with other cached knowledge; only files on volumes have some.
pub open spec fn with_info(e: EntryView, info: Option<FileInfo>, fgen: u64) -> EntryView {
    match e {
        EntryView::Local { path, kind, offset, mnt, handle, fat_info, fat_gen, append } => if kind
            == FsKind::Fat {
            EntryView::Local {
                path,
                kind,
                offset,
                mnt,
                handle,
                fat_info: info,
                fat_gen: fgen,
                append,
            }
        } else {
            e
        },
        other => other,
    }
}

/// The descriptors of a channel, in order, and the number of the next one.
struct ChanFiles {
    next: u32,
    fds: Vec<(u32, FileEntry)>,
}

pub struct FileTable {
    chans: BTreeMap<u64, ChanFiles>,
}

spec fn listed(s: Seq<(u32, FileEntry)>) -> Seq<(u32, EntryView)> {
    Seq::new(s.len(), |i: int| (s[i].0, s[i].1@))
}

/// The numbers grow.
pub open spec fn fds_grow(s: Seq<(u32, EntryView)>) -> bool {
    forall|i: int, j: int| 0 <= i < j < s.len() ==> (#[trigger] s[i]).0 < (#[trigger] s[j]).0
}

pub open spec fn has_fd(s: Seq<(u32, EntryView)>, fd: u32) -> bool {
    exists|i: int| 0 <= i < s.len() && (#[trigger] s[i]).0 == fd
}

pub open spec fn entry_of(s: Seq<(u32, EntryView)>, fd: u32) -> EntryView {
    s[choose|i: int| 0 <= i < s.len() && (#[trigger] s[i]).0 == fd].1
}

/// The files of drivers among the descriptors, in order.
pub open spec fn remotes_in(s: Seq<(u32, EntryView)>) -> Seq<(u64, u32)>
    decreases s.len(),
{
    if s.len() == 0 {
        Seq::empty()
    } else {
        let r = remotes_in(s.drop_last());
        match s.last().1 {
            EntryView::Remote { server_chan, remote_fd } => r.push((server_chan, remote_fd)),
            _ => r,
        }
    }
}

/// The ends of pipes among the descriptors, in order.
pub open spec fn pipe_ends_in(s: Seq<(u32, EntryView)>) -> Seq<(u32, bool)>
    decreases s.len(),
{
    if s.len() == 0 {
        Seq::empty()
    } else {
        let r = pipe_ends_in(s.drop_last());
        match s.last().1 {
            EntryView::Pipe { pipe, write } => r.push((pipe, write)),
            _ => r,
        }
    }
}

spec fn chan_ok(c: ChanFiles) -> bool {
    &&& fds_grow(listed(c.fds@))
    &&& c.next >= 1
    &&& forall|i: int| 0 <= i < c.fds@.len() ==> 1 <= (#[trigger] c.fds@[i]).0 < c.next
}

proof fn lemma_entry_of(s: Seq<(u32, EntryView)>, i: int)
    requires
        fds_grow(s),
        0 <= i < s.len(),
    ensures
        has_fd(s, s[i].0),
        entry_of(s, s[i].0) == s[i].1,
{
    let fd = s[i].0;
    let j = choose|j: int| 0 <= j < s.len() && (#[trigger] s[j]).0 == fd;
    if j < i {
        assert(s[j].0 < s[i].0);
    } else if i < j {
        assert(s[i].0 < s[j].0);
    }
}

impl FileTable {
    /// The descriptors of a channel, in order.
    pub closed spec fn of_chan(&self, chan: u64) -> Seq<(u32, EntryView)> {
        if self.chans@.contains_key(chan) {
            listed(self.chans@[chan].fds@)
        } else {
            Seq::empty()
        }
    }

    /// The descriptors of all channels.
    pub open spec fn view(&self) -> Map<(u64, u32), EntryView> {
        Map::new(
            |k: (u64, u32)| has_fd(self.of_chan(k.0), k.1),
            |k: (u64, u32)| entry_of(self.of_chan(k.0), k.1),
        )
    }

    /// The number that the next descriptor of a channel gets.
    pub closed spec fn next_fd(&self, chan: u64) -> u32 {
        if self.chans@.contains_key(chan) {
            self.chans@[chan].next
        } else {
            1
        }
    }

    /// Numbers are never given out twice on a channel.
    pub closed spec fn wf(&self) -> bool {
        forall|c: u64| #[trigger] self.chans@.contains_key(c) ==> chan_ok(self.chans@[c])
    }

    /// Every descriptor of a channel has a number below the next one, and they
    /// stand in order.
    pub proof fn lemma_fds_below_next(&self, chan: u64)
        requires
            self.wf(),
        ensures
            fds_grow(self.of_chan(chan)),
            self.next_fd(chan) >= 1,
            forall|fd: u32| #[trigger]
                self@.contains_key((chan, fd)) ==> 1 <= fd < self.next_fd(chan),
    {
        assert forall|fd: u32| #[trigger] self@.contains_key((chan, fd)) implies 1 <= fd
            < self.next_fd(chan) by {
            let s = self.of_chan(chan);
            let i = choose|i: int| 0 <= i < s.len() && (#[trigger] s[i]).0 == fd;
            assert(s[i] == (self.chans@[chan].fds@[i].0, self.chans@[chan].fds@[i].1@));
            assert(1 <= self.chans@[chan].fds@[i].0);
        }
    }

    pub fn new() -> (r: FileTable)
        ensures
            r.wf(),
            r@ == Map::<(u64, u32), EntryView>::empty(),
            forall|c: u64| r.next_fd(c) == 1,
    {
        let r = FileTable { chans: BTreeMap::new() };
        assert(r@ =~= Map::empty());
        r
    }

    /// The number that the next descriptor of a channel gets.
    pub fn peek_fd(&self, chan: u64) -> (r: u32)
        ensures
            r == self.next_fd(chan),
    {
        match self.chans.get(&chan) {
            Some(c) => c.next,
            None => 1,
        }
    }

    fn add_entry(&mut self, chan: u64, e: FileEntry) -> (fd: u32)
        requires
            old(self).wf(),
            old(self).next_fd(chan) < u32::MAX,
        ensures
            final(self).wf(),
            fd == old(self).next_fd(chan),
            final(self)@ == old(self)@.insert((chan, fd), e@),
            forall|c: u64| #[trigger]
                final(self).next_fd(c) == (if c == chan {
                    (old(self).next_fd(chan) + 1) as u32
                } else {
                    old(self).next_fd(c)
                }),
    {
        let ghost before = *self;
        let ghost ev = e@;
        let mut c = match self.chans.remove(&chan) {
            Some(c) => c,
            None => {
                let c = ChanFiles { next: 1, fds: Vec::new() };
                assert(listed(c.fds@) =~= Seq::empty());
                c
            },
        };
        let ghost s = listed(c.fds@);
        assert(s == before.of_chan(chan));
        let fd: u32 = c.next;
        c.fds.push((fd, e));
        c.next = fd + 1;
        proof {
            assert(listed(c.fds@) =~= s.push((fd, ev)));
            assert forall|i: int, j: int| 0 <= i < j < s.push((fd, ev)).len() implies (
            #[trigger] s.push((fd, ev))[i]).0 < (#[trigger] s.push((fd, ev))[j]).0 by {
                if j == s.len() {
                    assert(s[i] == (c.fds@[i].0, c.fds@[i].1@));
                    assert(c.fds@[i].0 < fd);
                }
            }
        }
        self.chans.insert(chan, c);
        proof {
            lemma_pushed(s, fd, ev);
            let now = *self;
            assert forall|k: (u64, u32)| true implies #[trigger] now@.contains_key(k)
                == before@.insert((chan, fd), ev).contains_key(k) && (now@.contains_key(k)
                ==> now@[k] == before@.insert((chan, fd), ev)[k]) by {
                if k.0 != chan {
                    assert(now.of_chan(k.0) == before.of_chan(k.0));
                } else {
                    assert(now.of_chan(chan) == s.push((fd, ev)));
                }
            }
            assert(self@ =~= before@.insert((chan, fd), ev));
        }
        fd
    }

    fn position(&self, chan: u64, fd: u32) -> (r: Option<usize>)
        requires
            self.wf(),
        ensures
            match r {
                Some(i) => {
                    &&& self.chans@.contains_key(chan)
                    &&& i < self.chans@[chan].fds@.len()
                    &&& self.chans@[chan].fds@[i as int].0 == fd
                    &&& self@.contains_key((chan, fd))
                    &&& self@[(chan, fd)] == self.chans@[chan].fds@[i as int].1@
                },
                None => !self@.contains_key((chan, fd)),
            },
    {
        match self.chans.get(&chan) {
            Some(c) => {
                let ghost s = self.of_chan(chan);
                let mut i: usize = 0;
                while i < c.fds.len()
                    invariant
                        i <= c.fds@.len(),
                        self.wf(),
                        self.chans@.contains_key(chan),
                        *c == self.chans@[chan],
                        s == self.of_chan(chan),
                        forall|k: int| 0 <= k < i ==> (#[trigger] s[k]).0 != fd,
                    decreases c.fds@.len() - i,
                {
                    assert(s[i as int] == (c.fds@[i as int].0, c.fds@[i as int].1@));
                    if c.fds[i].0 == fd {
                        proof {
                            assert(chan_ok(self.chans@[chan]));
                            lemma_entry_of(s, i as int);
                        }
                        return Some(i);
                    }
                    i += 1;
                }
                None
            },
            None => None,
        }
    }

    /// What a descriptor stands for.
    pub fn entry(&self, chan: u64, fd: u32) -> (r: Option<&FileEntry>)
        requires
            self.wf(),
        ensures
            match r {
                Some(e) => self@.contains_key((chan, fd)) && self@[(chan, fd)] == e@,
                None => !self@.contains_key((chan, fd)),
            },
    {
        match self.position(chan, fd) {
            Some(i) => match self.chans.get(&chan) {
                Some(c) => Some(&c.fds[i].1),
                None => None,
            },
            None => None,
        }
    }

    /// Opens a local file.
    pub fn open(
        &mut self,
        chan: u64,
        path: &[u8],
        kind: FsKind,
        mnt: Option<u64>,
        append: bool,
    ) -> (fd: u64)
        requires
            old(self).wf(),
            old(self).next_fd(chan) < u32::MAX,
        ensures
            final(self).wf(),
            fd == old(self).next_fd(chan),
            numbered(*old(self), *final(self), chan, 1),
            final(self)@ == old(self)@.insert(
                (chan, fd as u32),
                fresh_local(path@, kind, mnt, None, None, 0, append),
            ),
    {
        let e = FileEntry::Local {
            path: copy_of(path),
            kind,
            offset: 0,
            mnt,
            handle: None,
            fat_info: None,
            fat_gen: 0,
            append,
        };
        self.add_entry(chan, e) as u64
    }

    /// Opens a file on a volume, about which everything is known already.
    pub fn open_fat(
        &mut self,
        chan: u64,
        path: &[u8],
        mnt: u64,
        info: FileInfo,
        fgen: u64,
        append: bool,
    ) -> (fd: u64)
        requires
            old(self).wf(),
            old(self).next_fd(chan) < u32::MAX,
        ensures
            final(self).wf(),
            fd == old(self).next_fd(chan),
            numbered(*old(self), *final(self), chan, 1),
            final(self)@ == old(self)@.insert(
                (chan, fd as u32),
                fresh_local(path@, FsKind::Fat, Some(mnt), None, Some(info), fgen, append),
            ),
    {
        let e = FileEntry::Local {
            path: copy_of(path),
            kind: FsKind::Fat,
            offset: 0,
            mnt: Some(mnt),
            handle: None,
            fat_info: Some(info),
            fat_gen: fgen,
            append,
        };
        self.add_entry(chan, e) as u64
    }

    /// Opens a file of another mounted file system by its handle.
    pub fn open_local(&mut self, chan: u64, path: &[u8], mnt: u64, h: AnyHandle, append: bool) -> (fd:
        u64)
        requires
            old(self).wf(),
            old(self).next_fd(chan) < u32::MAX,
        ensures
            final(self).wf(),
            fd == old(self).next_fd(chan),
            numbered(*old(self), *final(self), chan, 1),
            final(self)@ == old(self)@.insert(
                (chan, fd as u32),
                fresh_local(path@, FsKind::Local, Some(mnt), Some(h), None, 0, append),
            ),
    {
        let e = FileEntry::Local {
            path: copy_of(path),
            kind: FsKind::Local,
            offset: 0,
            mnt: Some(mnt),
            handle: Some(h),
            fat_info: None,
            fat_gen: 0,
            append,
        };
        self.add_entry(chan, e) as u64
    }

    /// Opens a copy of a local entry on a channel; `None` for any other entry.
    pub fn open_cloned(&mut self, chan: u64, snap: &FileEntry) -> (r: Option<u64>)
        requires
            old(self).wf(),
            old(self).next_fd(chan) < u32::MAX,
        ensures
            final(self).wf(),
            match cloned_entry(snap@) {
                Some(e) => r == Some(old(self).next_fd(chan) as u64) && numbered(
                    *old(self),
                    *final(self),
                    chan,
                    1,
                ) && final(self)@ == old(self)@.insert((chan, old(self).next_fd(chan)), e),
                None => r is None && final(self)@ == old(self)@ && numbered(
                    *old(self),
                    *final(self),
                    chan,
                    0,
                ),
            },
    {
        match snap {
            FileEntry::Local { path, kind, offset, mnt, handle, fat_info, fat_gen, append } => {
                let e = FileEntry::Local {
                    path: copy_of(path),
                    kind: *kind,
                    offset: *offset,
                    mnt: *mnt,
                    handle: *handle,
                    fat_info: None,
                    fat_gen: 0,
                    append: *append,
                };
                Some(self.add_entry(chan, e) as u64)
            },
            _ => None,
        }
    }

    /// Opens a file of a driver.
    pub fn open_remote(&mut self, chan: u64, server_chan: u64, remote_fd: u32) -> (fd: u64)
        requires
            old(self).wf(),
            old(self).next_fd(chan) < u32::MAX,
        ensures
            final(self).wf(),
            fd == old(self).next_fd(chan),
            numbered(*old(self), *final(self), chan, 1),
            final(self)@ == old(self)@.insert(
                (chan, fd as u32),
                EntryView::Remote { server_chan, remote_fd },
            ),
    {
        self.add_entry(chan, FileEntry::Remote { server_chan, remote_fd }) as u64
    }

    /// Opens an end of a pipe.
    pub fn open_pipe(&mut self, chan: u64, pipe: u32, write: bool) -> (fd: u64)
        requires
            old(self).wf(),
            old(self).next_fd(chan) < u32::MAX,
        ensures
            final(self).wf(),
            fd == old(self).next_fd(chan),
            numbered(*old(self), *final(self), chan, 1),
            final(self)@ == old(self)@.insert((chan, fd as u32), EntryView::Pipe { pipe, write }),
    {
        self.add_entry(chan, FileEntry::Pipe { pipe, write }) as u64
    }

    /// Closes a descriptor. False if there is none.
    pub fn close(&mut self, chan: u64, fd: u32) -> (ok: bool)
        requires
            old(self).wf(),
        ensures
            final(self).wf(),
            ok == old(self)@.contains_key((chan, fd)),
            final(self)@ == old(self)@.remove((chan, fd)),
            forall|c: u64| #[trigger] final(self).next_fd(c) == old(self).next_fd(c),
    {
        let ghost before = *self;
        let i: usize = match self.position(chan, fd) {
            Some(i) => i,
            None => {
                assert(self@ =~= before@.remove((chan, fd)));
                return false;
            },
        };
        match self.chans.remove(&chan) {
            Some(c) => {
                let mut c = c;
                let ghost s = listed(c.fds@);
                c.fds.remove(i);
                proof {
                    assert(listed(c.fds@) =~= s.remove(i as int));
                    lemma_removed(s, i as int);
                    assert forall|k: int| 0 <= k < c.fds@.len() implies 1 <= (
                    #[trigger] c.fds@[k]).0 < c.next by {
                        let old_fds = before.chans@[chan].fds@;
                        if k < i {
                            assert(c.fds@[k] == old_fds[k]);
                        } else {
                            assert(c.fds@[k] == old_fds[k + 1]);
                        }
                    }
                }
                self.chans.insert(chan, c);
                proof {
                    let now = *self;
                    assert forall|k: (u64, u32)| true implies #[trigger] now@.contains_key(k)
                        == before@.remove((chan, fd)).contains_key(k) && (now@.contains_key(k)
                        ==> now@[k] == before@.remove((chan, fd))[k]) by {
                        if k.0 != chan {
                            assert(now.of_chan(k.0) == before.of_chan(k.0));
                        } else {
                            assert(now.of_chan(chan) == s.remove(i as int));
                        }
                    }
                    assert(self@ =~= before@.remove((chan, fd)));
                }
            },
            None => {},
        }
        true
    }

    /// Puts another entry in the place of one.
    fn replace(&mut self, chan: u64, fd: u32, i: usize, e: FileEntry)
        requires
            old(self).wf(),
            old(self).chans@.contains_key(chan),
            i < old(self).chans@[chan].fds@.len(),
            old(self).chans@[chan].fds@[i as int].0 == fd,
        ensures
            final(self).wf(),
            final(self)@ == old(self)@.insert((chan, fd), e@),
            forall|c: u64| #[trigger] final(self).next_fd(c) == old(self).next_fd(c),
    {
        let ghost before = *self;
        let ghost ev = e@;
        match self.chans.remove(&chan) {
            Some(c) => {
                let mut c = c;
                let ghost s = listed(c.fds@);
                c.fds.set(i, (fd, e));
                proof {
                    assert(listed(c.fds@) =~= s.update(i as int, (fd, ev)));
                    lemma_updated(s, i as int, ev);
                }
                self.chans.insert(chan, c);
                proof {
                    let now = *self;
                    assert forall|k: (u64, u32)| true implies #[trigger] now@.contains_key(k)
                        == before@.insert((chan, fd), ev).contains_key(k) && (now@.contains_key(k)
                        ==> now@[k] == before@.insert((chan, fd), ev)[k]) by {
                        if k.0 != chan {
                            assert(now.of_chan(k.0) == before.of_chan(k.0));
                        } else {
                            assert(now.of_chan(chan) == s.update(i as int, (fd, ev)));
                        }
                    }
                    assert(self@ =~= before@.insert((chan, fd), ev));
                }
            },
            None => {},
        }
    }

    /// The peer of a channel is gone: all its descriptors go with it. The
    /// files of drivers and the ends of pipes among them are added to the two
    /// lists, for the caller to close.
    pub fn purge(
        &mut self,
        chan: u64,
        remotes: &mut Vec<(u64, u32)>,
        pipe_ends: &mut Vec<(u32, bool)>,
    )
        requires
            old(self).wf(),
        ensures
            final(self).wf(),
            final(remotes)@ == old(remotes)@ + remotes_in(old(self).of_chan(chan)),
            final(pipe_ends)@ == old(pipe_ends)@ + pipe_ends_in(old(self).of_chan(chan)),
            forall|k: (u64, u32)| #[trigger]
                final(self)@.contains_key(k) == (old(self)@.contains_key(k) && k.0 != chan),
            forall|k: (u64, u32)| #[trigger]
                final(self)@.contains_key(k) ==> final(self)@[k] == old(self)@[k],
            forall|c: u64| #[trigger]
                final(self).next_fd(c) == (if c == chan {
                    1u32
                } else {
                    old(self).next_fd(c)
                }),
    {
        let ghost before = *self;
        match self.chans.remove(&chan) {
            Some(c) => {
                let ghost s = listed(c.fds@);
                let mut i: usize = 0;
                assert(s.take(0) =~= Seq::empty());
                assert(old(remotes)@ + remotes_in(s.take(0)) =~= old(remotes)@);
                assert(old(pipe_ends)@ + pipe_ends_in(s.take(0)) =~= old(pipe_ends)@);
                while i < c.fds.len()
                    invariant
                        i <= c.fds@.len(),
                        s == listed(c.fds@),
                        remotes@ == old(remotes)@ + remotes_in(s.take(i as int)),
                        pipe_ends@ == old(pipe_ends)@ + pipe_ends_in(s.take(i as int)),
                    decreases c.fds@.len() - i,
                {
                    proof {
                        assert(s.take(i + 1).drop_last() =~= s.take(i as int));
                        assert(s.take(i + 1).last() == s[i as int]);
                    }
                    match &c.fds[i].1 {
                        FileEntry::Remote { server_chan, remote_fd } => {
                            remotes.push((*server_chan, *remote_fd));
                        },
                        FileEntry::Pipe { pipe, write } => {
                            pipe_ends.push((*pipe, *write));
                        },
                        FileEntry::Local { .. } => {},
                    }
                    i += 1;
                    assert(remotes@ =~= old(remotes)@ + remotes_in(s.take(i as int)));
                    assert(pipe_ends@ =~= old(pipe_ends)@ + pipe_ends_in(s.take(i as int)));
                }
                assert(s.take(i as int) =~= s);
            },
            None => {
                assert(remotes@ =~= old(remotes)@ + remotes_in(Seq::empty()));
                assert(pipe_ends@ =~= old(pipe_ends)@ + pipe_ends_in(Seq::empty()));
            },
        }
        proof {
            let now = *self;
            assert forall|k: (u64, u32)| true implies #[trigger] now@.contains_key(k) == (
            before@.contains_key(k) && k.0 != chan) && (now@.contains_key(k) ==> now@[k]
                == before@[k]) by {
                if k.0 != chan {
                    assert(now.of_chan(k.0) == before.of_chan(k.0));
                } else {
                    assert(now.of_chan(chan) =~= Seq::empty());
                }
            }
        }
    }

    /// Whether a local descriptor is open on a mount.
    pub fn has_mount_users(&self, id: u64) -> (r: bool)
        requires
            self.wf(),
        ensures
            r == exists|k: (u64, u32)| #[trigger]
                self@.contains_key(k) && on_mount(self@[k], id),
    {
        let chans: Vec<u64> = keys64(&self.chans);
        let mut i: usize = 0;
        while i < chans.len()
            invariant
                i <= chans@.len(),
                self.wf(),
                forall|c: u64| #[trigger] chans@.contains(c) == self.chans@.contains_key(c),
                forall|x: int, fd: u32|
                    0 <= x < i && #[trigger] self@.contains_key((chans@[x], fd)) ==> !on_mount(
                        self@[(chans@[x], fd)],
                        id,
                    ),
            decreases chans@.len() - i,
        {
            let c: u64 = chans[i];
            assert(chans@.contains(c));
            match self.chans.get(&c) {
                Some(cf) => {
                    let ghost s = self.of_chan(c);
                    let mut j: usize = 0;
                    while j < cf.fds.len()
                        invariant
                            j <= cf.fds@.len(),
                            self.wf(),
                            self.chans@.contains_key(c),
                            *cf == self.chans@[c],
                            s == self.of_chan(c),
                            forall|x: int| 0 <= x < j ==> !on_mount((#[trigger] s[x]).1, id),
                        decreases cf.fds@.len() - j,
                    {
                        assert(s[j as int] == (cf.fds@[j as int].0, cf.fds@[j as int].1@));
                        match &cf.fds[j].1 {
                            FileEntry::Local { mnt: Some(m), .. } => {
                                if *m == id {
                                    proof {
                                        assert(chan_ok(self.chans@[c]));
                                        lemma_entry_of(s, j as int);
                                        assert(self@.contains_key((c, s[j as int].0)));
                                    }
                                    return true;
                                }
                            },
                            _ => {},
                        }
                        j += 1;
                    }
                    proof {
                        assert forall|fd: u32| #[trigger] self@.contains_key((c, fd)) implies !on_mount(
                            self@[(c, fd)],
                            id,
                        ) by {
                            let x = choose|x: int| 0 <= x < s.len() && (#[trigger] s[x]).0 == fd;
                            assert(!on_mount(s[x].1, id));
                        }
                    }
                },
                None => {},
            }
            i += 1;
        }
        proof {
            assert forall|k: (u64, u32)| #[trigger] self@.contains_key(k) implies !on_mount(
                self@[k],
                id,
            ) by {
                assert(self.chans@.contains_key(k.0));
                assert(chans@.contains(k.0));
                let x = choose|x: int| 0 <= x < chans@.len() && chans@[x] == k.0;
                assert(self@.contains_key((chans@[x], k.1)));
            }
        }
        false
    }

    /// Path, kind, offset and mount of a local descriptor.
    pub fn get(&self, chan: u64, fd: u32) -> (r: Option<(Vec<u8>, FsKind, usize, Option<u64>)>)
        requires
            self.wf(),
        ensures
            match r {
                Some((p, k, o, m)) => self@.contains_key((chan, fd)) && (self@[(chan, fd)]
                    matches EntryView::Local { path, kind, offset, mnt, .. } && path == p@ && kind
                    == k && offset == o && mnt == m),
                None => !(self@.contains_key((chan, fd)) && self@[(chan, fd)] is Local),
            },
    {
        match self.entry(chan, fd) {
            Some(FileEntry::Local { path, kind, offset, mnt, .. }) => Some(
                (copy_of(path), *kind, *offset, *mnt),
            ),
            _ => None,
        }
    }

    /// Channel and number of a file of a driver.
    pub fn get_remote(&self, chan: u64, fd: u32) -> (r: Option<(u64, u32)>)
        requires
            self.wf(),
        ensures
            match r {
                Some((s, f)) => self@.contains_key((chan, fd)) && self@[(chan, fd)]
                    == (EntryView::Remote { server_chan: s, remote_fd: f }),
                None => !(self@.contains_key((chan, fd)) && self@[(chan, fd)] is Remote),
            },
    {
        match self.entry(chan, fd) {
            Some(FileEntry::Remote { server_chan, remote_fd }) => Some((*server_chan, *remote_fd)),
            _ => None,
        }
    }

    /// The pipe of which a descriptor is an end, and whether it is the one to
    /// write into.
    pub fn get_pipe(&self, chan: u64, fd: u32) -> (r: Option<(u32, bool)>)
        requires
            self.wf(),
        ensures
            match r {
                Some((p, w)) => self@.contains_key((chan, fd)) && self@[(chan, fd)]
                    == (EntryView::Pipe { pipe: p, write: w }),
                None => !(self@.contains_key((chan, fd)) && self@[(chan, fd)] is Pipe),
            },
    {
        match self.entry(chan, fd) {
            Some(FileEntry::Pipe { pipe, write }) => Some((*pipe, *write)),
            _ => None,
        }
    }

    /// The handle of a descriptor on another mounted file system.
    pub fn get_dyn_handle(&self, chan: u64, fd: u32) -> (r: Option<AnyHandle>)
        requires
            self.wf(),
        ensures
            match r {
                Some(h) => self@.contains_key((chan, fd)) && (self@[(chan, fd)]
                    matches EntryView::Local { handle, .. } && handle == Some(h)),
                None => !(self@.contains_key((chan, fd)) && (self@[(chan, fd)]
                    matches EntryView::Local { handle, .. } && handle is Some)),
            },
    {
        match self.entry(chan, fd) {
            Some(FileEntry::Local { handle, .. }) => *handle,
            _ => None,
        }
    }

    /// Moves the offset of a local descriptor; any other is left as it is.
    pub fn set_offset(&mut self, chan: u64, fd: u32, offset: usize)
        requires
            old(self).wf(),
        ensures
            final(self).wf(),
            final(self)@ == (if old(self)@.contains_key((chan, fd)) {
                old(self)@.insert((chan, fd), moved_to(old(self)@[(chan, fd)], offset))
            } else {
                old(self)@
            }),
            forall|c: u64| #[trigger] final(self).next_fd(c) == old(self).next_fd(c),
    {
        let ghost before = self@;
        match self.position(chan, fd) {
            Some(i) => {
                let e = match self.entry(chan, fd) {
                    Some(
                        FileEntry::Local {
                            path,
                            kind,
                            offset: o,
                            mnt,
                            handle,
                            fat_info,
                            fat_gen,
                            append,
                        },
                    ) => FileEntry::Local {
                        path: copy_of(path),
                        kind: *kind,
                        offset,
                        mnt: *mnt,
                        handle: *handle,
                        fat_info: *fat_info,
                        fat_gen: *fat_gen,
                        append: *append,
                    },
                    _ => {
                        assert(before.insert((chan, fd), before[(chan, fd)]) =~= before);
                        return ;
                    },
                };
                self.replace(chan, fd, i, e);
            },
            None => {},
        }
    }

    /// Whether writes to a descriptor go to the end of the file.
    pub fn is_append(&self, chan: u64, fd: u32) -> (r: bool)
        requires
            self.wf(),
        ensures
            r == (self@.contains_key((chan, fd)) && (self@[(chan, fd)] matches EntryView::Local {
                append,
                ..
            } && append)),
    {
        match self.entry(chan, fd) {
            Some(FileEntry::Local { append, .. }) => *append,
            _ => false,
        }
    }

    /// Sets what is known of the file of a descriptor, if it is on a volume.
    pub fn refresh_fat_info(&mut self, chan: u64, fd: u32, info: Option<FileInfo>, fgen: u64)
        requires
            old(self).wf(),
        ensures
            final(self).wf(),
            final(self)@ == (if old(self)@.contains_key((chan, fd)) {
                old(self)@.insert((chan, fd), with_info(old(self)@[(chan, fd)], info, fgen))
            } else {
                old(self)@
            }),
            forall|c: u64| #[trigger] final(self).next_fd(c) == old(self).next_fd(c),
    {
        let ghost before = self@;
        match self.position(chan, fd) {
            Some(i) => {
                let e = match self.entry(chan, fd) {
                    Some(
                        FileEntry::Local {
                            path,
                            kind: FsKind::Fat,
                            offset,
                            mnt,
                            handle,
                            fat_info,
                            fat_gen,
                            append,
                        },
                    ) => FileEntry::Local {
                        path: copy_of(path),
                        kind: FsKind::Fat,
                        offset: *offset,
                        mnt: *mnt,
                        handle: *handle,
                        fat_info: info,
                        fat_gen: fgen,
                        append: *append,
                    },
                    _ => {
                        assert(before.insert((chan, fd), before[(chan, fd)]) =~= before);
                        return ;
                    },
                };
                self.replace(chan, fd, i, e);
            },
            None => {},
        }
    }
}

/// A local descriptor on a mount.
pub open spec fn on_mount(e: EntryView, id: u64) -> bool {
    e matches EntryView::Local { mnt, .. } && mnt == Some(id)
}

proof fn lemma_pushed(s: Seq<(u32, EntryView)>, fd: u32, e: EntryView)
    requires
        fds_grow(s.push((fd, e))),
    ensures
        forall|f: u32| #[trigger] has_fd(s.push((fd, e)), f) == (has_fd(s, f) || f == fd),
        forall|f: u32| #[trigger]
            has_fd(s.push((fd, e)), f) ==> entry_of(s.push((fd, e)), f) == (if f == fd {
                e
            } else {
                entry_of(s, f)
            }),
{
    let t = s.push((fd, e));
    assert(fds_grow(s)) by {
        assert forall|i: int, j: int| 0 <= i < j < s.len() implies (#[trigger] s[i]).0 < (
        #[trigger] s[j]).0 by {
            assert(t[i].0 < t[j].0);
        }
    }
    lemma_entry_of(t, s.len() as int);
    assert forall|f: u32| #[trigger] has_fd(t, f) == (has_fd(s, f) || f == fd) && (has_fd(t, f)
        ==> entry_of(t, f) == (if f == fd {
        e
    } else {
        entry_of(s, f)
    })) by {
        if has_fd(s, f) {
            let i = choose|i: int| 0 <= i < s.len() && (#[trigger] s[i]).0 == f;
            assert(t[i].0 == f);
            lemma_entry_of(s, i);
            lemma_entry_of(t, i);
            assert(t[i].0 < t[s.len() as int].0);
        }
        if has_fd(t, f) {
            let i = choose|i: int| 0 <= i < t.len() && (#[trigger] t[i]).0 == f;
            if i < s.len() {
                assert(s[i].0 == f);
            }
        }
    }
}

proof fn lemma_removed(s: Seq<(u32, EntryView)>, i: int)
    requires
        fds_grow(s),
        0 <= i < s.len(),
    ensures
        fds_grow(s.remove(i)),
        forall|f: u32| #[trigger] has_fd(s.remove(i), f) == (has_fd(s, f) && f != s[i].0),
        forall|f: u32| #[trigger]
            has_fd(s.remove(i), f) ==> entry_of(s.remove(i), f) == entry_of(s, f),
{
    let t = s.remove(i);
    assert forall|a: int, b: int| 0 <= a < b < t.len() implies (#[trigger] t[a]).0 < (
    #[trigger] t[b]).0 by {
        let x = if a < i {
            a
        } else {
            a + 1
        };
        let y = if b < i {
            b
        } else {
            b + 1
        };
        assert(s[x].0 < s[y].0);
    }
    assert forall|f: u32| #[trigger] has_fd(t, f) == (has_fd(s, f) && f != s[i].0) && (has_fd(t, f)
        ==> entry_of(t, f) == entry_of(s, f)) by {
        if has_fd(t, f) {
            let a = choose|a: int| 0 <= a < t.len() && (#[trigger] t[a]).0 == f;
            let x = if a < i {
                a
            } else {
                a + 1
            };
            assert(s[x] == t[a]);
            lemma_entry_of(t, a);
            lemma_entry_of(s, x);
            if x < i {
                assert(s[x].0 < s[i].0);
            } else {
                assert(s[i].0 < s[x].0);
            }
        }
        if has_fd(s, f) && f != s[i].0 {
            let x = choose|x: int| 0 <= x < s.len() && (#[trigger] s[x]).0 == f;
            let a = if x < i {
                x
            } else {
                x - 1
            };
            assert(t[a] == s[x]);
        }
    }
}

proof fn lemma_updated(s: Seq<(u32, EntryView)>, i: int, e: EntryView)
    requires
        fds_grow(s),
        0 <= i < s.len(),
    ensures
        fds_grow(s.update(i, (s[i].0, e))),
        forall|f: u32| #[trigger] has_fd(s.update(i, (s[i].0, e)), f) == has_fd(s, f),
        forall|f: u32| #[trigger]
            has_fd(s.update(i, (s[i].0, e)), f) ==> entry_of(s.update(i, (s[i].0, e)), f) == (if f
                == s[i].0 {
                e
            } else {
                entry_of(s, f)
            }),
        has_fd(s, s[i].0),
{
    let t = s.update(i, (s[i].0, e));
    assert forall|a: int, b: int| 0 <= a < b < t.len() implies (#[trigger] t[a]).0 < (
    #[trigger] t[b]).0 by {
        assert(s[a].0 < s[b].0);
    }
    lemma_entry_of(s, i);
    assert forall|f: u32| #[trigger] has_fd(t, f) == has_fd(s, f) && (has_fd(t, f) ==> entry_of(t, f)
        == (if f == s[i].0 {
        e
    } else {
        entry_of(s, f)
    })) by {
        if has_fd(s, f) {
            let x = choose|x: int| 0 <= x < s.len() && (#[trigger] s[x]).0 == f;
            assert(t[x].0 == f);
            lemma_entry_of(s, x);
            lemma_entry_of(t, x);
            if x != i {
                if x < i {
                    assert(s[x].0 < s[i].0);
                } else {
                    assert(s[i].0 < s[x].0);
                }
            }
        }
        if has_fd(t, f) {
            let x = choose|x: int| 0 <= x < t.len() && (#[trigger] t[x]).0 == f;
            assert(s[x].0 == f);
        }
    }
}

/// What is known of the file of a descriptor, if it is on a volume: what was
/// cached in this generation, else what the volume says now.
pub open spec fn known_info(
    e: Option<EntryView>,
    img: super::block::Image,
    g: super::fat32::types::Geometry,
    fgen: u64,
) -> Option<FileInfo> {
    match e {
        Some(EntryView::Local { path, kind, fat_info, fat_gen, .. }) => if kind != FsKind::Fat {
            None
        } else if fat_info is Some && fat_gen == fgen {
            fat_info
        } else {
            dir::found(img, g, path)
        },
        _ => None,
    }
}

/// The entry of a descriptor, if there is one.
pub open spec fn entry_at(m: Map<(u64, u32), EntryView>, chan: u64, fd: u32) -> Option<EntryView> {
    if m.contains_key((chan, fd)) {
        Some(m[(chan, fd)])
    } else {
        None
    }
}

/// `k` numbers have been given out on a channel, and none on any other.
pub open spec fn numbered(a: FileTable, b: FileTable, chan: u64, k: int) -> bool {
    forall|c: u64| #[trigger]
        b.next_fd(c) == a.next_fd(c) + (if c == chan {
            k
        } else {
            0
        })
}

/// What is known of the file of a descriptor without asking the volume: `None`
/// where it has to be asked. A descriptor of something else has no such file.
pub open spec fn cached_info(e: Option<EntryView>, fgen: u64) -> Option<Option<FileInfo>> {
    match e {
        Some(EntryView::Local { kind, fat_info, fat_gen, .. }) => if kind != FsKind::Fat {
            Some(None)
        } else if fat_info is Some && fat_gen == fgen {
            Some(fat_info)
        } else {
            None
        },
        _ => Some(None),
    }
}

/// What is known of the file of a descriptor, if it is on a volume. What was
/// cached in an earlier generation is looked up again and cached anew.
pub fn fd_fat_info<B: BlockSource>(
    ftable: &mut FileTable,
    fat: &mut Fat32<B>,
    chan: u64,
    fd: u32,
    fgen: u64,
) -> (r: Option<FileInfo>)
    requires
        old(ftable).wf(),
        old(fat).wf(),
    ensures
        final(ftable).wf(),
        final(fat).same_volume(old(fat)),
        final(fat).img() == old(fat).img(),
        final(fat).faults() >= old(fat).faults(),
        final(fat).faults() == old(fat).faults() ==> r == known_info(
            entry_at(old(ftable)@, chan, fd),
            old(fat).img(),
            old(fat).geometry(),
            fgen,
        ),
        final(fat).faults() > old(fat).faults() ==> r is None,
        cached_info(entry_at(old(ftable)@, chan, fd), fgen) matches Some(x) ==> r == x
            && *final(fat) == *old(fat),
        final(ftable)@ == (match r {
            Some(info) => old(ftable)@.insert(
                (chan, fd),
                with_info(old(ftable)@[(chan, fd)], Some(info), fgen),
            ),
            None => old(ftable)@,
        }),
        r is Some ==> old(ftable)@.contains_key((chan, fd)),
        forall|c: u64| #[trigger] final(ftable).next_fd(c) == old(ftable).next_fd(c),
{
    let ghost before = ftable@;
    let path: Vec<u8> = match ftable.entry(chan, fd) {
        Some(FileEntry::Local { path, kind: FsKind::Fat, fat_info, fat_gen, .. }) => {
            if let Some(info) = fat_info {
                if *fat_gen == fgen {
                    assert(before.insert(
                        (chan, fd),
                        with_info(before[(chan, fd)], Some(*info), fgen),
                    ) =~= before);
                    return Some(*info);
                }
            }
            copy_of(path)
        },
        _ => {
            return None;
        },
    };
    match fat.find(&path) {
        Some(info) => {
            ftable.refresh_fat_info(chan, fd, Some(info), fgen);
            Some(info)
        },
        None => None,
    }
}

/// A descriptor that was just opened is fresh: its number was not in use on
/// its channel, and all other descriptors are as before.
pub proof fn law_new_descriptor_is_fresh(
    t: FileTable,
    chan: u64,
    e: EntryView,
    other: (u64, u32),
)
    requires
        t.wf(),
    ensures
        !t@.contains_key((chan, t.next_fd(chan))),
        t@.contains_key(other) ==> t@.insert((chan, t.next_fd(chan)), e)[other] == t@[other],
{
    t.lemma_fds_below_next(chan);
}

} // verus!
