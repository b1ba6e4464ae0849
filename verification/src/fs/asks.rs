//! What is asked of drivers before a request is served. A request that is
//! refused anyway asks nobody.
use vstd::prelude::*;

use super::block::BlockSource;
use super::codes::MAX_PATH;
use super::ftable;
use super::handlers;
use super::handlers::{device_key, open_route, split_mount, DeviceRoute};
use super::mount;
use super::mount::{by_id, mount_key, path_key, pending_key, FsMount};
use super::mount_legacy;
use super::mount_legacy::{resolve_mount, Mount};
use super::ramfs;
use super::server;
use super::server::{Outcome, Outside, Request, Server};
use crate::text;

verus! {

/// The longest read.
pub const READ_MAX: usize = 4096;

/// What a driver is asked.
#[derive(Clone, Copy, PartialEq, Eq, Debug, Structural)]
pub enum DriverAsk {
    Open { chan: u64, what: u64 },
    Read { chan: u64, remote: u32, count: usize },
    List { chan: u64 },
}

/// The key of the disk whose handle has to be known before a request is served.
pub open spec fn handle_question(mounts: Seq<Mount>, req: Request) -> Option<Seq<u8>> {
    match req {
        Request::Open { path, .. } => if handlers::bad_path(path@) {
            None
        } else {
            handlers::device_key_of(path@, mounts)
        },
        _ => None,
    }
}

/// What a driver is asked before a request is served; `handle` is that of the
/// disk that the request names.
pub open spec fn driver_question<B: BlockSource>(
    s: Server<B>,
    chan: u64,
    req: Request,
    handle: Option<u32>,
) -> Option<DriverAsk> {
    match req {
        Request::Open { path, .. } => if handlers::bad_path(path@) {
            None
        } else {
            match handlers::route_of(path@, s.mounts@, handle) {
                DeviceRoute::Ask { chan: c, what, .. } => Some(DriverAsk::Open { chan: c, what }),
                _ => None,
            }
        },
        Request::Read { fd, count } => if count > READ_MAX {
            None
        } else {
            match ftable::entry_at(s.ftable@, chan, fd) {
                Some(ftable::EntryView::Remote { server_chan, remote_fd }) => Some(
                    DriverAsk::Read { chan: server_chan, remote: remote_fd, count },
                ),
                _ => None,
            }
        },
        Request::ReadDir { path } => match mount_legacy::driver_of(path@, s.mounts@) {
            Some((c, _)) => Some(DriverAsk::List { chan: c }),
            None => None,
        },
        _ => None,
    }
}

/// The key of an inactive mount.
pub open spec fn key_at<B: BlockSource>(mounts: Seq<FsMount<B>>, i: int) -> Option<Seq<u8>> {
    if 0 <= i < mounts.len() && !mounts[i].fs.active() {
        mount::asked_key(mounts[i].source@)
    } else {
        None
    }
}

/// The key of the mount that a path leads to, if it is inactive.
pub open spec fn key_below<B: BlockSource>(mounts: Seq<FsMount<B>>, path: Seq<u8>) -> Option<
    Seq<u8>,
> {
    match mount_legacy::longest(ramfs::rel_key(path), mount::targets(mounts)) {
        Some((i, _)) => key_at(mounts, i),
        None => None,
    }
}

/// The key of the mount that a descriptor belongs to, if it is inactive.
pub open spec fn key_behind<B: BlockSource>(s: Server<B>, chan: u64, fd: u32) -> Option<Seq<u8>> {
    match ftable::entry_at(s.ftable@, chan, fd) {
        Some(ftable::EntryView::Local { mnt: Some(id), .. }) => key_at(
            s.fat_mounts@,
            mount::id_index(s.fat_mounts@, id),
        ),
        _ => None,
    }
}

/// The key of the disk that has to be had before a request is served: that of a
/// source that is to be mounted, or of an inactive mount that is to be used.
pub open spec fn disk_question<B: BlockSource>(s: Server<B>, chan: u64, req: Request) -> Option<
    Seq<u8>,
> {
    match req {
        Request::Open { path, .. } | Request::Delete { path } | Request::Stat { path } => {
            if handlers::bad_path(path@) || mount_legacy::driver_of(path@, s.mounts@) is Some {
                None
            } else {
                key_below(s.fat_mounts@, path@)
            }
        },
        Request::MkDir { path } => if handlers::bad_path(path@) {
            None
        } else {
            key_below(s.fat_mounts@, path@)
        },
        Request::ReadDir { path } => if mount_legacy::driver_of(path@, s.mounts@) is Some {
            None
        } else {
            key_below(s.fat_mounts@, path@)
        },
        Request::Mount { spec } => match handlers::mount_parts(spec@) {
            Some((source, _)) => if text::trimmed_form(source) == mount::ramfs_name() {
                None
            } else {
                match mount::source_form(source) {
                    Some(n) => mount::asked_key(n),
                    None => None,
                }
            },
            None => None,
        },
        Request::Read { fd, count } => if count > READ_MAX {
            None
        } else {
            key_behind(s, chan, fd)
        },
        Request::Write { fd, .. } | Request::Seek { fd, .. } => key_behind(s, chan, fd),
        _ => None,
    }
}

/// A key, as a value.
pub open spec fn key_view(k: Option<Vec<u8>>) -> Option<Seq<u8>> {
    match k {
        Some(v) => Some(v@),
        None => None,
    }
}

fn refused(path: &[u8]) -> (r: bool)
    ensures
        r == handlers::bad_path(path@),
{
    path.len() == 0 || path.len() > MAX_PATH
}

impl<B: BlockSource> Server<B> {
    /// The key of the disk whose handle has to be known before a request is
    /// served.
    pub fn handle_key(&self, req: &Request) -> (r: Option<Vec<u8>>)
        ensures
            key_view(r) == handle_question(self.mounts@, *req),
    {
        match req {
            Request::Open { path, .. } => {
                if refused(path) {
                    None
                } else {
                    device_key(path, &self.mounts)
                }
            },
            _ => None,
        }
    }

    /// What a driver is asked before a request is served.
    pub fn driver_ask(&self, chan: u64, req: &Request, handle: Option<u32>) -> (r: Option<
        DriverAsk,
    >)
        requires
            self.wf(),
        ensures
            r == driver_question(*self, chan, *req, handle),
    {
        match req {
            Request::Open { path, .. } => {
                if refused(path) {
                    return None;
                }
                match open_route(path, &self.mounts, handle) {
                    DeviceRoute::Ask { chan: c, what, .. } => Some(
                        DriverAsk::Open { chan: c, what },
                    ),
                    _ => None,
                }
            },
            Request::Read { fd, count } => {
                if *count > READ_MAX {
                    return None;
                }
                match self.ftable.get_remote(chan, *fd) {
                    Some((c, remote)) => Some(DriverAsk::Read { chan: c, remote, count: *count }),
                    None => None,
                }
            },
            Request::ReadDir { path } => match resolve_mount(path, &self.mounts) {
                Some((c, _)) => Some(DriverAsk::List { chan: c }),
                None => None,
            },
            _ => None,
        }
    }

    fn fd_key(&self, chan: u64, fd: u32) -> (r: Option<Vec<u8>>)
        requires
            self.wf(),
        ensures
            key_view(r) == key_behind(*self, chan, fd),
    {
        match self.ftable.get(chan, fd) {
            Some((_, _, _, Some(id))) => match by_id(&self.fat_mounts, id) {
                Some(i) => pending_key(&self.fat_mounts, i),
                None => None,
            },
            _ => None,
        }
    }

    /// The key of the disk that has to be had before a request is served.
    pub fn disk_key(&self, chan: u64, req: &Request) -> (r: Option<Vec<u8>>)
        requires
            self.wf(),
        ensures
            key_view(r) == disk_question(*self, chan, *req),
    {
        match req {
            Request::Open { path, .. } | Request::Delete { path } | Request::Stat { path } => {
                if refused(path) || resolve_mount(path, &self.mounts).is_some() {
                    None
                } else {
                    path_key(&self.fat_mounts, path)
                }
            },
            Request::MkDir { path } => {
                if refused(path) {
                    None
                } else {
                    path_key(&self.fat_mounts, path)
                }
            },
            Request::ReadDir { path } => {
                if resolve_mount(path, &self.mounts).is_some() {
                    None
                } else {
                    path_key(&self.fat_mounts, path)
                }
            },
            Request::Mount { spec } => match split_mount(spec) {
                Some((source, _)) => mount_key(source),
                None => None,
            },
            Request::Read { fd, count } => {
                if *count > READ_MAX {
                    None
                } else {
                    self.fd_key(chan, *fd)
                }
            },
            Request::Write { fd, .. } => self.fd_key(chan, *fd),
            Request::Seek { fd, .. } => self.fd_key(chan, *fd),
            _ => None,
        }
    }
}

/// Where no driver is asked, no answer of one has any effect: what becomes of
/// the request is the same with any other.
pub proof fn law_unasked_reply_is_ignored<B: BlockSource>(
    a: Server<B>,
    b: Server<B>,
    chan: u64,
    req: Request,
    has_ring: bool,
    o: Outside<B>,
    reply: Option<u64>,
    out: Outcome,
)
    requires
        driver_question(a, chan, req, o.answers.handle) is None,
        server::served(a, b, chan, req, has_ring, o, out),
    ensures
        server::served(
            a,
            b,
            chan,
            req,
            has_ring,
            Outside { answers: handlers::Answers { reply, ..o.answers }, ..o },
            out,
        ),
{
}

} // verus!
