//! What the server does for each request. The answers of drivers are
//! arguments: a question that was not asked, or not answered, is `None`.
use vstd::prelude::*;
use vstd::slice::slice_subrange;

use super::block::BlockSource;
use super::codes::{
    ERR, ERR_BUSY, ERR_CLOSED, ERR_EMPTY, ERR_INVALID, ERR_ISDIR, ERR_NOTDIR, ERR_NOTFOUND,
    ERR_READONLY, MAX_PATH, O_APPEND, O_CREAT, O_TRUNC, SEEK_CUR, SEEK_END, SEEK_SET, STAT_DEVICE,
    STAT_DIR, STAT_FILE, STAT_READONLY,
};
use super::fat32::dir;
use super::fat32::faults;
use super::fat32::file;
use super::fat32::types::{Fat32, FileInfo};
use super::ftable;
use super::ftable::{fd_fat_info, FileTable};
use super::mount;
use super::mount::{
    apply_mount_spec, by_id, by_target, normalize_target, reactivate_mount, resolve_at, FsMount,
};
use super::mount_legacy;
use super::mount_legacy::{
    dev_type, disk_handle, resolve_local, resolve_mount, synth_children, union_mount_children,
    FsKind, Mount,
};
use super::pipes;
use super::pipes::PipeTable;
use super::provider;
use super::provider::{AnyHandle, EntrySink, LocalFs, LocalFsDyn, Meta, MountedFs, Names};
use super::ramfs;
use super::ramfs::{trim_root, FsNode, RamFs};
use super::rings;
use super::rings::Frame;
use crate::bytes;
use crate::bytes::{append_bytes, bytes_eq, concat, copy_of, find_byte, starts_with};

verus! {

/// What drivers answered while a file is opened: the disk of the mount that
/// the path leads to, the handle of a disk that is opened by its serial number
/// or label, and the answer to the request to open a device.
pub struct Answers<B: BlockSource> {
    pub disk: Option<B>,
    pub handle: Option<u32>,
    pub reply: Option<u64>,
}

/// What opening a path asks of a driver.
pub enum DeviceRoute {
    /// Nothing: the path is not one of a driver.
    NotDevice,
    /// The path leads to a driver, but to no device.
    Refused(u64),
    /// The driver on `chan` is asked to open `what`; with `strict` its answer
    /// may be an error.
    Ask { chan: u64, what: u64, strict: bool },
}

/// `dev/`
pub open spec fn dev_dir() -> Seq<u8> {
    seq![100u8, 101, 118, 47]
}

/// `disk/by-`
pub open spec fn by_prefix() -> Seq<u8> {
    seq![100u8, 105, 115, 107, 47, 98, 121, 45]
}

/// The last component of a path.
pub open spec fn last_part(s: Seq<u8>) -> Seq<u8>
    decreases s.len(),
{
    let j = bytes::index_from(s, 0, 47);
    if j < 0 || j >= s.len() {
        s
    } else {
        last_part(s.skip(j + 1))
    }
}

fn last_component(s: &[u8]) -> (r: &[u8])
    ensures
        r@ == last_part(s@),
{
    let mut rest: &[u8] = s;
    let mut more: bool = true;
    while more
        invariant
            last_part(s@) == last_part(rest@),
            !more ==> last_part(s@) == rest@,
        decreases
                if more {
                    rest@.len() + 1
                } else {
                    0
                },
    {
        let j: usize = find_byte(rest, 0, 47);
        proof {
            bytes::lemma_index_from(rest@, 0, 47);
        }
        if j < rest.len() {
            let next: &[u8] = slice_subrange(rest, j + 1, rest.len());
            assert(next@ =~= rest@.skip(j + 1));
            rest = next;
        } else {
            more = false;
        }
    }
    rest
}

/// What opening a path asks of a driver; `handle` is that of the disk, where
/// the path names one by its serial number or label.
pub open spec fn route_of(path: Seq<u8>, mounts: Seq<Mount>, handle: Option<u32>) -> DeviceRoute {
    match mount_legacy::driver_of(path, mounts) {
        None => DeviceRoute::NotDevice,
        Some((chan, rel)) => if rel.len() > 0 {
            match mount_legacy::device_number(rel) {
                Some(d) => DeviceRoute::Ask { chan, what: d, strict: false },
                None => DeviceRoute::Refused(ERR_NOTFOUND),
            }
        } else {
            let p = ramfs::rel_key(path);
            let name = p.skip(4);
            if !bytes::has_prefix(p, dev_dir()) {
                DeviceRoute::Refused(ERR_NOTFOUND)
            } else if bytes::has_prefix(name, by_prefix()) {
                if mount::asked_key(mount::dev_prefix() + name) is Some && handle is Some {
                    DeviceRoute::Ask { chan, what: handle->0 as u64, strict: true }
                } else {
                    DeviceRoute::Refused(ERR)
                }
            } else {
                match mount_legacy::disk_number(name) {
                    Some(h) => DeviceRoute::Ask { chan, what: h as u64, strict: true },
                    None => match mount_legacy::device_number(last_part(name)) {
                        Some(d) => DeviceRoute::Ask { chan, what: d, strict: true },
                        None => DeviceRoute::Refused(ERR_NOTFOUND),
                    },
                }
            }
        },
    }
}

/// What opening a path asks of a driver.
pub fn open_route(path: &[u8], mounts: &[Mount], handle: Option<u32>) -> (r: DeviceRoute)
    ensures
        r == route_of(path@, mounts@, handle),
{
    let (chan, rel): (u64, Vec<u8>) = match resolve_mount(path, mounts) {
        Some(x) => x,
        None => {
            return DeviceRoute::NotDevice;
        },
    };
    if rel.len() > 0 {
        return match dev_type(&rel) {
            Some(d) => DeviceRoute::Ask { chan, what: d, strict: false },
            None => DeviceRoute::Refused(ERR_NOTFOUND),
        };
    }
    let dev: [u8; 5] = [47, 100, 101, 118, 47];
    let by: [u8; 8] = [100, 105, 115, 107, 47, 98, 121, 45];
    assert(dev@ =~= mount::dev_prefix());
    assert(dev@.subrange(1, 5) =~= dev_dir());
    assert(by@ =~= by_prefix());
    let p: &[u8] = trim_root(path);
    if !starts_with(p, slice_subrange(dev.as_slice(), 1, 5)) {
        return DeviceRoute::Refused(ERR_NOTFOUND);
    }
    let name: &[u8] = slice_subrange(p, 4, p.len());
    assert(name@ =~= p@.skip(4));
    if starts_with(name, by.as_slice()) {
        let source: Vec<u8> = concat(dev.as_slice(), name);
        return match mount::resolve_mount_source(&source, handle) {
            Some(h) => DeviceRoute::Ask { chan, what: h as u64, strict: true },
            None => DeviceRoute::Refused(ERR),
        };
    }
    if let Some(h) = disk_handle(name) {
        return DeviceRoute::Ask { chan, what: h as u64, strict: true };
    }
    match dev_type(last_component(name)) {
        Some(d) => DeviceRoute::Ask { chan, what: d, strict: true },
        None => DeviceRoute::Refused(ERR_NOTFOUND),
    }
}

/// The key of the disk that has to be asked for before a path can be opened.
pub open spec fn device_key_of(path: Seq<u8>, mounts: Seq<Mount>) -> Option<Seq<u8>> {
    let p = ramfs::rel_key(path);
    match mount_legacy::driver_of(path, mounts) {
        Some((_, rel)) => if rel.len() == 0 && bytes::has_prefix(p, dev_dir()) && bytes::has_prefix(
            p.skip(4),
            by_prefix(),
        ) {
            mount::asked_key(mount::dev_prefix() + p.skip(4))
        } else {
            None
        },
        None => None,
    }
}

/// The key of the disk that has to be asked for before a path can be opened.
pub fn device_key(path: &[u8], mounts: &[Mount]) -> (r: Option<Vec<u8>>)
    ensures
        match r {
            Some(k) => device_key_of(path@, mounts@) == Some(k@),
            None => device_key_of(path@, mounts@) is None,
        },
{
    let dev: [u8; 5] = [47, 100, 101, 118, 47];
    let by: [u8; 8] = [100, 105, 115, 107, 47, 98, 121, 45];
    assert(dev@ =~= mount::dev_prefix());
    assert(dev@.subrange(1, 5) =~= dev_dir());
    assert(by@ =~= by_prefix());
    match resolve_mount(path, mounts) {
        Some((_, rel)) => {
            let p: &[u8] = trim_root(path);
            if rel.len() > 0 || !starts_with(p, slice_subrange(dev.as_slice(), 1, 5)) {
                return None;
            }
            let name: &[u8] = slice_subrange(p, 4, p.len());
            assert(name@ =~= p@.skip(4));
            if !starts_with(name, by.as_slice()) {
                return None;
            }
            mount::ask_key(&concat(dev.as_slice(), name))
        },
        None => None,
    }
}

// ── Opening ──

pub open spec fn bad_path(path: Seq<u8>) -> bool {
    path.len() == 0 || path.len() > MAX_PATH
}

/// The descriptors after a file was opened on a mounted file system.
pub open spec fn opened_fd<B: BlockSource>(
    mid: Seq<FsMount<B>>,
    after: Seq<FsMount<B>>,
    i: int,
    rel: Seq<u8>,
    flags: u32,
    gens: (u64, u64),
    fds: (Map<(u64, u32), ftable::EntryView>, Map<(u64, u32), ftable::EntryView>),
    key: (u64, u32),
    r: Result<u64, u64>,
) -> bool {
    let append = ramfs::flag_set(flags, O_APPEND);
    let mutated = ramfs::flag_set(flags, O_CREAT) || ramfs::flag_set(flags, O_TRUNC);
    &&& mount::only_fs_of(mid, after, i)
    &&& exists|h: Result<AnyHandle, u64>| #[trigger]
        provider::opened_on(mid[i].fs, after[i].fs, rel, flags, h) && match h {
            Err(_) => r == Err::<u64, u64>(ERR_NOTFOUND) && fds.1 == fds.0 && gens.1 == gens.0,
            Ok(AnyHandle::Ram(x)) => r == Ok::<u64, u64>(key.1 as u64) && gens.1 == gens.0 && fds.1
                == fds.0.insert(
                key,
                ftable::fresh_local(
                    rel,
                    FsKind::Local,
                    Some(mid[i].id),
                    Some(AnyHandle::Ram(x)),
                    None,
                    0,
                    append,
                ),
            ),
            Ok(AnyHandle::Fat(info)) => {
                &&& r == Ok::<u64, u64>(key.1 as u64)
                &&& gens.1 == (if mutated {
                    mount::bumped(gens.0)
                } else {
                    gens.0
                })
                &&& fds.1 == fds.0.insert(
                    key,
                    ftable::fresh_local(
                        rel,
                        FsKind::Fat,
                        Some(mid[i].id),
                        None,
                        Some(info),
                        gens.1,
                        append,
                    ),
                )
            },
        }
}

/// A path that leads to a mount that cannot be brought back.
pub open spec fn unserved(path: Seq<u8>) -> u64 {
    if mount_legacy::device_path(path) {
        ERR_NOTFOUND
    } else {
        ERR
    }
}

/// Opening a file on a mounted file system, which is brought back first.
pub open spec fn opened_mounted<B: BlockSource>(
    before: Seq<FsMount<B>>,
    after: Seq<FsMount<B>>,
    i: int,
    path: Seq<u8>,
    rel: Seq<u8>,
    flags: u32,
    disk: Option<B>,
    gens: (u64, u64),
    fds: (Map<(u64, u32), ftable::EntryView>, Map<(u64, u32), ftable::EntryView>),
    key: (u64, u32),
    r: Result<u64, u64>,
) -> bool {
    exists|mid: Seq<FsMount<B>>| #[trigger]
        mount::revived(before, mid, i, disk) && if mid[i].fs.active() {
            opened_fd(
                mid,
                after,
                i,
                rel,
                flags,
                (mount::gen_after(before[i].fs.active(), true, gens.0), gens.1),
                fds,
                key,
                r,
            )
        } else {
            after == mid && fds.1 == fds.0 && gens.1 == gens.0 && r == Err::<u64, u64>(
                unserved(path),
            )
        }
}

/// What opening a file for a client does.
pub open spec fn open_done<B: BlockSource>(
    tree: (ramfs::Tree, ramfs::Tree),
    tabs: (Map<(u64, u32), ftable::EntryView>, Map<(u64, u32), ftable::EntryView>),
    next: u32,
    ms: (Seq<FsMount<B>>, Seq<FsMount<B>>),
    mounts: Seq<Mount>,
    chan: u64,
    flags: u64,
    path: Seq<u8>,
    gens: (u64, u64),
    answers: Answers<B>,
    r: Result<u64, u64>,
) -> bool {
    let fl = flags as u32;
    let key = (chan, next);
    let nothing_changed = tree.1 == tree.0 && tabs.1 == tabs.0
        && ms.1 == ms.0 && gens.1 == gens.0;
    if bad_path(path) {
        r == Err::<u64, u64>(ERR_INVALID) && nothing_changed
    } else {
        match route_of(path, mounts, answers.handle) {
            DeviceRoute::Refused(e) => r == Err::<u64, u64>(e) && nothing_changed,
            DeviceRoute::Ask { chan: c, what, strict } => if answers.reply is None || (
            strict && answers.reply == Some(ERR)) {
                r == Err::<u64, u64>(ERR) && nothing_changed
            } else {
                &&& r == Ok::<u64, u64>(key.1 as u64)
                &&& tabs.1 == tabs.0.insert(
                    key,
                    ftable::EntryView::Remote {
                        server_chan: c,
                        remote_fd: answers.reply->0 as u32,
                    },
                )
                &&& tree.1 == tree.0
                &&& ms.1 == ms.0
                &&& gens.1 == gens.0
            },
            DeviceRoute::NotDevice => match mount_legacy::longest(
                ramfs::rel_key(path),
                mount::targets(ms.0),
            ) {
                Some((i, rel)) => tree.1 == tree.0 && opened_mounted(
                    ms.0,
                    ms.1,
                    i,
                    path,
                    rel,
                    fl,
                    answers.disk,
                    gens,
                    tabs,
                    key,
                    r,
                ),
                None => if mount_legacy::device_path(path) {
                    r == Err::<u64, u64>(ERR_NOTFOUND) && nothing_changed
                } else {
                    let (t, h) = ramfs::ram_opened(tree.0, path, fl);
                    &&& tree.1 == t
                    &&& ms.1 == ms.0
                    &&& gens.1 == gens.0
                    &&& match h {
                        Ok(_) => r == Ok::<u64, u64>(key.1 as u64) && tabs.1
                            == tabs.0.insert(
                            key,
                            ftable::fresh_local(
                                path,
                                FsKind::Ram,
                                None,
                                None,
                                None,
                                0,
                                ramfs::flag_set(fl, O_APPEND),
                            ),
                        ),
                        Err(e) => r == Err::<u64, u64>(e) && tabs.1 == tabs.0,
                    }
                },
            },
        }
    }
}

/// Opens a file for a client. Returns the number of its descriptor.
pub fn handle_open<B: BlockSource>(
    fs: &mut RamFs,
    ftable: &mut FileTable,
    mounts_fat: &mut Vec<FsMount<B>>,
    mounts: &[Mount],
    chan: u64,
    flags: u64,
    path: &[u8],
    fgen: &mut u64,
    answers: Answers<B>,
) -> (r: Result<u64, u64>)
    requires
        old(fs).wf(),
        old(ftable).wf(),
        mount::mounts_ready(old(mounts_fat)@),
        old(ftable).next_fd(chan) < u32::MAX,
    ensures
        final(fs).wf(),
        final(ftable).wf(),
        ftable::numbered(*old(ftable), *final(ftable), chan, (if r is Ok { 1int } else { 0 })),
        mount::mounts_ready(final(mounts_fat)@),
        open_done(
            (old(fs)@, final(fs)@),
            (old(ftable)@, final(ftable)@),
            old(ftable).next_fd(chan),
            (old(mounts_fat)@, final(mounts_fat)@),
            mounts@,
            chan,
            flags,
            path@,
            (*old(fgen), *final(fgen)),
            answers,
            r,
        ),
{
    if path.len() == 0 || path.len() > MAX_PATH {
        return Err(ERR_INVALID);
    }
    let fl: u32 = flags as u32;
    let creat: bool = fl & O_CREAT != 0;
    let trunc: bool = fl & O_TRUNC != 0;
    let append: bool = fl & O_APPEND != 0;
    match open_route(path, mounts, answers.handle) {
        DeviceRoute::NotDevice => {},
        DeviceRoute::Refused(e) => {
            return Err(e);
        },
        DeviceRoute::Ask { chan: c, what, strict } => {
            return match answers.reply {
                Some(w) => {
                    if strict && w == ERR {
                        Err(ERR)
                    } else {
                        Ok(ftable.open_remote(chan, c, w as u32))
                    }
                },
                None => Err(ERR),
            };
        },
    }
    let ghost before = mounts_fat@;
    match resolve_at(mounts_fat, path, fgen, answers.disk) {
        Some((i, rel)) => {
            let ghost mid = mounts_fat@;
            assert(mount::revived(before, mid, i as int, answers.disk));
            let id: u64 = mounts_fat[i].id;
            let opened: Result<AnyHandle, u64> = match mounts_fat[i].local_dyn() {
                Some(d) => d.open_dyn(&rel, fl),
                None => Err(ERR),
            };
            assert(provider::opened_on(mid[i as int].fs, mounts_fat@[i as int].fs, rel@, fl, opened));
            match opened {
                Ok(AnyHandle::Ram(h)) => Ok(
                    ftable.open_local(chan, &rel, id, AnyHandle::Ram(h), append),
                ),
                Ok(AnyHandle::Fat(info)) => {
                    if creat || trunc {
                        *fgen = fgen.wrapping_add(1);
                    }
                    Ok(ftable.open_fat(chan, &rel, id, info, *fgen, append))
                },
                Err(_) => Err(ERR_NOTFOUND),
            }
        },
        None => {
            let ghost mid = mounts_fat@;
            assert(mount_legacy::longest(
                ramfs::rel_key(path@),
                mount::targets(before),
            ) matches Some((i, _)) ==> mount::revived(before, mid, i, answers.disk));
            match resolve_local(mounts_fat, path) {
                Some(FsKind::Ram) => {
                    match fs.open(path, fl) {
                        Ok(_) => Ok(ftable.open(chan, path, FsKind::Ram, None, append)),
                        Err(e) => Err(e),
                    }
                },
                Some(_) => Err(ERR),
                None => Err(ERR_NOTFOUND),
            }
        },
    }
}

// ── Reading ──

/// What a read from a file in memory gives, by its path.
pub open spec fn ram_file_read(t: ramfs::Tree, path: Seq<u8>, off: int, count: int) -> Result<
    Seq<u8>,
    u64,
> {
    match ramfs::ram_opened(t, path, 0).1 {
        Err(e) => Err(e),
        Ok(k) => match ramfs::looked_up(t, ramfs::handle_path(k)) {
            Some(ramfs::NodeView::File(d, _)) => Ok(ramfs::read_part(d, off, count)),
            Some(ramfs::NodeView::Dir(_)) => Err(ERR_ISDIR),
            None => Err(ERR_NOTFOUND),
        },
    }
}

/// A response, if the client has rings.
pub open spec fn framed(has_ring: bool, result: u64, w1: u64, payload: Seq<u8>) -> Option<
    rings::FrameView,
> {
    if has_ring {
        Some(rings::FrameView { result, w1, payload })
    } else {
        None
    }
}

pub open spec fn frame_view(f: Option<Frame>) -> Option<rings::FrameView> {
    match f {
        Some(x) => Some(x@),
        None => None,
    }
}

fn frame_for(has_ring: bool, result: u64, w1: u64, payload: Vec<u8>) -> (r: Option<Frame>)
    ensures
        frame_view(r) == framed(has_ring, result, w1, payload@),
{
    if has_ring {
        Some(Frame { result, w1, payload })
    } else {
        None
    }
}

/// The end of a read: `e` is the descriptor, up to its offset.
pub open spec fn read_done(
    d: Result<Seq<u8>, u64>,
    e: ftable::EntryView,
    off: usize,
    has_ring: bool,
    fds: (Map<(u64, u32), ftable::EntryView>, Map<(u64, u32), ftable::EntryView>),
    key: (u64, u32),
    r: Result<u64, u64>,
    frame: Option<rings::FrameView>,
) -> bool {
    match d {
        Err(x) => r == Err::<u64, u64>(x) && frame is None && fds.1 == fds.0.insert(key, e),
        Ok(s) => {
            &&& r == Ok::<u64, u64>(s.len() as u64)
            &&& frame == framed(has_ring, s.len() as u64, 0, s)
            &&& fds.1 == fds.0.insert(key, ftable::moved_to(e, (off + s.len()) as usize))
        },
    }
}

/// What is known of the file of a descriptor: what was cached, or else what the
/// path leads to, or nothing where a transfer failed.
pub open spec fn info_known<B: BlockSource>(
    a: Fat32<B>,
    b: Fat32<B>,
    e: ftable::EntryView,
    g: u64,
    info: Option<FileInfo>,
) -> bool {
    &&& b.faults() == a.faults() ==> info == ftable::known_info(
        Some(e),
        a.img(),
        a.geometry(),
        g,
    )
    &&& info is None || info == ftable::known_info(Some(e), a.img(), a.geometry(), g)
    &&& ftable::cached_info(Some(e), g) matches Some(x) ==> info == x
}

/// A read from a volume.
pub open spec fn fat_read_done<B: BlockSource>(
    a: Fat32<B>,
    b: Fat32<B>,
    e: ftable::EntryView,
    g: u64,
    off: usize,
    count: int,
    has_ring: bool,
    fds: (Map<(u64, u32), ftable::EntryView>, Map<(u64, u32), ftable::EntryView>),
    key: (u64, u32),
    r: Result<u64, u64>,
    frame: Option<rings::FrameView>,
) -> bool {
    &&& provider::same_device(a, b)
    &&& b.img() == a.img()
    &&& exists|info: Option<FileInfo>| #[trigger]
        info_known(a, b, e, g, info) && match info {
            None => r == Err::<u64, u64>(ERR_NOTFOUND) && frame is None && fds.1 == fds.0,
            Some(x) => exists|d: Result<Seq<u8>, u64>| #[trigger]
                provider::read_on(
                    MountedFs::Fat(Some(a)),
                    MountedFs::Fat(Some(b)),
                    AnyHandle::Fat(x),
                    off as int,
                    count,
                    d,
                ) && read_done(d, ftable::with_info(e, Some(x), g), off, has_ring, fds, key, r, frame),
        }
}

/// A read from a file on a volume that a mount holds, which is brought back
/// first.
pub open spec fn fat_mount_read<B: BlockSource>(
    before: Seq<FsMount<B>>,
    after: Seq<FsMount<B>>,
    id: u64,
    disk: Option<B>,
    gens: (u64, u64),
    e: ftable::EntryView,
    off: usize,
    count: int,
    has_ring: bool,
    fds: (Map<(u64, u32), ftable::EntryView>, Map<(u64, u32), ftable::EntryView>),
    key: (u64, u32),
    r: Result<u64, u64>,
    frame: Option<rings::FrameView>,
) -> bool {
    let i = mount::id_index(before, id);
    exists|mid: Seq<FsMount<B>>| #[trigger]
        mount::revived(before, mid, i, disk) && if i < before.len() {
            &&& gens.1 == mount::gen_after(before[i].fs.active(), mid[i].fs.active(), gens.0)
            &&& match mid[i].fs {
                MountedFs::Fat(Some(a)) => mount::only_fs_of(mid, after, i) && (
                after[i].fs matches MountedFs::Fat(Some(b)) && fat_read_done(
                    a,
                    b,
                    e,
                    gens.1,
                    off,
                    count,
                    has_ring,
                    fds,
                    key,
                    r,
                    frame,
                )),
                _ => after == mid && r == Err::<u64, u64>(ERR) && frame is None && fds.1 == fds.0,
            }
        } else {
            after == mid && gens.1 == gens.0 && r == Err::<u64, u64>(ERR) && frame is None && fds.1
                == fds.0
        }
}

/// A read from a file by the handle that it was opened with.
pub open spec fn local_mount_read<B: BlockSource>(
    before: Seq<FsMount<B>>,
    after: Seq<FsMount<B>>,
    id: Option<u64>,
    handle: Option<AnyHandle>,
    e: ftable::EntryView,
    off: usize,
    count: int,
    has_ring: bool,
    fds: (Map<(u64, u32), ftable::EntryView>, Map<(u64, u32), ftable::EntryView>),
    key: (u64, u32),
    r: Result<u64, u64>,
    frame: Option<rings::FrameView>,
) -> bool {
    if handle is None {
        r == Err::<u64, u64>(ERR_INVALID) && frame is None && fds.1 == fds.0 && after == before
    } else if id is None || mount::id_index(before, id->0) >= before.len() {
        r == Err::<u64, u64>(ERR) && frame is None && fds.1 == fds.0 && after == before
    } else {
        let i = mount::id_index(before, id->0);
        &&& mount::only_fs_of(before, after, i)
        &&& exists|d: Result<Seq<u8>, u64>| #[trigger]
            provider::read_on(before[i].fs, after[i].fs, handle->0, off as int, count, d)
                && read_done(d, e, off, has_ring, fds, key, r, frame)
    }
}

/// What a read from a pipe gives: bytes, nothing at its end, or the refusal
/// that asks to try again.
pub open spec fn pipe_read_done(
    p0: Map<u32, pipes::PipeView>,
    p1: Map<u32, pipes::PipeView>,
    id: u32,
    count: int,
    has_ring: bool,
    r: Result<u64, u64>,
    frame: Option<rings::FrameView>,
) -> bool {
    if !p0.contains_key(id) {
        r == Err::<u64, u64>(ERR) && frame is None && p1 == p0
    } else {
        let d = p0[id].data;
        let n = pipes::smaller(d.len() as int, count);
        &&& p1 == p0.insert(id, pipes::PipeView { data: d.skip(n), ..p0[id] })
        &&& if n == 0 && p0[id].writers > 0 {
            r == Err::<u64, u64>(ERR_EMPTY) && frame == framed(
                has_ring,
                ERR_EMPTY,
                0,
                Seq::empty(),
            )
        } else {
            r == Ok::<u64, u64>(n as u64) && frame == framed(has_ring, n as u64, 0, d.take(n))
        }
    }
}

proof fn lemma_plain_open(t: ramfs::Tree, path: Seq<u8>)
    ensures
        ramfs::ram_opened(t, path, 0).0 == t,
{
    assert(forall|f: u32| #[trigger] (0u32 & f) == 0) by (bit_vector);
}

fn handle_pipe_read(pipes: &mut PipeTable, has_ring: bool, pipe_id: u32, count: usize) -> (r: (
    Result<u64, u64>,
    Option<Frame>,
))
    requires
        old(pipes).wf(),
        count <= 4096,
    ensures
        final(pipes).wf(),
        pipe_read_done(
            old(pipes)@,
            final(pipes)@,
            pipe_id,
            count as int,
            has_ring,
            r.0,
            frame_view(r.1),
        ),
{
    let mut buf: Vec<u8> = bytes::repeat_byte(0, count);
    match pipes.read(pipe_id, &mut buf) {
        Some((got, eof)) => {
            if got == 0 && !eof {
                return (Err(ERR_EMPTY), frame_for(has_ring, ERR_EMPTY, 0, Vec::new()));
            }
            let data: Vec<u8> = copy_of(slice_subrange(&buf, 0, got));
            assert(data@ =~= old(pipes)@[pipe_id].data.take(got as int));
            (Ok(got as u64), frame_for(has_ring, got as u64, 0, data))
        },
        None => (Err(ERR), None),
    }
}

/// What reading from a descriptor does.
pub open spec fn fd_read_done<B: BlockSource>(
    tree: (ramfs::Tree, ramfs::Tree),
    tabs: (Map<(u64, u32), ftable::EntryView>, Map<(u64, u32), ftable::EntryView>),
    ps: (Map<u32, pipes::PipeView>, Map<u32, pipes::PipeView>),
    ms: (Seq<FsMount<B>>, Seq<FsMount<B>>),
    has_ring: bool,
    chan: u64,
    fd: u32,
    count: usize,
    gens: (u64, u64),
    disk: Option<B>,
    reply: Option<u64>,
    r: Result<u64, u64>,
    frame: Option<rings::FrameView>,
) -> bool {
    let key = (chan, fd);
    let e = ftable::entry_at(tabs.0, chan, fd);
    let fds = tabs;
    let rest_same = ms.1 == ms.0 && gens.1 == gens.0;
    let refused = |x: u64|
        r == Err::<u64, u64>(x) && frame is None && tabs.1 == tabs.0
            && ps.1 == ps.0 && rest_same;
    if count > 4096 {
        refused(ERR_INVALID)
    } else {
        match e {
            None => refused(ERR_INVALID),
            Some(ftable::EntryView::Remote { server_chan, remote_fd }) => if !has_ring
                || reply is None {
                refused(ERR)
            } else {
                r == Ok::<u64, u64>(reply->0) && frame is None && tabs.1 == tabs.0 && ps.1 == ps.0 && rest_same
            },
            Some(ftable::EntryView::Pipe { pipe, write }) => if write {
                refused(ERR_INVALID)
            } else {
                tabs.1 == tabs.0 && rest_same && pipe_read_done(
                    ps.0,
                    ps.1,
                    pipe,
                    count as int,
                    has_ring,
                    r,
                    frame,
                )
            },
            Some(ftable::EntryView::Local { path, kind, offset, mnt, handle, .. }) => {
                &&& ps.1 == ps.0
                &&& match kind {
                    FsKind::Ram => rest_same && read_done(
                        ram_file_read(tree.0, path, offset as int, count as int),
                        e->0,
                        offset,
                        has_ring,
                        fds,
                        key,
                        r,
                        frame,
                    ),
                    FsKind::Local => gens.1 == gens.0 && local_mount_read(
                        ms.0,
                        ms.1,
                        mnt,
                        handle,
                        e->0,
                        offset,
                        count as int,
                        has_ring,
                        fds,
                        key,
                        r,
                        frame,
                    ),
                    FsKind::Fat => if mnt is None {
                        refused(ERR)
                    } else {
                        fat_mount_read(
                            ms.0,
                            ms.1,
                            mnt->0,
                            disk,
                            gens,
                            e->0,
                            offset,
                            count as int,
                            has_ring,
                            fds,
                            key,
                            r,
                            frame,
                        )
                    },
                }
            },
        }
    }
}

/// Reads from a descriptor. `reply` is the answer of the driver, if it is a
/// file of one. The response goes to the client, if it has rings.
pub fn handle_read<B: BlockSource>(
    fs: &mut RamFs,
    ftable: &mut FileTable,
    pipes: &mut PipeTable,
    mounts_fat: &mut Vec<FsMount<B>>,
    has_ring: bool,
    chan: u64,
    fd: u32,
    count: usize,
    fgen: &mut u64,
    disk: Option<B>,
    reply: Option<u64>,
) -> (r: (Result<u64, u64>, Option<Frame>))
    requires
        old(fs).wf(),
        old(ftable).wf(),
        old(pipes).wf(),
        mount::mounts_ready(old(mounts_fat)@),
    ensures
        final(fs).wf(),
        final(ftable).wf(),
        ftable::numbered(*old(ftable), *final(ftable), chan, 0),
        final(pipes).wf(),
        mount::mounts_ready(final(mounts_fat)@),
        final(fs)@ == old(fs)@,
        fd_read_done(
            (old(fs)@, final(fs)@),
            (old(ftable)@, final(ftable)@),
            (old(pipes)@, final(pipes)@),
            (old(mounts_fat)@, final(mounts_fat)@),
            has_ring,
            chan,
            fd,
            count,
            (*old(fgen), *final(fgen)),
            disk,
            reply,
            r.0,
            frame_view(r.1),
        ),
{
    if count > 4096 {
        return (Err(ERR_INVALID), None);
    }
    if let Some(_) = ftable.get_remote(chan, fd) {
        return match reply {
            Some(w) => {
                if has_ring {
                    (Ok(w), None)
                } else {
                    (Err(ERR), None)
                }
            },
            None => (Err(ERR), None),
        };
    }
    if let Some((pipe_id, write)) = ftable.get_pipe(chan, fd) {
        if write {
            return (Err(ERR_INVALID), None);
        }
        return handle_pipe_read(pipes, has_ring, pipe_id, count);
    }
    let (path, kind, offset, mnt): (Vec<u8>, FsKind, usize, Option<u64>) = match ftable.get(chan, fd) {
        Some(x) => x,
        None => {
            return (Err(ERR_INVALID), None);
        },
    };
    let ghost e = ftable@[(chan, fd)];
    let ghost t0 = ftable@;
    assert(t0.insert((chan, fd), e) =~= t0);
    let mut buf: Vec<u8> = bytes::repeat_byte(0, count);
    let n: usize = match kind {
        FsKind::Ram => {
            proof {
                lemma_plain_open(fs@, path@);
            }
            let h = match fs.open(&path, 0) {
                Ok(h) => h,
                Err(x) => {
                    return (Err(x), None);
                },
            };
            let ghost t = fs@;
            match fs.read(h, offset, &mut buf) {
                Ok(n) => {
                    proof {
                        let d = ramfs::looked_up(t, h@)->0->File_0;
                        let part = ramfs::read_part(d, offset as int, count as int);
                        assert(part.len() <= count);
                        assert(buf@.take(n as int) =~= part);
                    }
                    n
                },
                Err(x) => {
                    return (Err(x), None);
                },
            }
        },
        FsKind::Local => {
            let h: AnyHandle = match ftable.get_dyn_handle(chan, fd) {
                Some(h) => h,
                None => {
                    return (Err(ERR_INVALID), None);
                },
            };
            let id: u64 = match mnt {
                Some(id) => id,
                None => {
                    return (Err(ERR), None);
                },
            };
            let i: usize = match by_id(mounts_fat, id) {
                Some(i) => i,
                None => {
                    return (Err(ERR), None);
                },
            };
            let got: Result<usize, u64> = match mounts_fat[i].local_dyn() {
                Some(d) => d.read_dyn(h, offset, &mut buf),
                None => Err(ERR),
            };
            assert(provider::read_on(
                old(mounts_fat)@[i as int].fs,
                mounts_fat@[i as int].fs,
                h,
                offset as int,
                count as int,
                provider::bytes_read(got, buf@),
            ));
            match got {
                Ok(n) => n,
                Err(x) => {
                    return (Err(x), None);
                },
            }
        },
        FsKind::Fat => {
            let id: u64 = match mnt {
                Some(id) => id,
                None => {
                    return (Err(ERR), None);
                },
            };
            let ghost before = mounts_fat@;
            proof {
                mount::lemma_id_index(before, id);
            }
            let i: usize = match by_id(mounts_fat, id) {
                Some(i) => i,
                None => {
                    assert(mount::revived(before, before, mount::id_index(before, id), disk));
                    return (Err(ERR), None);
                },
            };
            let ok: bool = reactivate_mount(mounts_fat, i, fgen, disk);
            let ghost mid = mounts_fat@;
            assert(mount::revived(before, mid, i as int, disk));
            if !ok {
                return (Err(ERR), None);
            }
            let g: u64 = *fgen;
            let fat = match mounts_fat[i].fat_mut() {
                Some(f) => f,
                None => {
                    assert(mounts_fat@ =~= mid);
                    return (Err(ERR), None);
                },
            };
            let ghost a = *fat;
            let info: Option<FileInfo> = fd_fat_info(ftable, fat, chan, fd, g);
            let ghost a1 = *fat;
            let x: FileInfo = match info {
                Some(x) => x,
                None => {
                    assert(info_known(a, a1, e, g, None));
                    assert(mounts_fat@[i as int].fs == MountedFs::Fat(Some(a1)));
                    return (Err(ERR_NOTFOUND), None);
                },
            };
            let got: Result<usize, u64> = fat.read(x, offset, &mut buf);
            let ghost b = *fat;
            proof {
                let d = provider::bytes_read(got, buf@);
                assert(info_known(a, b, e, g, Some(x)));
                assert(provider::read_on(
                    MountedFs::Fat(Some(a)),
                    MountedFs::Fat(Some(b)),
                    AnyHandle::Fat(x),
                    offset as int,
                    count as int,
                    d,
                ));
                assert(t0.insert((chan, fd), ftable::with_info(e, Some(x), g)) =~= ftable@);
            }
            match got {
                Ok(n) => {
                    assert(n > 0 ==> offset + n <= x.size);
                    n
                },
                Err(y) => {
                    return (Err(y), None);
                },
            }
        },
    };
    let data: Vec<u8> = copy_of(slice_subrange(&buf, 0, n));
    assert(data@ =~= buf@.take(n as int));
    let ghost e1 = ftable@[(chan, fd)];
    assert(ftable@ =~= t0.insert((chan, fd), e1));
    ftable.set_offset(chan, fd, offset + n);
    assert(ftable@ =~= t0.insert((chan, fd), ftable::moved_to(e1, (offset + n) as usize)));
    (Ok(n as u64), frame_for(has_ring, n as u64, 0, data))
}

/// The pipe `id` was made, with descriptors for both of its ends.
pub open spec fn pipe_made(
    tabs: (Map<(u64, u32), ftable::EntryView>, Map<(u64, u32), ftable::EntryView>),
    next: u32,
    ps: (Map<u32, pipes::PipeView>, Map<u32, pipes::PipeView>),
    chan: u64,
    hint: usize,
    id: u32,
) -> bool {
    &&& id != 0
    &&& !ps.0.contains_key(id)
    &&& ps.1 == ps.0.insert(
        id,
        (pipes::PipeView {
            data: Seq::empty(),
            cap: pipes::capacity_for(hint),
            readers: 1,
            writers: 1,
        }),
    )
    &&& tabs.1 == tabs.0.insert(
        (chan, next),
        ftable::EntryView::Pipe { pipe: id, write: false },
    ).insert((chan, (next + 1) as u32), ftable::EntryView::Pipe { pipe: id, write: true })
}

/// What making a pipe does.
pub open spec fn pipe_created(
    tabs: (Map<(u64, u32), ftable::EntryView>, Map<(u64, u32), ftable::EntryView>),
    next: u32,
    ps: (Map<u32, pipes::PipeView>, Map<u32, pipes::PipeView>),
    chan: u64,
    hint: usize,
    r: Result<(u64, u64), u64>,
) -> bool {
    &&& r == Ok::<(u64, u64), u64>((next as u64, (next + 1) as u64))
    &&& exists|id: u32| pipe_made(tabs, next, ps, chan, hint, id)
}

/// Makes a pipe, and descriptors for both of its ends: the one to read from,
/// and the one to write into.
pub fn handle_pipe_create(
    ftable: &mut FileTable,
    pipes: &mut PipeTable,
    chan: u64,
    hint: usize,
) -> (r: Result<(u64, u64), u64>)
    requires
        old(ftable).wf(),
        old(pipes).wf(),
        old(pipes).has_room(),
        old(ftable).next_fd(chan) < u32::MAX - 1,
    ensures
        final(ftable).wf(),
        ftable::numbered(*old(ftable), *final(ftable), chan, (if r is Ok { 2int } else { 0 })),
        final(pipes).wf(),
        pipe_created(
            (old(ftable)@, final(ftable)@),
            old(ftable).next_fd(chan),
            (old(pipes)@, final(pipes)@),
            chan,
            hint,
            r,
        ),
{
    let id: u32 = pipes.create(hint);
    let r: u64 = ftable.open_pipe(chan, id, false);
    let w: u64 = ftable.open_pipe(chan, id, true);
    assert(pipe_made(
        (old(ftable)@, ftable@),
        old(ftable).next_fd(chan),
        (old(pipes)@, pipes@),
        chan,
        hint,
        id,
    ));
    Ok((r, w))
}

// ── Writing ──

/// Writes to a file of a driver; `reply` is its answer.
pub fn handle_write_remote(
    ftable: &FileTable,
    has_ring: bool,
    chan: u64,
    fd: u32,
    reply: Option<u64>,
) -> (r: Result<u64, u64>)
    requires
        ftable.wf(),
    ensures
        r == (match ftable::entry_at(ftable@, chan, fd) {
            Some(ftable::EntryView::Remote { .. }) => if has_ring && reply is Some {
                Ok::<u64, u64>(reply->0)
            } else {
                Err(ERR)
            },
            _ => Err(ERR_INVALID),
        }),
{
    if ftable.get_remote(chan, fd).is_none() {
        return Err(ERR_INVALID);
    }
    if !has_ring {
        return Err(ERR);
    }
    match reply {
        Some(w) => Ok(w),
        None => Err(ERR),
    }
}

/// What is written: as much of the payload as was announced.
pub open spec fn announced(payload: Seq<u8>, count: int) -> Seq<u8> {
    payload.take(pipes::smaller(count, payload.len() as int))
}

/// A write to a pipe.
pub open spec fn pipe_write_done(
    p0: Map<u32, pipes::PipeView>,
    p1: Map<u32, pipes::PipeView>,
    id: u32,
    data: Seq<u8>,
    r: Result<u64, u64>,
) -> bool {
    if !p0.contains_key(id) || p0[id].readers == 0 {
        r == Err::<u64, u64>(ERR_CLOSED) && p1 == p0
    } else {
        let n = pipes::smaller(data.len() as int, p0[id].cap - p0[id].data.len());
        &&& p1 == p0.insert(id, pipes::PipeView { data: p0[id].data + data.take(n), ..p0[id] })
        &&& r == (if n == 0 {
            Err::<u64, u64>(ERR_EMPTY)
        } else {
            Ok(n as u64)
        })
    }
}

/// The offset behind a write: with `append` the end of the file, if known.
pub open spec fn offset_after(append: bool, size: Option<int>, off: usize, n: int) -> usize {
    if append && size is Some {
        size->0 as usize
    } else {
        advanced(off, n)
    }
}

/// An offset moved on by `n`, no further than an offset can be.
pub open spec fn advanced(off: usize, n: int) -> usize {
    if off + n <= usize::MAX {
        (off + n) as usize
    } else {
        usize::MAX
    }
}

fn advance(off: usize, n: usize) -> (r: usize)
    ensures
        r == advanced(off, n as int),
{
    match off.checked_add(n) {
        Some(x) => x,
        None => usize::MAX,
    }
}

pub open spec fn meta_size(m: Result<Meta, u64>) -> Option<int> {
    match m {
        Ok(x) => Some(x.size as int),
        Err(_) => None,
    }
}

pub open spec fn info_size(i: Option<FileInfo>) -> Option<int> {
    match i {
        Some(x) => Some(x.size as int),
        None => None,
    }
}

/// The end of a write to a file by the handle that it was opened with; `mid` is
/// the file system once `n` bytes were written.
pub open spec fn local_write_end<B: BlockSource>(
    mid: MountedFs<B>,
    b: MountedFs<B>,
    n: Result<usize, u64>,
    path: Seq<u8>,
    off: usize,
    append: bool,
    e: ftable::EntryView,
    fds: (Map<(u64, u32), ftable::EntryView>, Map<(u64, u32), ftable::EntryView>),
    key: (u64, u32),
    r: Result<u64, u64>,
) -> bool {
    match n {
        Err(x) => r == Err::<u64, u64>(x) && b == mid && fds.1 == fds.0,
        Ok(k) => {
            &&& r == Ok::<u64, u64>(k as u64)
            &&& if append {
                exists|m: Result<Meta, u64>| #[trigger]
                    provider::asked_on(mid, b, path, m) && fds.1 == fds.0.insert(
                        key,
                        ftable::moved_to(e, offset_after(true, meta_size(m), off, k as int)),
                    )
            } else {
                b == mid && fds.1 == fds.0.insert(key, ftable::moved_to(e, advanced(off, k as int)))
            }
        },
    }
}

/// A write to a file of the mount at a position of the table.
pub open spec fn mount_write_at<B: BlockSource>(
    before: Seq<FsMount<B>>,
    after: Seq<FsMount<B>>,
    i: int,
    handle: AnyHandle,
    path: Seq<u8>,
    off: usize,
    data: Seq<u8>,
    append: bool,
    e: ftable::EntryView,
    fds: (Map<(u64, u32), ftable::EntryView>, Map<(u64, u32), ftable::EntryView>),
    key: (u64, u32),
    r: Result<u64, u64>,
) -> bool {
    &&& mount::only_fs_of(before, after, i)
    &&& exists|mid: MountedFs<B>, n: Result<usize, u64>| #[trigger]
        provider::wrote_on(before[i].fs, mid, handle, off as int, data, append, n)
            && local_write_end(mid, after[i].fs, n, path, off, append, e, fds, key, r)
}

/// A write to a file on a mount by the handle that it was opened with.
pub open spec fn local_mount_write<B: BlockSource>(
    before: Seq<FsMount<B>>,
    after: Seq<FsMount<B>>,
    id: Option<u64>,
    handle: Option<AnyHandle>,
    path: Seq<u8>,
    off: usize,
    data: Seq<u8>,
    append: bool,
    e: ftable::EntryView,
    fds: (Map<(u64, u32), ftable::EntryView>, Map<(u64, u32), ftable::EntryView>),
    key: (u64, u32),
    r: Result<u64, u64>,
) -> bool {
    if handle is None {
        r == Err::<u64, u64>(ERR_INVALID) && fds.1 == fds.0 && after == before
    } else if id is None || mount::id_index(before, id->0) >= before.len() {
        r == Err::<u64, u64>(ERR) && fds.1 == fds.0 && after == before
    } else {
        let i = mount::id_index(before, id->0);
        mount_write_at(before, after, i, handle->0, path, off, data, append, e, fds, key, r)
    }
}

/// What a write to a file of a volume did, and what is known of the file then.
pub open spec fn fat_wrote<B: BlockSource>(
    a: Fat32<B>,
    b: Fat32<B>,
    x: FileInfo,
    path: Seq<u8>,
    at: int,
    data: Seq<u8>,
    n: usize,
    fresh: Option<FileInfo>,
) -> bool {
    &&& n <= data.len()
    &&& b.faults() == a.faults() ==> (b.img(), n as int) == file::grown(
        a.img(),
        a.geometry(),
        x,
        at,
        data,
    ) && fresh == dir::found(b.img(), a.geometry(), path)
    &&& faults::grow_outcome(a.img(), a.geometry(), x, at, data, n as int, b.img())
    &&& fresh is None || fresh == dir::found(b.img(), a.geometry(), path)
}

/// Where a write to a volume goes.
pub open spec fn write_pos(append: bool, x: FileInfo, off: usize) -> int {
    if append {
        x.size as int
    } else {
        off as int
    }
}

/// A write to a volume.
pub open spec fn fat_write_done<B: BlockSource>(
    a: Fat32<B>,
    b: Fat32<B>,
    e: ftable::EntryView,
    path: Seq<u8>,
    off: usize,
    data: Seq<u8>,
    append: bool,
    gens: (u64, u64),
    fds: (Map<(u64, u32), ftable::EntryView>, Map<(u64, u32), ftable::EntryView>),
    key: (u64, u32),
    r: Result<u64, u64>,
) -> bool {
    let g = gens.0;
    &&& provider::same_device(a, b)
    &&& exists|info: Option<FileInfo>| #[trigger]
        info_known(a, b, e, g, info) && match info {
            None => r == Err::<u64, u64>(ERR_NOTFOUND) && fds.1 == fds.0 && gens.1 == g && b.img()
                == a.img(),
            Some(x) => if x.is_dir {
                r == Err::<u64, u64>(ERR_ISDIR) && fds.1 == fds.0.insert(
                    key,
                    ftable::with_info(e, Some(x), g),
                ) && gens.1 == g && b.img() == a.img()
            } else {
                &&& gens.1 == mount::bumped(g)
                &&& exists|n: usize, fresh: Option<FileInfo>| #[trigger]
                    fat_wrote(a, b, x, path, write_pos(append, x, off), data, n, fresh) && r == Ok::<u64, u64>(
                        n as u64,
                    ) && fds.1 == fds.0.insert(
                        key,
                        ftable::moved_to(
                            ftable::with_info(
                                ftable::with_info(e, Some(x), g),
                                fresh,
                                gens.1,
                            ),
                            offset_after(append, info_size(fresh), off, n as int),
                        ),
                    )
            },
        }
}

/// A write to a file on a volume that a mount holds, which is brought back
/// first.
pub open spec fn fat_mount_write<B: BlockSource>(
    before: Seq<FsMount<B>>,
    after: Seq<FsMount<B>>,
    id: u64,
    disk: Option<B>,
    gens: (u64, u64),
    e: ftable::EntryView,
    path: Seq<u8>,
    off: usize,
    data: Seq<u8>,
    append: bool,
    fds: (Map<(u64, u32), ftable::EntryView>, Map<(u64, u32), ftable::EntryView>),
    key: (u64, u32),
    r: Result<u64, u64>,
) -> bool {
    let i = mount::id_index(before, id);
    exists|mid: Seq<FsMount<B>>| #[trigger]
        mount::revived(before, mid, i, disk) && if i < before.len() {
            let g = mount::gen_after(before[i].fs.active(), mid[i].fs.active(), gens.0);
            match mid[i].fs {
                MountedFs::Fat(Some(a)) => mount::only_fs_of(mid, after, i) && (
                after[i].fs matches MountedFs::Fat(Some(b)) && fat_write_done(
                    a,
                    b,
                    e,
                    path,
                    off,
                    data,
                    append,
                    (g, gens.1),
                    fds,
                    key,
                    r,
                )),
                _ => after == mid && gens.1 == g && r == Err::<u64, u64>(ERR) && fds.1 == fds.0,
            }
        } else {
            after == mid && gens.1 == gens.0 && r == Err::<u64, u64>(ERR) && fds.1 == fds.0
        }
}

/// A write to a file in memory, by its path: the tree, and the result.
pub open spec fn ram_file_write(
    t: ramfs::Tree,
    path: Seq<u8>,
    off: int,
    data: Seq<u8>,
    append: bool,
) -> (ramfs::Tree, Result<usize, u64>) {
    match ramfs::ram_opened(t, path, O_CREAT) {
        (t1, Ok(k)) => ramfs::ram_wrote(t1, ramfs::handle_path(k), off, data, append),
        (t1, Err(e)) => (t1, Err(e)),
    }
}

/// A write of `n` bytes would end beyond the positions that there are: those of
/// a file in memory, or those that can be counted. With `append` the offset says
/// nothing.
pub open spec fn beyond_reach(kind: FsKind, append: bool, offset: usize, n: int) -> bool {
    let end = if append {
        n
    } else {
        offset + n
    };
    let last: int = if kind == FsKind::Fat {
        0xFFFF_FFFE_0000_0000
    } else {
        0x7FFF_FFFF_FFFF_FFFF
    };
    end > last || end > usize::MAX
}

fn is_beyond_reach(kind: FsKind, append: bool, offset: usize, n: usize) -> (r: bool)
    ensures
        r == beyond_reach(kind, append, offset, n as int),
{
    let last: u64 = match kind {
        FsKind::Fat => 0xFFFF_FFFE_0000_0000,
        _ => 0x7FFF_FFFF_FFFF_FFFF,
    };
    if append {
        n as u64 > last
    } else {
        match offset.checked_add(n) {
            Some(end) => end as u64 > last,
            None => true,
        }
    }
}

/// What writing to a local file or a pipe does.
pub open spec fn fd_write_done<B: BlockSource>(
    tree: (ramfs::Tree, ramfs::Tree),
    tabs: (Map<(u64, u32), ftable::EntryView>, Map<(u64, u32), ftable::EntryView>),
    ps: (Map<u32, pipes::PipeView>, Map<u32, pipes::PipeView>),
    ms: (Seq<FsMount<B>>, Seq<FsMount<B>>),
    chan: u64,
    fd: u32,
    count: usize,
    payload: Seq<u8>,
    gens: (u64, u64),
    disk: Option<B>,
    r: Result<u64, u64>,
) -> bool {
    let key = (chan, fd);
    let e = ftable::entry_at(tabs.0, chan, fd);
    let fds = tabs;
    let data = announced(payload, count as int);
    let rest_same = ms.1 == ms.0 && gens.1 == gens.0;
    let refused = |x: u64|
        r == Err::<u64, u64>(x) && tree.1 == tree.0 && tabs.1 == tabs.0 && ps.1 == ps.0 && rest_same;
    match e {
        Some(ftable::EntryView::Pipe { pipe, write }) => if !write {
            refused(ERR_INVALID)
        } else {
            tree.1 == tree.0 && tabs.1 == tabs.0 && rest_same
                && pipe_write_done(ps.0, ps.1, pipe, data, r)
        },
        Some(ftable::EntryView::Local { path, kind, offset, mnt, handle, append, .. }) => {
            &&& ps.1 == ps.0
            &&& if beyond_reach(kind, append, offset, payload.len() as int) {
                refused(ERR_INVALID)
            } else {
                match kind {
                    FsKind::Ram => {
                        let (t, n) = ram_file_write(
                            tree.0,
                            path,
                            offset as int,
                            payload,
                            append,
                        );
                        &&& rest_same
                        &&& tree.1 == t
                        &&& match n {
                            Ok(k) => r == Ok::<u64, u64>(k as u64) && tabs.1 == tabs.0.insert(key, ftable::moved_to(e->0, advanced(offset, k as int))),
                            Err(x) => r == Err::<u64, u64>(x) && tabs.1 == tabs.0,
                        }
                    },
                    FsKind::Local => tree.1 == tree.0 && gens.1 == gens.0
                        && local_mount_write(
                        ms.0,
                        ms.1,
                        mnt,
                        handle,
                        path,
                        offset,
                        data,
                        append,
                        e->0,
                        fds,
                        key,
                        r,
                    ),
                    FsKind::Fat => if mnt is None {
                        refused(ERR)
                    } else {
                        tree.1 == tree.0 && fat_mount_write(
                            ms.0,
                            ms.1,
                            mnt->0,
                            disk,
                            gens,
                            e->0,
                            path,
                            offset,
                            data,
                            append,
                            fds,
                            key,
                            r,
                        )
                    },
                }
            }
        },
        _ => refused(ERR_INVALID),
    }
}

/// Writes to a local file or a pipe.
#[verifier::rlimit(40)]
pub fn handle_write_local<B: BlockSource>(
    fs: &mut RamFs,
    ftable: &mut FileTable,
    pipes: &mut PipeTable,
    mounts_fat: &mut Vec<FsMount<B>>,
    chan: u64,
    fd: u32,
    count: usize,
    payload: &[u8],
    fgen: &mut u64,
    disk: Option<B>,
) -> (r: Result<u64, u64>)
    requires
        old(fs).wf(),
        old(ftable).wf(),
        old(pipes).wf(),
        mount::mounts_ready(old(mounts_fat)@),
    ensures
        final(fs).wf(),
        final(ftable).wf(),
        ftable::numbered(*old(ftable), *final(ftable), chan, 0),
        final(pipes).wf(),
        mount::mounts_ready(final(mounts_fat)@),
        fd_write_done(
            (old(fs)@, final(fs)@),
            (old(ftable)@, final(ftable)@),
            (old(pipes)@, final(pipes)@),
            (old(mounts_fat)@, final(mounts_fat)@),
            chan,
            fd,
            count,
            payload@,
            (*old(fgen), *final(fgen)),
            disk,
            r,
        ),
{
    let want: usize = if count < payload.len() {
        count
    } else {
        payload.len()
    };
    let data: &[u8] = slice_subrange(payload, 0, want);
    assert(data@ =~= announced(payload@, count as int));
    if let Some((pipe_id, write)) = ftable.get_pipe(chan, fd) {
        if !write {
            return Err(ERR_INVALID);
        }
        if !pipes.has_readers(pipe_id) {
            return Err(ERR_CLOSED);
        }
        return match pipes.write(pipe_id, data) {
            Some(n) => {
                if n == 0 {
                    Err(ERR_EMPTY)
                } else {
                    Ok(n as u64)
                }
            },
            None => Err(ERR),
        };
    }
    let (path, kind, offset, mnt): (Vec<u8>, FsKind, usize, Option<u64>) = match ftable.get(chan, fd) {
        Some(x) => x,
        None => {
            return Err(ERR_INVALID);
        },
    };
    let append: bool = ftable.is_append(chan, fd);
    if is_beyond_reach(kind, append, offset, payload.len()) {
        return Err(ERR_INVALID);
    }
    match kind {
        FsKind::Local => {
            let h: AnyHandle = match ftable.get_dyn_handle(chan, fd) {
                Some(h) => h,
                None => {
                    return Err(ERR_INVALID);
                },
            };
            match mnt {
                Some(id) => write_by_handle(
                    ftable,
                    mounts_fat,
                    chan,
                    fd,
                    id,
                    h,
                    &path,
                    offset,
                    data,
                    append,
                ),
                None => Err(ERR),
            }
        },
        FsKind::Fat => match mnt {
            Some(id) => write_to_volume(
                ftable,
                mounts_fat,
                chan,
                fd,
                id,
                &path,
                offset,
                data,
                append,
                fgen,
                disk,
            ),
            None => Err(ERR),
        },
        FsKind::Ram => {
            let h = match fs.open(&path, O_CREAT) {
                Ok(h) => h,
                Err(x) => {
                    return Err(x);
                },
            };
            match fs.write(h, offset, payload, append) {
                Ok(n) => {
                    ftable.set_offset(chan, fd, advance(offset, n));
                    Ok(n as u64)
                },
                Err(x) => Err(x),
            }
        },
    }
}

fn write_by_handle<B: BlockSource>(
    ftable: &mut FileTable,
    mounts_fat: &mut Vec<FsMount<B>>,
    chan: u64,
    fd: u32,
    id: u64,
    h: AnyHandle,
    path: &[u8],
    offset: usize,
    data: &[u8],
    append: bool,
) -> (r: Result<u64, u64>)
    requires
        old(ftable).wf(),
        old(ftable)@.contains_key((chan, fd)),
        mount::mounts_ready(old(mounts_fat)@),
        provider::write_fits(offset, data@.len() as int, append),
    ensures
        final(ftable).wf(),
        ftable::numbered(*old(ftable), *final(ftable), chan, 0),
        mount::mounts_ready(final(mounts_fat)@),
        local_mount_write(
            old(mounts_fat)@,
            final(mounts_fat)@,
            Some(id),
            Some(h),
            path@,
            offset,
            data@,
            append,
            old(ftable)@[(chan, fd)],
            (old(ftable)@, final(ftable)@),
            (chan, fd),
            r,
        ),
{
    let ghost before = mounts_fat@;
    let ghost e = ftable@[(chan, fd)];
    proof {
        mount::lemma_id_index(before, id);
    }
    let i: usize = match by_id(mounts_fat, id) {
        Some(i) => i,
        None => {
            return Err(ERR);
        },
    };
    let ghost a = before[i as int].fs;
    let wrote: Result<usize, u64> = match mounts_fat[i].local_dyn() {
        Some(d) => d.write_dyn(h, offset, data, append),
        None => Err(ERR),
    };
    let ghost mid = mounts_fat@[i as int].fs;
    assert(provider::wrote_on(a, mid, h, offset as int, data@, append, wrote));
    let n: usize = match wrote {
        Ok(n) => n,
        Err(x) => {
            return Err(x);
        },
    };
    let new_off: usize = if append {
        let asked: Result<Meta, u64> = match mounts_fat[i].local_dyn() {
            Some(d) => d.stat_dyn(path),
            None => Err(ERR),
        };
        assert(provider::asked_on(mid, mounts_fat@[i as int].fs, path@, asked));
        match asked {
            Ok(m) => m.size as usize,
            Err(_) => advance(offset, n),
        }
    } else {
        advance(offset, n)
    };
    ftable.set_offset(chan, fd, new_off);
    Ok(n as u64)
}

fn write_to_volume<B: BlockSource>(
    ftable: &mut FileTable,
    mounts_fat: &mut Vec<FsMount<B>>,
    chan: u64,
    fd: u32,
    id: u64,
    path: &[u8],
    offset: usize,
    data: &[u8],
    append: bool,
    fgen: &mut u64,
    disk: Option<B>,
) -> (r: Result<u64, u64>)
    requires
        old(ftable).wf(),
        old(ftable)@.contains_key((chan, fd)),
        mount::mounts_ready(old(mounts_fat)@),
        provider::write_fits(offset, data@.len() as int, append),
    ensures
        final(ftable).wf(),
        ftable::numbered(*old(ftable), *final(ftable), chan, 0),
        mount::mounts_ready(final(mounts_fat)@),
        fat_mount_write(
            old(mounts_fat)@,
            final(mounts_fat)@,
            id,
            disk,
            (*old(fgen), *final(fgen)),
            old(ftable)@[(chan, fd)],
            path@,
            offset,
            data@,
            append,
            (old(ftable)@, final(ftable)@),
            (chan, fd),
            r,
        ),
{
    let ghost before = mounts_fat@;
    let ghost e = ftable@[(chan, fd)];
    let ghost t0 = ftable@;
    let ghost key = (chan, fd);
    proof {
        mount::lemma_id_index(before, id);
    }
    let i: usize = match by_id(mounts_fat, id) {
        Some(i) => i,
        None => {
            assert(mount::revived(before, before, mount::id_index(before, id), disk));
            return Err(ERR);
        },
    };
    let ok: bool = reactivate_mount(mounts_fat, i, fgen, disk);
    let ghost mid = mounts_fat@;
    assert(mount::revived(before, mid, i as int, disk));
    if !ok {
        return Err(ERR);
    }
    let g: u64 = *fgen;
    let fat = match mounts_fat[i].fat_mut() {
        Some(f) => f,
        None => {
            assert(mounts_fat@ =~= mid);
            return Err(ERR);
        },
    };
    let ghost a = *fat;
    let info: Option<FileInfo> = fd_fat_info(ftable, fat, chan, fd, g);
    let ghost a1 = *fat;
    let x: FileInfo = match info {
        Some(x) => x,
        None => {
            assert(info_known(a, a1, e, g, None));
            return Err(ERR_NOTFOUND);
        },
    };
    if x.is_dir {
        assert(info_known(a, a1, e, g, Some(x)));
        return Err(ERR_ISDIR);
    }
    let wrote: Result<usize, u64> = fat.write(x, offset, data, append);
    let n: usize = match wrote {
        Ok(n) => n,
        Err(y) => {
            assert(false);
            return Err(y);
        },
    };
    let ghost a2 = *fat;
    *fgen = fgen.wrapping_add(1);
    let g2: u64 = *fgen;
    let fresh: Option<FileInfo> = fat.find(path);
    let ghost b = *fat;
    let new_off: usize = if append {
        match fresh {
            Some(y) => y.size as usize,
            None => advance(offset, n),
        }
    } else {
        advance(offset, n)
    };
    ftable.refresh_fat_info(chan, fd, fresh, g2);
    ftable.set_offset(chan, fd, new_off);
    proof {
        assert(info_known(a, b, e, g, Some(x)));
        assert(fat_wrote(a, b, x, path@, write_pos(append, x, offset), data@, n, fresh));
        assert(ftable@ =~= t0.insert(
            key,
            ftable::moved_to(
                ftable::with_info(ftable::with_info(e, Some(x), g), fresh, g2),
                offset_after(append, info_size(fresh), offset, n as int),
            ),
        ));
    }
    Ok(n as u64)
}

// ── Closing ──

/// What closing a descriptor does; `told` is the file of a driver, if it is one.
pub open spec fn close_done(
    tabs: (Map<(u64, u32), ftable::EntryView>, Map<(u64, u32), ftable::EntryView>),
    ps: (Map<u32, pipes::PipeView>, Map<u32, pipes::PipeView>),
    chan: u64,
    fd: u32,
    r: Result<u64, u64>,
    told: Option<(u64, u32)>,
) -> bool {
    &&& tabs.1 == tabs.0.remove((chan, fd))
    &&& match ftable::entry_at(tabs.0, chan, fd) {
        None => r == Err::<u64, u64>(ERR_INVALID) && told is None && ps.1 == ps.0,
        Some(ftable::EntryView::Pipe { pipe, write }) => r == Ok::<u64, u64>(0) && told is None
            && ps.1 == pipes::after_close(ps.0, pipe, write),
        Some(ftable::EntryView::Remote { server_chan, remote_fd }) => r == Ok::<u64, u64>(0) && told
            == Some((server_chan, remote_fd)) && ps.1 == ps.0,
        Some(ftable::EntryView::Local { .. }) => r == Ok::<u64, u64>(0) && told is None && ps.1
            == ps.0,
    }
}

/// Closes a descriptor. For a file of a driver, the channel of the driver and
/// the number of the file there are returned too: it is to be told.
pub fn handle_close(
    ftable: &mut FileTable,
    pipes: &mut PipeTable,
    chan: u64,
    fd: u32,
) -> (r: (Result<u64, u64>, Option<(u64, u32)>))
    requires
        old(ftable).wf(),
        old(pipes).wf(),
    ensures
        final(ftable).wf(),
        ftable::numbered(*old(ftable), *final(ftable), chan, 0),
        final(pipes).wf(),
        close_done((old(ftable)@, final(ftable)@), (old(pipes)@, final(pipes)@), chan, fd, r.0, r.1),
{
    if let Some((pipe_id, write)) = ftable.get_pipe(chan, fd) {
        ftable.close(chan, fd);
        pipes.end_closed(pipe_id, write);
        return (Ok(0), None);
    }
    let told: Option<(u64, u32)> = ftable.get_remote(chan, fd);
    if ftable.close(chan, fd) {
        (Ok(0), told)
    } else {
        (Err(ERR_INVALID), None)
    }
}

// ── Directories ──

/// Names as a client gets them: each ends with a zero byte, and so does the
/// whole.
pub open spec fn packed(names: Seq<Seq<u8>>) -> Seq<u8> {
    zero_ended(names).push(0)
}

pub open spec fn zero_ended(names: Seq<Seq<u8>>) -> Seq<u8>
    decreases names.len(),
{
    if names.len() == 0 {
        Seq::empty()
    } else {
        zero_ended(names.drop_last()) + names.last().push(0)
    }
}

/// Names as a client gets them.
pub fn pack_names(names: &Vec<Vec<u8>>) -> (r: Vec<u8>)
    ensures
        r@ == packed(bytes::views(names@)),
{
    let ghost ns = bytes::views(names@);
    let mut buf: Vec<u8> = Vec::new();
    let mut i: usize = 0;
    assert(ns.take(0) =~= Seq::empty());
    while i < names.len()
        invariant
            i <= names@.len(),
            ns == bytes::views(names@),
            buf@ == zero_ended(ns.take(i as int)),
        decreases names@.len() - i,
    {
        let ghost b0 = buf@;
        proof {
            assert(ns.take(i + 1).drop_last() =~= ns.take(i as int));
            assert(ns.take(i + 1).last() == names@[i as int]@);
        }
        append_bytes(&mut buf, &names[i]);
        buf.push(0);
        assert(buf@ =~= b0 + names@[i as int]@.push(0));
        i += 1;
    }
    assert(ns.take(i as int) =~= ns);
    buf.push(0);
    buf
}

/// A listing goes to the client.
pub open spec fn list_done(
    u: Seq<Seq<u8>>,
    has_ring: bool,
    r: Result<u64, u64>,
    frame: Option<rings::FrameView>,
) -> bool {
    r == Ok::<u64, u64>(u.len() as u64) && frame == framed(has_ring, u.len() as u64, 0, packed(u))
}

/// A directory of a mounted file system is listed, with the mount points in it.
pub open spec fn listed_mounted<B: BlockSource>(
    mid: Seq<FsMount<B>>,
    after: Seq<FsMount<B>>,
    i: int,
    drivers: Seq<Seq<u8>>,
    path: Seq<u8>,
    rel: Seq<u8>,
    has_ring: bool,
    r: Result<u64, u64>,
    frame: Option<rings::FrameView>,
) -> bool {
    &&& mount::only_fs_of(mid, after, i)
    &&& exists|names: Seq<Seq<u8>>, n: Result<usize, u64>| #[trigger]
        provider::listed_on(mid[i].fs, after[i].fs, rel, names, n) && match n {
            Err(x) => r == Err::<u64, u64>(x) && frame is None,
            Ok(_) => list_done(
                mount_legacy::union_listing(names, drivers, mount::targets(mid), path),
                has_ring,
                r,
                frame,
            ),
        }
}

/// The directory `k` in memory is listed, with the mount points in it.
pub open spec fn listed_memory(
    t: ramfs::Tree,
    k: Seq<u8>,
    drivers: Seq<Seq<u8>>,
    mounted: Seq<Seq<u8>>,
    path: Seq<u8>,
    has_ring: bool,
    r: Result<u64, u64>,
    frame: Option<rings::FrameView>,
) -> bool {
    exists|names: Seq<Seq<u8>>| #[trigger]
        ramfs::lists(names, t, k) && list_done(
            mount_legacy::union_listing(names, drivers, mounted, path),
            has_ring,
            r,
            frame,
        )
}

/// The directory in memory that a path leads to, unless it is one of drivers.
pub open spec fn memory_dir(t: ramfs::Tree, path: Seq<u8>) -> Option<Seq<u8>> {
    if mount_legacy::device_path(path) {
        None
    } else {
        ramfs::dir_at(t, path)
    }
}

/// A path without a mounted file system is listed: a directory in memory, if
/// there is one, with the mount points in it.
pub open spec fn listed_plain(
    t: ramfs::Tree,
    drivers: Seq<Seq<u8>>,
    mounted: Seq<Seq<u8>>,
    path: Seq<u8>,
    has_ring: bool,
    r: Result<u64, u64>,
    frame: Option<rings::FrameView>,
) -> bool {
    match memory_dir(t, path) {
        Some(k) => listed_memory(t, k, drivers, mounted, path, has_ring, r, frame),
        None => {
            let u = mount_legacy::union_listing(Seq::empty(), drivers, mounted, path);
            if u.len() > 0 {
                list_done(u, has_ring, r, frame)
            } else {
                frame is None && r == Err::<u64, u64>(
                    match ramfs::looked_up(t, path) {
                        Some(ramfs::NodeView::File(_, _)) => ERR_NOTDIR,
                        _ => ERR_NOTFOUND,
                    },
                )
            }
        },
    }
}

/// What listing a directory does.
pub open spec fn readdir_done<B: BlockSource>(
    tree: (ramfs::Tree, ramfs::Tree),
    ms: (Seq<FsMount<B>>, Seq<FsMount<B>>),
    mounts: Seq<Mount>,
    has_ring: bool,
    path: Seq<u8>,
    gens: (u64, u64),
    disk: Option<B>,
    reply: Option<u64>,
    r: Result<u64, u64>,
    frame: Option<rings::FrameView>,
) -> bool {
    let drivers = mount_legacy::driver_prefixes(mounts);
    match mount_legacy::driver_of(path, mounts) {
        Some(_) => {
            &&& ms.1 == ms.0
            &&& gens.1 == gens.0
            &&& frame is None
            &&& r == (if has_ring && reply is Some {
                Ok::<u64, u64>(reply->0)
            } else {
                Err(ERR)
            })
        },
        None => match mount_legacy::longest(
            ramfs::rel_key(path),
            mount::targets(ms.0),
        ) {
            Some((i, rel)) => exists|mid: Seq<FsMount<B>>| #[trigger]
                mount::revived(ms.0, mid, i, disk) && gens.1
                    == mount::gen_after(
                    ms.0[i].fs.active(),
                    mid[i].fs.active(),
                    gens.0,
                ) && if mid[i].fs.active() {
                    listed_mounted(
                        mid,
                        ms.1,
                        i,
                        drivers,
                        path,
                        rel,
                        has_ring,
                        r,
                        frame,
                    )
                } else if mount_legacy::device_path(path) {
                    ms.1 == mid && listed_plain(
                        tree.0,
                        drivers,
                        mount::targets(mid),
                        path,
                        has_ring,
                        r,
                        frame,
                    )
                } else {
                    ms.1 == mid && r == Err::<u64, u64>(ERR_NOTFOUND)
                        && frame is None
                },
            None => ms.1 == ms.0 && gens.1 == gens.0
                && listed_plain(
                tree.0,
                drivers,
                mount::targets(ms.0),
                path,
                has_ring,
                r,
                frame,
            ),
        },
    }
}

/// Lists a directory. `reply` is the answer of the driver, if the path leads
/// to one.
pub fn handle_readdir<B: BlockSource>(
    fs: &mut RamFs,
    mounts_fat: &mut Vec<FsMount<B>>,
    mounts: &[Mount],
    has_ring: bool,
    path: &[u8],
    fgen: &mut u64,
    disk: Option<B>,
    reply: Option<u64>,
) -> (r: (Result<u64, u64>, Option<Frame>))
    requires
        old(fs).wf(),
        mount::mounts_ready(old(mounts_fat)@),
    ensures
        final(fs).wf(),
        mount::mounts_ready(final(mounts_fat)@),
        final(fs)@ == old(fs)@,
        readdir_done(
            (old(fs)@, final(fs)@),
            (old(mounts_fat)@, final(mounts_fat)@),
            mounts@,
            has_ring,
            path@,
            (*old(fgen), *final(fgen)),
            disk,
            reply,
            r.0,
            frame_view(r.1),
        ),
{
    if resolve_mount(path, mounts).is_some() {
        return match reply {
            Some(w) => {
                if has_ring {
                    (Ok(w), None)
                } else {
                    (Err(ERR), None)
                }
            },
            None => (Err(ERR), None),
        };
    }
    let ghost before = mounts_fat@;
    match resolve_at(mounts_fat, path, fgen, disk) {
        Some((i, rel)) => {
            let ghost mid = mounts_fat@;
            assert(mount::revived(before, mid, i as int, disk));
            let mut sink = Names::new();
            let got: Result<usize, u64> = match mounts_fat[i].local_dyn() {
                Some(d) => d.readdir_dyn(&rel, &mut sink),
                None => Err(ERR),
            };
            assert(provider::listed_on(
                mid[i as int].fs,
                mounts_fat@[i as int].fs,
                rel@,
                sink.taken(),
                got,
            ));
            assert(mount::targets(mounts_fat@) =~= mount::targets(mid));
            match got {
                Ok(_) => {
                    let entries: Vec<Vec<u8>> = union_mount_children(
                        sink.list,
                        mounts,
                        mounts_fat,
                        path,
                    );
                    let n: u64 = entries.len() as u64;
                    let buf: Vec<u8> = pack_names(&entries);
                    (Ok(n), frame_for(has_ring, n, 0, buf))
                },
                Err(x) => (Err(x), None),
            }
        },
        None => {
            let ghost mid = mounts_fat@;
            assert(mount_legacy::longest(
                ramfs::rel_key(path@),
                mount::targets(before),
            ) matches Some((i, _)) ==> mount::revived(before, mid, i, disk));
            let mut sink = Names::new();
            let exists: bool = match resolve_local(mounts_fat, path) {
                Some(FsKind::Ram) => {
                    let ok: bool = fs.list(path, &mut sink).is_ok();
                    proof {
                        assert forall|n: Seq<Seq<u8>>| #[trigger] (Seq::<Seq<u8>>::empty() + n)
                            == n by {
                            assert(Seq::<Seq<u8>>::empty() + n =~= n);
                        }
                    }
                    ok
                },
                Some(_) => {
                    return (Err(ERR_NOTFOUND), None);
                },
                None => false,
            };
            let entries: Vec<Vec<u8>> = union_mount_children(sink.list, mounts, mounts_fat, path);
            if !exists && entries.len() == 0 {
                return match fs.find(path) {
                    Some(FsNode::File { .. }) => (Err(ERR_NOTDIR), None),
                    _ => (Err(ERR_NOTFOUND), None),
                };
            }
            let n: u64 = entries.len() as u64;
            let buf: Vec<u8> = pack_names(&entries);
            (Ok(n), frame_for(has_ring, n, 0, buf))
        },
    }
}

// ── What a path is ──

/// Answers what a path is: its size and kind go to the client.
pub fn stat_reply(has_ring: bool, size: u64, kind: u64) -> (r: (u64, Option<Frame>))
    ensures
        r.0 == 0,
        frame_view(r.1) == framed(has_ring, size, kind, Seq::empty()),
{
    (0, frame_for(has_ring, size, kind, Vec::new()))
}

/// The kind of a path as a client gets it.
pub open spec fn kind_code(m: Meta) -> u64 {
    let base = if m.kind == 1 {
        STAT_DIR
    } else {
        STAT_FILE
    };
    if m.readonly {
        base | STAT_READONLY
    } else {
        base
    }
}

fn stat_kind(m: &Meta) -> (r: u64)
    ensures
        r == kind_code(*m),
{
    let base: u64 = if m.kind == 1 {
        STAT_DIR
    } else {
        STAT_FILE
    };
    if m.readonly {
        base | STAT_READONLY
    } else {
        base
    }
}

/// What a path is goes to the client, or why it is nothing.
pub open spec fn stat_done(
    m: Result<(u64, u64), u64>,
    has_ring: bool,
    r: Result<u64, u64>,
    frame: Option<rings::FrameView>,
) -> bool {
    match m {
        Ok((size, kind)) => r == Ok::<u64, u64>(0) && frame == framed(
            has_ring,
            size,
            kind,
            Seq::empty(),
        ),
        Err(e) => r == Err::<u64, u64>(e) && frame is None,
    }
}

pub open spec fn meta_code(m: Result<Meta, u64>) -> Result<(u64, u64), u64> {
    match m {
        Ok(x) => Ok((x.size, kind_code(x))),
        Err(e) => Err(e),
    }
}

fn answer_meta(m: Result<Meta, u64>, has_ring: bool) -> (r: (Result<u64, u64>, Option<Frame>))
    ensures
        stat_done(meta_code(m), has_ring, r.0, frame_view(r.1)),
{
    match m {
        Ok(x) => {
            let (v, f): (u64, Option<Frame>) = stat_reply(has_ring, x.size, stat_kind(&x));
            (Ok(v), f)
        },
        Err(e) => (Err(e), None),
    }
}

fn answer_kind(kind: u64, has_ring: bool) -> (r: (Result<u64, u64>, Option<Frame>))
    ensures
        stat_done(Ok((0, kind)), has_ring, r.0, frame_view(r.1)),
{
    let (v, f): (u64, Option<Frame>) = stat_reply(has_ring, 0, kind);
    (Ok(v), f)
}

/// A path that no mount serves.
pub open spec fn plain_meta(t: ramfs::Tree, drivers: Seq<Seq<u8>>, path: Seq<u8>) -> Result<
    (u64, u64),
    u64,
> {
    if !mount_legacy::device_path(path) {
        meta_code(ramfs::ram_meta(t, path))
    } else if mount_legacy::children_at(drivers, dir::stripped(path)).len() > 0 {
        Ok((0, STAT_DIR))
    } else {
        Err(ERR_NOTFOUND)
    }
}

/// What asking about a path does.
pub open spec fn path_stat_done<B: BlockSource>(
    tree: (ramfs::Tree, ramfs::Tree),
    ms: (Seq<FsMount<B>>, Seq<FsMount<B>>),
    mounts: Seq<Mount>,
    has_ring: bool,
    path: Seq<u8>,
    gens: (u64, u64),
    disk: Option<B>,
    r: Result<u64, u64>,
    frame: Option<rings::FrameView>,
) -> bool {
    let drivers = mount_legacy::driver_prefixes(mounts);
    let done = |m: Result<(u64, u64), u64>| stat_done(m, has_ring, r, frame);
    let same = ms.1 == ms.0 && gens.1 == gens.0;
    if bad_path(path) {
        same && done(Err(ERR_INVALID))
    } else if path == seq![47u8] {
        same && done(Ok((0, STAT_DIR)))
    } else {
        match mount_legacy::driver_of(path, mounts) {
            Some((_, rel)) => same && done(
                if rel.len() == 0 {
                    Ok((0, STAT_DEVICE))
                } else {
                    Err(ERR_NOTFOUND)
                },
            ),
            None => match mount_legacy::longest(
                ramfs::rel_key(path),
                mount::targets(ms.0),
            ) {
                Some((i, rel)) => exists|mid: Seq<FsMount<B>>| #[trigger]
                    mount::revived(ms.0, mid, i, disk) && gens.1
                        == mount::gen_after(
                        ms.0[i].fs.active(),
                        mid[i].fs.active(),
                        gens.0,
                    ) && if mid[i].fs.active() {
                        if rel.len() == 0 {
                            ms.1 == mid && done(Ok((0, STAT_DIR)))
                        } else {
                            mount::only_fs_of(mid, ms.1, i) && exists|
                                m: Result<Meta, u64>,
                            | #[trigger]
                                provider::asked_on(
                                    mid[i].fs,
                                    ms.1[i].fs,
                                    rel,
                                    m,
                                ) && done(meta_code(m))
                        }
                    } else {
                        ms.1 == mid && done(
                            if mount_legacy::device_path(path) {
                                plain_meta(tree.0, drivers, path)
                            } else {
                                Err(ERR)
                            },
                        )
                    },
                None => same && done(plain_meta(tree.0, drivers, path)),
            },
        }
    }
}

/// Answers what a path is: a directory, a file and its size, or a device.
pub fn handle_stat<B: BlockSource>(
    fs: &mut RamFs,
    mounts_fat: &mut Vec<FsMount<B>>,
    mounts: &[Mount],
    has_ring: bool,
    path: &[u8],
    fgen: &mut u64,
    disk: Option<B>,
) -> (r: (Result<u64, u64>, Option<Frame>))
    requires
        old(fs).wf(),
        mount::mounts_ready(old(mounts_fat)@),
    ensures
        final(fs).wf(),
        mount::mounts_ready(final(mounts_fat)@),
        final(fs)@ == old(fs)@,
        path_stat_done(
            (old(fs)@, final(fs)@),
            (old(mounts_fat)@, final(mounts_fat)@),
            mounts@,
            has_ring,
            path@,
            (*old(fgen), *final(fgen)),
            disk,
            r.0,
            frame_view(r.1),
        ),
{
    if path.len() == 0 || path.len() > MAX_PATH {
        return (Err(ERR_INVALID), None);
    }
    let root: [u8; 1] = [47];
    assert(root@ =~= seq![47u8]);
    if bytes_eq(path, root.as_slice()) {
        return answer_kind(STAT_DIR, has_ring);
    }
    if let Some((_, rel)) = resolve_mount(path, mounts) {
        return if rel.len() == 0 {
            answer_kind(STAT_DEVICE, has_ring)
        } else {
            (Err(ERR_NOTFOUND), None)
        };
    }
    let ghost before = mounts_fat@;
    match resolve_at(mounts_fat, path, fgen, disk) {
        Some((i, rel)) => {
            let ghost mid = mounts_fat@;
            assert(mount::revived(before, mid, i as int, disk));
            if rel.len() == 0 {
                return answer_kind(STAT_DIR, has_ring);
            }
            let asked: Result<Meta, u64> = match mounts_fat[i].local_dyn() {
                Some(d) => d.stat_dyn(&rel),
                None => Err(ERR),
            };
            assert(provider::asked_on(mid[i as int].fs, mounts_fat@[i as int].fs, rel@, asked));
            answer_meta(asked, has_ring)
        },
        None => {
            let ghost mid = mounts_fat@;
            assert(mount_legacy::longest(
                ramfs::rel_key(path@),
                mount::targets(before),
            ) matches Some((i, _)) ==> mount::revived(before, mid, i, disk));
            match resolve_local(mounts_fat, path) {
                Some(FsKind::Ram) => answer_meta(fs.stat(path), has_ring),
                Some(_) => (Err(ERR), None),
                None => {
                    if synth_children(mounts, path).is_some() {
                        answer_kind(STAT_DIR, has_ring)
                    } else {
                        (Err(ERR_NOTFOUND), None)
                    }
                },
            }
        },
    }
}

// ── Making and removing ──

pub open spec fn zero_or(r: Result<(), u64>) -> Result<u64, u64> {
    match r {
        Ok(_) => Ok(0),
        Err(e) => Err(e),
    }
}

fn as_reply(r: Result<(), u64>) -> (v: Result<u64, u64>)
    ensures
        v == zero_or(r),
{
    match r {
        Ok(_) => Ok(0),
        Err(e) => Err(e),
    }
}

/// What making a directory does.
pub open spec fn mkdir_done<B: BlockSource>(
    tree: (ramfs::Tree, ramfs::Tree),
    ms: (Seq<FsMount<B>>, Seq<FsMount<B>>),
    path: Seq<u8>,
    gens: (u64, u64),
    disk: Option<B>,
    r: Result<u64, u64>,
) -> bool {
    let same = ms.1 == ms.0 && gens.1 == gens.0;
    if bad_path(path) {
        r == Err::<u64, u64>(ERR_INVALID) && tree.1 == tree.0 && same
    } else {
        match mount_legacy::longest(
            ramfs::rel_key(path),
            mount::targets(ms.0),
        ) {
            Some((i, rel)) => tree.1 == tree.0 && exists|mid: Seq<FsMount<B>>|
                #[trigger]
                mount::revived(ms.0, mid, i, disk) && gens.1
                    == mount::gen_after(
                    ms.0[i].fs.active(),
                    mid[i].fs.active(),
                    gens.0,
                ) && if mid[i].fs is Local {
                    mount::only_fs_of(mid, ms.1, i) && exists|
                        x: Result<(), u64>,
                    | #[trigger]
                        provider::made_dir_on(
                            mid[i].fs,
                            ms.1[i].fs,
                            rel,
                            x,
                        ) && r == zero_or(x)
                } else {
                    ms.1 == mid && r == Err::<u64, u64>(
                        if mid[i].fs.active() {
                            ERR
                        } else {
                            unserved(path)
                        },
                    )
                },
            None => same && if mount_legacy::device_path(path) {
                r == Err::<u64, u64>(ERR_NOTFOUND) && tree.1 == tree.0
            } else {
                tree.1 == ramfs::ram_made_dir(tree.0, path).0 && r == zero_or(
                    ramfs::ram_made_dir(tree.0, path).1,
                )
            },
        }
    }
}

/// Makes a directory. Volumes cannot.
pub fn handle_mkdir<B: BlockSource>(
    fs: &mut RamFs,
    mounts_fat: &mut Vec<FsMount<B>>,
    path: &[u8],
    fgen: &mut u64,
    disk: Option<B>,
) -> (r: Result<u64, u64>)
    requires
        old(fs).wf(),
        mount::mounts_ready(old(mounts_fat)@),
    ensures
        final(fs).wf(),
        mount::mounts_ready(final(mounts_fat)@),
        mkdir_done(
            (old(fs)@, final(fs)@),
            (old(mounts_fat)@, final(mounts_fat)@),
            path@,
            (*old(fgen), *final(fgen)),
            disk,
            r,
        ),
{
    if path.len() == 0 || path.len() > MAX_PATH {
        return Err(ERR_INVALID);
    }
    let ghost before = mounts_fat@;
    match resolve_at(mounts_fat, path, fgen, disk) {
        Some((i, rel)) => {
            let ghost mid = mounts_fat@;
            assert(mount::revived(before, mid, i as int, disk));
            if !mounts_fat[i].is_local() {
                return Err(ERR);
            }
            let made: Result<(), u64> = match mounts_fat[i].local_dyn() {
                Some(d) => d.mkdir_dyn(&rel),
                None => Err(ERR),
            };
            assert(provider::made_dir_on(mid[i as int].fs, mounts_fat@[i as int].fs, rel@, made));
            as_reply(made)
        },
        None => {
            let ghost mid = mounts_fat@;
            assert(mount_legacy::longest(
                ramfs::rel_key(path@),
                mount::targets(before),
            ) matches Some((i, _)) ==> mount::revived(before, mid, i, disk));
            match resolve_local(mounts_fat, path) {
                Some(FsKind::Ram) => as_reply(fs.make_dir(path)),
                Some(_) => Err(ERR),
                None => Err(ERR_NOTFOUND),
            }
        },
    }
}

/// Removing a path in memory: the tree, and the result.
pub open spec fn ram_removed(t: ramfs::Tree, path: Seq<u8>) -> (ramfs::Tree, Result<u64, u64>) {
    match ramfs::without_node(t, path) {
        Some(n) => (n, Ok(0)),
        None => (t, Err(ERR_NOTFOUND)),
    }
}

/// What removing a path does.
pub open spec fn delete_done<B: BlockSource>(
    tree: (ramfs::Tree, ramfs::Tree),
    ms: (Seq<FsMount<B>>, Seq<FsMount<B>>),
    mounts: Seq<Mount>,
    path: Seq<u8>,
    gens: (u64, u64),
    disk: Option<B>,
    r: Result<u64, u64>,
) -> bool {
    let same = ms.1 == ms.0 && gens.1 == gens.0;
    if bad_path(path) || mount_legacy::driver_of(path, mounts) is Some {
        r == Err::<u64, u64>(ERR_INVALID) && tree.1 == tree.0 && same
    } else {
        match mount_legacy::longest(
            ramfs::rel_key(path),
            mount::targets(ms.0),
        ) {
            Some((i, rel)) => tree.1 == tree.0 && exists|mid: Seq<FsMount<B>>|
                #[trigger]
                mount::revived(ms.0, mid, i, disk) && gens.1
                    == mount::gen_after(
                    ms.0[i].fs.active(),
                    mid[i].fs.active(),
                    gens.0,
                ) && if mid[i].fs is Local {
                    mount::only_fs_of(mid, ms.1, i) && exists|
                        x: Result<(), u64>,
                    | #[trigger]
                        provider::removed_on(
                            mid[i].fs,
                            ms.1[i].fs,
                            rel,
                            x,
                        ) && r == zero_or(x)
                } else {
                    ms.1 == mid && r == Err::<u64, u64>(
                        if !mid[i].fs.active() && mount_legacy::device_path(path) {
                            ERR_NOTFOUND
                        } else {
                            ERR_READONLY
                        },
                    )
                },
            None => same && if mount_legacy::device_path(path) {
                r == Err::<u64, u64>(ERR_NOTFOUND) && tree.1 == tree.0
            } else {
                (tree.1, r) == ram_removed(tree.0, path)
            },
        }
    }
}

/// Removes a file or an empty directory. Volumes and drivers cannot.
pub fn handle_delete<B: BlockSource>(
    fs: &mut RamFs,
    mounts_fat: &mut Vec<FsMount<B>>,
    mounts: &[Mount],
    path: &[u8],
    fgen: &mut u64,
    disk: Option<B>,
) -> (r: Result<u64, u64>)
    requires
        old(fs).wf(),
        mount::mounts_ready(old(mounts_fat)@),
    ensures
        final(fs).wf(),
        mount::mounts_ready(final(mounts_fat)@),
        delete_done(
            (old(fs)@, final(fs)@),
            (old(mounts_fat)@, final(mounts_fat)@),
            mounts@,
            path@,
            (*old(fgen), *final(fgen)),
            disk,
            r,
        ),
{
    if path.len() == 0 || path.len() > MAX_PATH {
        return Err(ERR_INVALID);
    }
    if resolve_mount(path, mounts).is_some() {
        return Err(ERR_INVALID);
    }
    let ghost before = mounts_fat@;
    match resolve_at(mounts_fat, path, fgen, disk) {
        Some((i, rel)) => {
            let ghost mid = mounts_fat@;
            assert(mount::revived(before, mid, i as int, disk));
            if !mounts_fat[i].is_local() {
                return Err(ERR_READONLY);
            }
            let gone: Result<(), u64> = match mounts_fat[i].local_dyn() {
                Some(d) => d.remove_dyn(&rel),
                None => Err(ERR),
            };
            assert(provider::removed_on(mid[i as int].fs, mounts_fat@[i as int].fs, rel@, gone));
            as_reply(gone)
        },
        None => {
            let ghost mid = mounts_fat@;
            assert(mount_legacy::longest(
                ramfs::rel_key(path@),
                mount::targets(before),
            ) matches Some((i, _)) ==> mount::revived(before, mid, i, disk));
            match resolve_local(mounts_fat, path) {
                Some(FsKind::Ram) => as_reply(fs.unlink(path)),
                Some(_) => Err(ERR_READONLY),
                None => Err(ERR_NOTFOUND),
            }
        },
    }
}

// ── Mounting ──

/// The source and the target of a mount request: they end at zero bytes.
pub open spec fn mount_parts(payload: Seq<u8>) -> Option<(Seq<u8>, Seq<u8>)> {
    let j = bytes::index_from(payload, 0, 0);
    if j >= payload.len() {
        None
    } else {
        let rest = payload.skip(j + 1);
        let target = rest.take(bytes::index_from(rest, 0, 0));
        if j == 0 || target.len() == 0 {
            None
        } else {
            Some((payload.take(j), target))
        }
    }
}

/// The source and the target of a mount request.
pub fn split_mount(payload: &[u8]) -> (r: Option<(&[u8], &[u8])>)
    ensures
        match r {
            Some((a, b)) => mount_parts(payload@) == Some((a@, b@)),
            None => mount_parts(payload@) is None,
        },
{
    let j: usize = find_byte(payload, 0, 0);
    if j >= payload.len() {
        return None;
    }
    let rest: &[u8] = slice_subrange(payload, j + 1, payload.len());
    assert(rest@ =~= payload@.skip(j + 1));
    let k: usize = find_byte(rest, 0, 0);
    let source: &[u8] = slice_subrange(payload, 0, j);
    let target: &[u8] = slice_subrange(rest, 0, k);
    assert(source@ =~= payload@.take(j as int));
    assert(target@ =~= rest@.take(k as int));
    if j == 0 || target.len() == 0 {
        None
    } else {
        Some((source, target))
    }
}

/// What a mount request does.
pub open spec fn mount_done<B: BlockSource>(
    ms: (Seq<FsMount<B>>, Seq<FsMount<B>>),
    payload: Seq<u8>,
    gens: (u64, u64),
    ids: (u64, u64),
    disk: Option<B>,
    r: Result<u64, u64>,
) -> bool {
    match mount_parts(payload) {
        None => r == Err::<u64, u64>(ERR_INVALID) && ms.1 == ms.0
            && gens.1 == gens.0 && ids.1 == ids.0,
        Some((source, target)) => {
            &&& match mount::spec_of(source, target) {
                mount::SpecView::Bad => r is Err && ms.1 == ms.0
                    && ids.1 == ids.0,
                mount::SpecView::Memory { target } => {
                    let i = mount::target_index(mount::targets(ms.0), target);
                    &&& r is Ok
                    &&& mount::put(
                        ms.0,
                        ms.1,
                        target,
                        mount::ramfs_name(),
                        Seq::empty(),
                        ids.0,
                    )
                    &&& ms.1[i].fstype == provider::FsType::Ramfs
                    &&& provider::empty_memory(ms.1[i].fs)
                    &&& ids.1 == mount::next_after(
                        ms.0,
                        target,
                        ids.0,
                    )
                },
                mount::SpecView::Volume { target, source } => if disk is None {
                    r is Err && ms.1 == ms.0 && ids.1 == ids.0
                } else {
                    let i = mount::target_index(mount::targets(ms.0), target);
                    &&& mount::put(
                        ms.0,
                        ms.1,
                        target,
                        source,
                        Seq::empty(),
                        ids.0,
                    )
                    &&& ms.1[i].fstype == provider::FsType::Vfat
                    &&& provider::mounted_from(disk->0, ms.1[i].fs)
                    &&& (r is Ok) == ms.1[i].fs.active()
                    &&& ids.1 == mount::next_after(
                        ms.0,
                        target,
                        ids.0,
                    )
                },
            }
            &&& match r {
                Ok(v) => v == 0 && gens.1 == mount::bumped(gens.0),
                Err(x) => x == ERR_NOTFOUND && gens.1 == gens.0,
            }
        },
    }
}

/// Mounts a source on a target, with the disk that the driver has for the key
/// of the source.
pub fn handle_mount<B: BlockSource>(
    mounts: &mut Vec<FsMount<B>>,
    payload: &[u8],
    fgen: &mut u64,
    next_id: &mut u64,
    disk: Option<B>,
) -> (r: Result<u64, u64>)
    requires
        mount::mounts_ready(old(mounts)@),
    ensures
        mount::mounts_ready(final(mounts)@),
        mount_done(
            (old(mounts)@, final(mounts)@),
            payload@,
            (*old(fgen), *final(fgen)),
            (*old(next_id), *final(next_id)),
            disk,
            r,
        ),
{
    let (source, target): (&[u8], &[u8]) = match split_mount(payload) {
        Some(x) => x,
        None => {
            return Err(ERR_INVALID);
        },
    };
    let none: [u8; 0] = [];
    assert(none@ =~= Seq::empty());
    if apply_mount_spec(mounts, source, target, none.as_slice(), next_id, disk) {
        *fgen = fgen.wrapping_add(1);
        Ok(0)
    } else {
        Err(ERR_NOTFOUND)
    }
}

/// What taking a mount away does.
pub open spec fn umount_done<B: BlockSource>(
    ms: (Seq<FsMount<B>>, Seq<FsMount<B>>),
    tab: Map<(u64, u32), ftable::EntryView>,
    target: Seq<u8>,
    gens: (u64, u64),
    r: Result<u64, u64>,
) -> bool {
    let same = ms.1 == ms.0 && gens.1 == gens.0;
    match mount::target_form(target) {
        None => r == Err::<u64, u64>(ERR_INVALID) && same,
        Some(t) => {
            let ts = mount::targets(ms.0);
            let i = mount::target_index(ts, t);
            if i >= ts.len() {
                r == Err::<u64, u64>(ERR_NOTFOUND) && same
            } else {
                let id = ms.0[i].id;
                if exists|k: (u64, u32)| #[trigger]
                    tab.contains_key(k) && ftable::on_mount(tab[k], id) {
                    r == Err::<u64, u64>(ERR_BUSY) && same
                } else {
                    &&& r == Ok::<u64, u64>(0)
                    &&& ms.1 == ms.0.remove(
                        mount::id_index(ms.0, id),
                    )
                    &&& gens.1 == mount::bumped(gens.0)
                }
            }
        },
    }
}

/// Takes a mount away, unless a descriptor is open on it.
pub fn handle_umount<B: BlockSource>(
    mounts: &mut Vec<FsMount<B>>,
    ftable: &FileTable,
    target: &[u8],
    fgen: &mut u64,
) -> (r: Result<u64, u64>)
    requires
        mount::mounts_ready(old(mounts)@),
        ftable.wf(),
    ensures
        mount::mounts_ready(final(mounts)@),
        umount_done(
            (old(mounts)@, final(mounts)@),
            ftable@,
            target@,
            (*old(fgen), *final(fgen)),
            r,
        ),
{
    let norm: Vec<u8> = match normalize_target(target) {
        Some(t) => t,
        None => {
            return Err(ERR_INVALID);
        },
    };
    let id: u64 = match by_target(mounts, &norm) {
        Some(i) => mounts[i].id,
        None => {
            return Err(ERR_NOTFOUND);
        },
    };
    if ftable.has_mount_users(id) {
        return Err(ERR_BUSY);
    }
    match by_id(mounts, id) {
        Some(idx) => {
            mounts.remove(idx);
            assert(mount::mounts_ready(mounts@)) by {
                assert forall|k: int| 0 <= k < mounts@.len() implies (
                #[trigger] mounts@[k]).fs.fs_ready() by {
                    if k < idx {
                        assert(mounts@[k] == old(mounts)@[k]);
                    } else {
                        assert(mounts@[k] == old(mounts)@[k + 1]);
                    }
                }
            }
            *fgen = fgen.wrapping_add(1);
            Ok(0)
        },
        None => {
            proof {
                let ts = mount::targets(old(mounts)@);
                mount::lemma_id_index(old(mounts)@, id);
                let i = mount::target_index(ts, norm@);
                assert(old(mounts)@[i].id == id);
            }
            Err(ERR_NOTFOUND)
        },
    }
}

// ── Seeking ──

/// The new offset: it must not be negative, nor too large to state.
pub open spec fn sought(base: i64, off: i64) -> Result<i64, u64> {
    if base + off > i64::MAX || base + off < 0 {
        Err(ERR_INVALID)
    } else {
        Ok((base + off) as i64)
    }
}

/// The end of a seek.
pub open spec fn seek_done(
    base: Result<i64, u64>,
    off: i64,
    e: ftable::EntryView,
    fds: (Map<(u64, u32), ftable::EntryView>, Map<(u64, u32), ftable::EntryView>),
    key: (u64, u32),
    r: Result<u64, u64>,
) -> bool {
    match base {
        Err(x) => r == Err::<u64, u64>(x) && fds.1 == fds.0.insert(key, e),
        Ok(b) => match sought(b, off) {
            Err(x) => r == Err::<u64, u64>(x) && fds.1 == fds.0.insert(key, e),
            Ok(n) => r == Ok::<u64, u64>(n as u64) && fds.1 == fds.0.insert(
                key,
                ftable::moved_to(e, n as usize),
            ),
        },
    }
}

/// The size of a file in memory, by its path.
pub open spec fn ram_size(t: ramfs::Tree, path: Seq<u8>) -> Result<i64, u64> {
    match ramfs::looked_up(t, path) {
        Some(ramfs::NodeView::File(d, _)) => Ok(d.len() as i64),
        Some(ramfs::NodeView::Dir(_)) => Ok(0),
        None => Err(ERR_NOTFOUND),
    }
}

/// The size that an answer gives; a directory has none.
pub open spec fn answered_size(m: Result<Meta, u64>) -> Result<i64, u64> {
    match m {
        Ok(x) => if x.kind == 1 {
            Ok(0)
        } else {
            Ok(x.size as i64)
        },
        Err(_) => Err(ERR_NOTFOUND),
    }
}

pub open spec fn file_size(info: Option<FileInfo>) -> Result<i64, u64> {
    match info {
        Some(x) => if x.is_dir {
            Ok(0)
        } else {
            Ok(x.size as i64)
        },
        None => Err(ERR_NOTFOUND),
    }
}

/// The entry with what is known of its file now.
pub open spec fn refreshed(e: ftable::EntryView, info: Option<FileInfo>, g: u64) -> ftable::EntryView {
    if info is Some {
        ftable::with_info(e, info, g)
    } else {
        e
    }
}

/// A seek from the end of a file of a mount.
pub open spec fn seek_local_end<B: BlockSource>(
    before: Seq<FsMount<B>>,
    after: Seq<FsMount<B>>,
    id: u64,
    path: Seq<u8>,
    off: i64,
    e: ftable::EntryView,
    fds: (Map<(u64, u32), ftable::EntryView>, Map<(u64, u32), ftable::EntryView>),
    key: (u64, u32),
    r: Result<u64, u64>,
) -> bool {
    let i = mount::id_index(before, id);
    if i >= before.len() || !before[i].fs.active() {
        r == Err::<u64, u64>(ERR) && after == before && fds.1 == fds.0
    } else {
        &&& mount::only_fs_of(before, after, i)
        &&& exists|m: Result<Meta, u64>| #[trigger]
            provider::asked_on(before[i].fs, after[i].fs, path, m) && seek_done(
                answered_size(m),
                off,
                e,
                fds,
                key,
                r,
            )
    }
}

/// A seek from the end of a file of a volume, which is brought back first.
pub open spec fn seek_volume_end<B: BlockSource>(
    before: Seq<FsMount<B>>,
    after: Seq<FsMount<B>>,
    id: u64,
    disk: Option<B>,
    gens: (u64, u64),
    off: i64,
    e: ftable::EntryView,
    fds: (Map<(u64, u32), ftable::EntryView>, Map<(u64, u32), ftable::EntryView>),
    key: (u64, u32),
    r: Result<u64, u64>,
) -> bool {
    let i = mount::id_index(before, id);
    exists|mid: Seq<FsMount<B>>| #[trigger]
        mount::revived(before, mid, i, disk) && if i < before.len() {
            &&& gens.1 == mount::gen_after(before[i].fs.active(), mid[i].fs.active(), gens.0)
            &&& match mid[i].fs {
                MountedFs::Fat(Some(a)) => mount::only_fs_of(mid, after, i) && (
                after[i].fs matches MountedFs::Fat(Some(b)) && provider::same_device(a, b)
                    && b.img() == a.img() && exists|info: Option<FileInfo>| #[trigger]
                    info_known(a, b, e, gens.1, info) && seek_done(
                        file_size(info),
                        off,
                        refreshed(e, info, gens.1),
                        fds,
                        key,
                        r,
                    )),
                _ => after == mid && r == Err::<u64, u64>(ERR) && fds.1 == fds.0,
            }
        } else {
            after == mid && gens.1 == gens.0 && r == Err::<u64, u64>(ERR) && fds.1 == fds.0
        }
}

/// What moving an offset does.
pub open spec fn lseek_done<B: BlockSource>(
    tree: ramfs::Tree,
    tabs: (Map<(u64, u32), ftable::EntryView>, Map<(u64, u32), ftable::EntryView>),
    ms: (Seq<FsMount<B>>, Seq<FsMount<B>>),
    chan: u64,
    fd: u32,
    off: i64,
    whence: u64,
    gens: (u64, u64),
    disk: Option<B>,
    r: Result<u64, u64>,
) -> bool {
    let key = (chan, fd);
    let fds = tabs;
    let same = ms.1 == ms.0 && gens.1 == gens.0;
    let refused = |x: u64|
        r == Err::<u64, u64>(x) && tabs.1 == tabs.0 && same;
    match ftable::entry_at(tabs.0, chan, fd) {
        Some(ftable::EntryView::Local { path, kind, offset, mnt, .. }) => {
            let e = tabs.0[key];
            if whence == SEEK_SET {
                same && seek_done(Ok(0), off, e, fds, key, r)
            } else if whence == SEEK_CUR {
                same && seek_done(Ok(offset as i64), off, e, fds, key, r)
            } else if whence != SEEK_END {
                refused(ERR_INVALID)
            } else {
                match kind {
                    FsKind::Ram => same && seek_done(
                        ram_size(tree, path),
                        off,
                        e,
                        fds,
                        key,
                        r,
                    ),
                    FsKind::Local => match mnt {
                        Some(id) => gens.1 == gens.0 && seek_local_end(
                            ms.0,
                            ms.1,
                            id,
                            path,
                            off,
                            e,
                            fds,
                            key,
                            r,
                        ),
                        None => refused(ERR),
                    },
                    FsKind::Fat => match mnt {
                        Some(id) => seek_volume_end(
                            ms.0,
                            ms.1,
                            id,
                            disk,
                            gens,
                            off,
                            e,
                            fds,
                            key,
                            r,
                        ),
                        None => refused(ERR),
                    },
                }
            }
        },
        _ => refused(ERR_INVALID),
    }
}

/// Moves the offset of a local descriptor, counted from the start, from where
/// it is, or from the end of the file. Where it cannot be moved it stays.
#[verifier::rlimit(40)]
pub fn handle_lseek<B: BlockSource>(
    fs: &RamFs,
    ftable: &mut FileTable,
    mounts_fat: &mut Vec<FsMount<B>>,
    chan: u64,
    fd: u32,
    off: i64,
    whence: u64,
    fgen: &mut u64,
    disk: Option<B>,
) -> (r: Result<u64, u64>)
    requires
        fs.wf(),
        old(ftable).wf(),
        mount::mounts_ready(old(mounts_fat)@),
    ensures
        final(ftable).wf(),
        ftable::numbered(*old(ftable), *final(ftable), chan, 0),
        mount::mounts_ready(final(mounts_fat)@),
        lseek_done(
            fs@,
            (old(ftable)@, final(ftable)@),
            (old(mounts_fat)@, final(mounts_fat)@),
            chan,
            fd,
            off,
            whence,
            (*old(fgen), *final(fgen)),
            disk,
            r,
        ),
{
    let (path, kind, cur, mnt): (Vec<u8>, FsKind, usize, Option<u64>) = match ftable.get(chan, fd) {
        Some(x) => x,
        None => {
            return Err(ERR_INVALID);
        },
    };
    let ghost e = ftable@[(chan, fd)];
    let ghost t0 = ftable@;
    assert(t0.insert((chan, fd), e) =~= t0);
    let base: Result<i64, u64> = if whence == SEEK_SET {
        Ok(0)
    } else if whence == SEEK_CUR {
        Ok(cur as i64)
    } else if whence == SEEK_END {
        match kind {
            FsKind::Ram => match fs.find(&path) {
                Some(FsNode::File { data, .. }) => Ok(data.len() as i64),
                Some(_) => Ok(0),
                None => Err(ERR_NOTFOUND),
            },
            FsKind::Local => {
                let id: u64 = match mnt {
                    Some(id) => id,
                    None => {
                        return Err(ERR);
                    },
                };
                proof {
                    mount::lemma_id_index(mounts_fat@, id);
                }
                let i: usize = match by_id(mounts_fat, id) {
                    Some(i) => i,
                    None => {
                        return Err(ERR);
                    },
                };
                let asked: Result<Meta, u64> = match mounts_fat[i].local_dyn() {
                    Some(d) => d.stat_dyn(&path),
                    None => {
                        assert(mounts_fat@ =~= old(mounts_fat)@);
                        return Err(ERR);
                    },
                };
                assert(provider::asked_on(
                    old(mounts_fat)@[i as int].fs,
                    mounts_fat@[i as int].fs,
                    path@,
                    asked,
                ));
                match asked {
                    Ok(m) => {
                        if m.kind == 1 {
                            Ok(0)
                        } else {
                            Ok(m.size as i64)
                        }
                    },
                    Err(_) => Err(ERR_NOTFOUND),
                }
            },
            FsKind::Fat => {
                let id: u64 = match mnt {
                    Some(id) => id,
                    None => {
                        return Err(ERR);
                    },
                };
                match volume_size(ftable, mounts_fat, chan, fd, id, fgen, disk) {
                    Some(x) => x,
                    None => {
                        return Err(ERR);
                    },
                }
            },
        }
    } else {
        return Err(ERR_INVALID);
    };
    let ghost e1 = ftable@[(chan, fd)];
    assert(ftable@ =~= t0.insert((chan, fd), e1));
    let b: i64 = match base {
        Ok(b) => b,
        Err(x) => {
            return Err(x);
        },
    };
    match b.checked_add(off) {
        Some(n) => {
            if n < 0 {
                return Err(ERR_INVALID);
            }
            ftable.set_offset(chan, fd, n as usize);
            assert(ftable@ =~= t0.insert((chan, fd), ftable::moved_to(e1, n as usize)));
            Ok(n as u64)
        },
        None => Err(ERR_INVALID),
    }
}

/// The size of the file of a descriptor on a volume; `None` if the volume
/// cannot be had.
pub open spec fn size_found<B: BlockSource>(
    before: Seq<FsMount<B>>,
    after: Seq<FsMount<B>>,
    id: u64,
    disk: Option<B>,
    gens: (u64, u64),
    e: ftable::EntryView,
    fds: (Map<(u64, u32), ftable::EntryView>, Map<(u64, u32), ftable::EntryView>),
    key: (u64, u32),
    r: Option<Result<i64, u64>>,
) -> bool {
    let i = mount::id_index(before, id);
    exists|mid: Seq<FsMount<B>>| #[trigger]
        mount::revived(before, mid, i, disk) && if i < before.len() {
            &&& gens.1 == mount::gen_after(before[i].fs.active(), mid[i].fs.active(), gens.0)
            &&& match mid[i].fs {
                MountedFs::Fat(Some(a)) => mount::only_fs_of(mid, after, i) && (
                after[i].fs matches MountedFs::Fat(Some(b)) && provider::same_device(a, b)
                    && b.img() == a.img() && exists|info: Option<FileInfo>| #[trigger]
                    info_known(a, b, e, gens.1, info) && r == Some(file_size(info)) && fds.1
                        == fds.0.insert(key, refreshed(e, info, gens.1))),
                _ => after == mid && r is None && fds.1 == fds.0,
            }
        } else {
            after == mid && gens.1 == gens.0 && r is None && fds.1 == fds.0
        }
}

fn volume_size<B: BlockSource>(
    ftable: &mut FileTable,
    mounts_fat: &mut Vec<FsMount<B>>,
    chan: u64,
    fd: u32,
    id: u64,
    fgen: &mut u64,
    disk: Option<B>,
) -> (r: Option<Result<i64, u64>>)
    requires
        old(ftable).wf(),
        old(ftable)@.contains_key((chan, fd)),
        mount::mounts_ready(old(mounts_fat)@),
    ensures
        final(ftable).wf(),
        ftable::numbered(*old(ftable), *final(ftable), chan, 0),
        final(ftable)@.contains_key((chan, fd)),
        mount::mounts_ready(final(mounts_fat)@),
        size_found(
            old(mounts_fat)@,
            final(mounts_fat)@,
            id,
            disk,
            (*old(fgen), *final(fgen)),
            old(ftable)@[(chan, fd)],
            (old(ftable)@, final(ftable)@),
            (chan, fd),
            r,
        ),
{
    let ghost before = mounts_fat@;
    let ghost e = ftable@[(chan, fd)];
    let ghost t0 = ftable@;
    proof {
        mount::lemma_id_index(before, id);
        assert(t0.insert((chan, fd), e) =~= t0);
    }
    let i: usize = match by_id(mounts_fat, id) {
        Some(i) => i,
        None => {
            assert(mount::revived(before, before, mount::id_index(before, id), disk));
            return None;
        },
    };
    let ok: bool = reactivate_mount(mounts_fat, i, fgen, disk);
    let ghost mid = mounts_fat@;
    assert(mount::revived(before, mid, i as int, disk));
    if !ok {
        return None;
    }
    let g: u64 = *fgen;
    let fat = match mounts_fat[i].fat_mut() {
        Some(f) => f,
        None => {
            assert(mounts_fat@ =~= mid);
            return None;
        },
    };
    let ghost a = *fat;
    let info: Option<FileInfo> = fd_fat_info(ftable, fat, chan, fd, g);
    assert(info_known(a, *fat, e, g, info));
    match info {
        Some(x) => {
            if x.is_dir {
                Some(Ok(0))
            } else {
                Some(Ok(x.size as i64))
            }
        },
        None => Some(Err(ERR_NOTFOUND)),
    }
}

} // verus!
