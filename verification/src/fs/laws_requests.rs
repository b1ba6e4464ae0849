//! What one request of a client leaves for the next: descriptors, pipes, paths
//! and mounts, from the outside.
use vstd::prelude::*;

use super::block::BlockSource;
use super::codes::{
    ERR_BUSY, ERR_CLOSED, ERR_EMPTY, ERR_INVALID, ERR_ISDIR, ERR_NOTFOUND, ERR_READONLY, MAX_DATA, RIGHTS_ALL, R_CLOSE,
    R_DELETE, R_DUP_CANCEL, R_DUP_CLAIM, R_DUP_GRANT, R_LSEEK, R_MKDIR, R_MOUNT, R_OPEN,
    R_PIPE_CREATE, R_READ, R_READDIR, R_RIGHTS_DROP, R_RIGHTS_GET, R_STAT, R_UMOUNT, R_WRITE,
    SEEK_CUR, SEEK_END, SEEK_SET, STAT_DIR, STAT_FILE, STAT_READONLY,
};
use super::fat32::dir;
use super::fat32::types::FileInfo;
use super::ftable;
use super::ftable::EntryView;
use super::handlers;
use super::mount;
use super::mount::FsMount;
use super::mount_legacy;
use super::mount_legacy::{FsKind, Mount};
use super::notify;
use super::notify::Taken;
use super::pipes;
use super::pipes::PipeView;
use super::policy;
use super::provider;
use super::provider::{AnyHandle, Meta, MountedFs};
use super::ramfs;
use super::ramfs::{NodeView, Tree};
use super::rights;
use super::rings::FrameView;
use super::server;
use super::server::{Request, Server};
use crate::bytes;
use crate::disk::nodes;
use crate::ring;
use crate::text;

verus! {

/// The offset of a descriptor; only local files have one.
pub open spec fn offset_of(e: EntryView) -> int {
    match e {
        EntryView::Local { offset, .. } => offset as int,
        _ => 0,
    }
}

// ── Descriptors ──

/// A read moves the offset of its descriptor on by as many bytes as the client
/// gets; a read that fails leaves it. No other descriptor is touched.
pub proof fn law_read_moves_on(
    d: Result<Seq<u8>, u64>,
    e: EntryView,
    off: usize,
    fds: (Map<(u64, u32), EntryView>, Map<(u64, u32), EntryView>),
    key: (u64, u32),
    other: (u64, u32),
    r: Result<u64, u64>,
    frame: Option<FrameView>,
)
    requires
        e is Local,
        offset_of(e) == off,
        d matches Ok(s) ==> off + s.len() <= usize::MAX,
        handlers::read_done(d, e, off, true, fds, key, r, frame),
    ensures
        fds.1.contains_key(key),
        r matches Ok(n) ==> offset_of(fds.1[key]) == off + n && (frame matches Some(f)
            && f.payload.len() == n && f.result == n),
        r is Err ==> offset_of(fds.1[key]) == off && frame is None,
        r is Ok == d is Ok,
        other != key ==> fds.1.contains_key(other) == fds.0.contains_key(other) && fds.1[other]
            == fds.0[other],
{
}

/// A write to a file in memory and a read of it through another descriptor that
/// stands where the write began: the client gets the bytes that were written,
/// and both descriptors stand behind them.
pub proof fn law_written_file_is_read<B: BlockSource>(
    tree: (Tree, Tree),
    tabs: (Map<(u64, u32), EntryView>, Map<(u64, u32), EntryView>, Map<(u64, u32), EntryView>),
    ps: (Map<u32, PipeView>, Map<u32, PipeView>, Map<u32, PipeView>),
    ms: Seq<FsMount<B>>,
    writer: (u64, u32),
    reader: (u64, u32),
    data: Seq<u8>,
    w: Result<u64, u64>,
    r: Result<u64, u64>,
    frame: Option<FrameView>,
)
    requires
        writer != reader,
        tabs.0.contains_key(writer),
        tabs.0.contains_key(reader),
        tabs.0[writer] matches EntryView::Local { path, kind, offset, append, .. } && kind
            == FsKind::Ram && !append && (tabs.0[reader] matches EntryView::Local {
            path: p,
            kind: k,
            offset: o,
            ..
        } && p == path && k == FsKind::Ram && o == offset) && ramfs::rel_key(path).len() <= 63
            && (ramfs::looked_up(tree.0, path) matches Some(n) && n is File),
        data.len() <= 4096,
        handlers::fd_write_done(
            tree,
            (tabs.0, tabs.1),
            (ps.0, ps.1),
            (ms, ms),
            writer.0,
            writer.1,
            data.len() as usize,
            data,
            (0, 0),
            None,
            w,
        ),
        handlers::fd_read_done(
            (tree.1, tree.1),
            (tabs.1, tabs.2),
            (ps.1, ps.2),
            (ms, ms),
            true,
            reader.0,
            reader.1,
            data.len() as usize,
            (0, 0),
            None,
            None,
            r,
            frame,
        ),
        ramfs::tree_ok(tree.0),
        w is Ok,
    ensures
        w == Ok::<u64, u64>(data.len() as u64),
        r == Ok::<u64, u64>(data.len() as u64),
        frame matches Some(f) && f.payload == data,
        offset_of(tabs.2[writer]) == offset_of(tabs.0[writer]) + data.len(),
        offset_of(tabs.2[reader]) == offset_of(tabs.0[reader]) + data.len(),
{
    let path = tabs.0[writer]->path;
    let offset: usize = tabs.0[writer]->offset;
    let k = ramfs::rel_key(path);
    super::laws_files::lemma_key_is_bare(path);
    super::laws_files::lemma_key_fixed(k);
    assert(0u32 & super::codes::O_CREAT == 0 && 0u32 & super::codes::O_TRUNC == 0
        && super::codes::O_CREAT & super::codes::O_TRUNC == 0) by (bit_vector);
    assert(ramfs::handle_path(k) == k);
    assert forall|a: Seq<u8>| #[trigger] ramfs::above(a, k) && tree.0.contains_key(a) implies !(
    tree.0[a] is File) by {}
    assert(!ramfs::blocked(tree.0, k));
    let old = tree.0[k]->File_0;
    assert(tree.1[k] == NodeView::File(
        ramfs::written(old, offset as int, data, false),
        tree.0[k]->File_1,
    ));
    let all = ramfs::written(old, offset as int, data, false);
    assert(ramfs::read_part(all, offset as int, data.len() as int) =~= data);
}

/// A seek from the start goes to the place it names, one from the current place
/// moves by what it says, one from the end of a file in memory counts from
/// there. A place before the start is refused, and nothing moves.
pub proof fn law_seek_goes_where_it_says<B: BlockSource>(
    tree: Tree,
    tabs: (Map<(u64, u32), EntryView>, Map<(u64, u32), EntryView>),
    ms: (Seq<FsMount<B>>, Seq<FsMount<B>>),
    key: (u64, u32),
    off: i64,
    whence: u64,
    gens: (u64, u64),
    disk: Option<B>,
    r: Result<u64, u64>,
    data: Seq<u8>,
    mode: u32,
)
    requires
        tabs.0.contains_key(key),
        tabs.0[key] matches EntryView::Local { path, kind, .. } && kind == FsKind::Ram
            && ramfs::looked_up(tree, path) == Some(NodeView::File(data, mode)),
        data.len() <= i64::MAX,
        offset_of(tabs.0[key]) <= i64::MAX,
        whence == SEEK_SET || whence == SEEK_CUR || whence == SEEK_END,
        handlers::lseek_done(tree, tabs, ms, key.0, key.1, off, whence, gens, disk, r),
        usize::MAX >= i64::MAX,
    ensures
        ({
            let from: int = if whence == SEEK_SET {
                0
            } else if whence == SEEK_CUR {
                offset_of(tabs.0[key])
            } else {
                data.len() as int
            };
            if 0 <= from + off <= i64::MAX {
                r == Ok::<u64, u64>((from + off) as u64) && offset_of(tabs.1[key]) == from + off
            } else {
                r == Err::<u64, u64>(ERR_INVALID) && tabs.1 == tabs.0
            }
        }),
{
    assert(tabs.0.insert(key, tabs.0[key]) =~= tabs.0);
}

/// Opening a file in memory and reading it: the new descriptor stands at its
/// start, under the number that the client gets.
pub proof fn law_opened_file_stands_at_its_start<B: BlockSource>(
    tree: (Tree, Tree),
    tabs: (Map<(u64, u32), EntryView>, Map<(u64, u32), EntryView>),
    next: u32,
    ms: (Seq<FsMount<B>>, Seq<FsMount<B>>),
    mounts: Seq<Mount>,
    chan: u64,
    flags: u64,
    path: Seq<u8>,
    gens: (u64, u64),
    answers: handlers::Answers<B>,
    r: Result<u64, u64>,
    other: (u64, u32),
)
    requires
        !handlers::bad_path(path),
        !mount_legacy::device_path(path),
        mount_legacy::driver_of(path, mounts) is None,
        mount_legacy::longest(ramfs::rel_key(path), mount::targets(ms.0)) is None,
        handlers::open_done(tree, tabs, next, ms, mounts, chan, flags, path, gens, answers, r),
    ensures
        r matches Ok(n) ==> n == next && tabs.1.contains_key((chan, next)) && offset_of(
            tabs.1[(chan, next)],
        ) == 0 && (tabs.1[(chan, next)] matches EntryView::Local { path: p, kind, append, .. } && p
            == path && kind == FsKind::Ram && append == ((flags as u32) & 8 != 0)),
        r is Err ==> tabs.1 == tabs.0,
        other != (chan, next) && tabs.0.contains_key(other) ==> tabs.1.contains_key(other)
            && tabs.1[other] == tabs.0[other],
{
}

/// A descriptor that was closed can be neither read nor written nor closed
/// again, and no other one is touched.
pub proof fn law_closed_descriptor_is_gone<B: BlockSource>(
    tabs: (Map<(u64, u32), EntryView>, Map<(u64, u32), EntryView>, Map<(u64, u32), EntryView>),
    ps: (Map<u32, PipeView>, Map<u32, PipeView>, Map<u32, PipeView>),
    tree: (Tree, Tree),
    ms: (Seq<FsMount<B>>, Seq<FsMount<B>>),
    key: (u64, u32),
    other: (u64, u32),
    data: Seq<u8>,
    count: usize,
    gens: (u64, u64),
    disk: Option<B>,
    r: Result<u64, u64>,
    told: Option<(u64, u32)>,
    again: Result<u64, u64>,
)
    requires
        handlers::close_done((tabs.0, tabs.1), (ps.0, ps.1), key.0, key.1, r, told),
    ensures
        tabs.0.contains_key(key) <==> r is Ok,
        other != key ==> tabs.1.contains_key(other) == tabs.0.contains_key(other) && tabs.1[other]
            == tabs.0[other],
        handlers::fd_write_done(
            tree,
            (tabs.1, tabs.2),
            (ps.1, ps.2),
            ms,
            key.0,
            key.1,
            count,
            data,
            gens,
            disk,
            again,
        ) ==> again == Err::<u64, u64>(ERR_INVALID) && tree.1 == tree.0 && ps.2 == ps.1,
        handlers::fd_read_done(
            tree,
            (tabs.1, tabs.2),
            (ps.1, ps.2),
            ms,
            true,
            key.0,
            key.1,
            count,
            gens,
            disk,
            None,
            again,
            None,
        ) ==> again == Err::<u64, u64>(ERR_INVALID) && ps.2 == ps.1,
        handlers::close_done((tabs.1, tabs.2), (ps.1, ps.2), key.0, key.1, again, None) ==> again
            == Err::<u64, u64>(ERR_INVALID),
{
}

/// The driver of a file is told when its descriptor is closed, by the number
/// that the driver gave it; of other descriptors no driver is told.
pub proof fn law_driver_is_told_of_its_file(
    tabs: (Map<(u64, u32), EntryView>, Map<(u64, u32), EntryView>),
    ps: (Map<u32, PipeView>, Map<u32, PipeView>),
    key: (u64, u32),
    r: Result<u64, u64>,
    told: Option<(u64, u32)>,
)
    requires
        handlers::close_done(tabs, ps, key.0, key.1, r, told),
        tabs.0.contains_key(key),
    ensures
        tabs.0[key] matches EntryView::Remote { server_chan, remote_fd } ==> told == Some(
            (server_chan, remote_fd),
        ),
        !(tabs.0[key] is Remote) ==> told is None,
        !(tabs.0[key] is Pipe) ==> ps.1 == ps.0,
{
}

// ── Pipes ──

/// A new pipe: the first descriptor reads, the second writes. What is written
/// to the second is what a read of the first gives.
pub proof fn law_pipe_joins_its_descriptors<B: BlockSource>(
    tabs: (Map<(u64, u32), EntryView>, Map<(u64, u32), EntryView>, Map<(u64, u32), EntryView>, Map<(u64, u32), EntryView>),
    next: u32,
    ps: (Map<u32, PipeView>, Map<u32, PipeView>, Map<u32, PipeView>, Map<u32, PipeView>),
    tree: Tree,
    ms: Seq<FsMount<B>>,
    chan: u64,
    hint: usize,
    data: Seq<u8>,
    made: Result<(u64, u64), u64>,
    w: Result<u64, u64>,
    r: Result<u64, u64>,
    frame: Option<FrameView>,
)
    requires
        next < u32::MAX,
        0 < data.len() <= 4096,
        handlers::pipe_created((tabs.0, tabs.1), next, (ps.0, ps.1), chan, hint, made),
        made matches Ok(p) && handlers::fd_write_done(
            (tree, tree),
            (tabs.1, tabs.2),
            (ps.1, ps.2),
            (ms, ms),
            chan,
            p.1 as u32,
            data.len() as usize,
            data,
            (0, 0),
            None,
            w,
        ) && handlers::fd_read_done(
            (tree, tree),
            (tabs.2, tabs.3),
            (ps.2, ps.3),
            (ms, ms),
            true,
            chan,
            p.0 as u32,
            4096,
            (0, 0),
            None,
            None,
            r,
            frame,
        ),
    ensures
        made matches Ok(p) && p.0 != p.1,
        w == Ok::<u64, u64>(data.len() as u64),
        r == Ok::<u64, u64>(data.len() as u64),
        frame matches Some(f) && f.payload == data,
{
    let id = choose|id: u32|
        handlers::pipe_made((tabs.0, tabs.1), next, (ps.0, ps.1), chan, hint, id);
    assert(handlers::announced(data, data.len() as int) =~= data);
    assert(data.take(data.len() as int) =~= data);
    assert(Seq::<u8>::empty() + data =~= data);
}

/// A pipe can be written no longer once nobody reads it. A read of an empty one
/// has to be tried again as long as somebody may write, and is the end of the
/// file afterwards.
pub proof fn law_pipe_ends_with_its_writers(
    p0: Map<u32, PipeView>,
    p1: Map<u32, PipeView>,
    id: u32,
    data: Seq<u8>,
    count: int,
    w: Result<u64, u64>,
    r: Result<u64, u64>,
    frame: Option<FrameView>,
)
    requires
        p0.contains_key(id),
        0 < count <= 4096,
    ensures
        handlers::pipe_write_done(p0, p1, id, data, w) && p0[id].readers == 0 ==> w == Err::<
            u64,
            u64,
        >(ERR_CLOSED) && p1 == p0,
        handlers::pipe_write_done(p0, p1, id, data, w) && p0[id].readers > 0 && p0[id].data.len()
            < p0[id].cap && data.len() > 0 ==> w is Ok,
        handlers::pipe_read_done(p0, p1, id, count, true, r, frame) && p0[id].data.len() == 0
            && p0[id].writers == 0 ==> r == Ok::<u64, u64>(0) && (frame matches Some(f)
            && f.payload.len() == 0 && f.result == 0),
        handlers::pipe_read_done(p0, p1, id, count, true, r, frame) && p0[id].data.len() == 0
            && p0[id].writers > 0 ==> r == Err::<u64, u64>(ERR_EMPTY) && (frame matches Some(f)
            && f.result == ERR_EMPTY),
        handlers::pipe_read_done(p0, p1, id, count, true, r, frame) && p0[id].data.len() > 0
            ==> r is Ok && r != Ok::<u64, u64>(0),
{
}

/// What was read from a pipe and what is left in it are what was in it.
pub proof fn law_pipe_loses_only_what_is_read(
    p0: Map<u32, PipeView>,
    p1: Map<u32, PipeView>,
    id: u32,
    other: u32,
    count: int,
    r: Result<u64, u64>,
    frame: Option<FrameView>,
)
    requires
        p0.contains_key(id),
        0 <= count,
        p0[id].data.len() <= u64::MAX,
        handlers::pipe_read_done(p0, p1, id, count, true, r, frame),
    ensures
        r is Ok ==> (frame matches Some(f) && f.payload + p1[id].data == p0[id].data
            && f.payload.len() <= count),
        r is Err ==> p1[id].data == p0[id].data,
        p1[id].readers == p0[id].readers,
        p1[id].writers == p0[id].writers,
        other != id ==> p1.contains_key(other) == p0.contains_key(other) && p1[other] == p0[other],
{
    let n = pipes::smaller(p0[id].data.len() as int, count);
    assert(p0[id].data.take(n) + p0[id].data.skip(n) =~= p0[id].data);
    if n == 0 {
        assert(p0[id].data.skip(0) =~= p0[id].data);
    }
}

// ── Paths in memory ──

/// A path in memory that was removed is gone, and nothing else is.
pub proof fn law_removed_path_is_gone<B: BlockSource>(
    tree: (Tree, Tree),
    ms: (Seq<FsMount<B>>, Seq<FsMount<B>>),
    mounts: Seq<Mount>,
    path: Seq<u8>,
    other: Seq<u8>,
    gens: (u64, u64),
    disk: Option<B>,
    r: Result<u64, u64>,
)
    requires
        !handlers::bad_path(path),
        !mount_legacy::device_path(path),
        mount_legacy::driver_of(path, mounts) is None,
        mount_legacy::longest(ramfs::rel_key(path), mount::targets(ms.0)) is None,
        handlers::delete_done(tree, ms, mounts, path, gens, disk, r),
    ensures
        r is Ok ==> ramfs::looked_up(tree.0, path) is Some && ramfs::looked_up(tree.1, path)
            is None,
        r is Err ==> r == Err::<u64, u64>(ERR_NOTFOUND) && tree.1 == tree.0,
        (ramfs::looked_up(tree.0, path) matches Some(n) && n is File) ==> r is Ok,
        ramfs::rel_key(other) != ramfs::rel_key(path) ==> ramfs::looked_up(tree.1, other)
            == ramfs::looked_up(tree.0, other),
        ms.1 == ms.0,
{
}

/// A directory in memory that was made answers to its name, and what was there
/// before is still there.
pub proof fn law_asked_directory_is_made<B: BlockSource>(
    tree: (Tree, Tree),
    ms: (Seq<FsMount<B>>, Seq<FsMount<B>>),
    path: Seq<u8>,
    other: Seq<u8>,
    gens: (u64, u64),
    disk: Option<B>,
    r: Result<u64, u64>,
)
    requires
        !handlers::bad_path(path),
        !mount_legacy::device_path(path),
        mount_legacy::longest(ramfs::rel_key(path), mount::targets(ms.0)) is None,
        ramfs::tree_ok(tree.0),
        handlers::mkdir_done(tree, ms, path, gens, disk, r),
    ensures
        r is Ok ==> (ramfs::looked_up(tree.1, path) matches Some(n) && n is Dir),
        r is Err ==> tree.1 == tree.0,
        ramfs::looked_up(tree.0, other) is Some ==> ramfs::looked_up(tree.1, other)
            == ramfs::looked_up(tree.0, other),
        (ramfs::looked_up(tree.0, path) matches Some(n) && n is File) ==> r is Err,
{
    let k = ramfs::rel_key(path);
    super::laws_files::lemma_key_is_bare(path);
    super::laws_files::lemma_key_fixed(k);
}

/// What a client is told of a path: a directory is told from a file, and one
/// that is read-only from one that is not.
pub proof fn law_kind_is_told_apart(m: Meta)
    ensures
        (handlers::kind_code(m) & 0xFF == STAT_DIR) == (m.kind == 1),
        (handlers::kind_code(m) & 0xFF == STAT_FILE) == (m.kind != 1),
        (handlers::kind_code(m) & STAT_READONLY != 0) == m.readonly,
{
    assert((0u64 | 0x100u64) & 0xFF == 0 && (1u64 | 0x100u64) & 0xFF == 1 && 0u64 & 0xFF == 0
        && 1u64 & 0xFF == 1 && (0u64 | 0x100u64) & 0x100 == 0x100 && (1u64 | 0x100u64) & 0x100
        == 0x100 && 0u64 & 0x100 == 0 && 1u64 & 0x100 == 0) by (bit_vector);
}

// ── Mounts ──

/// A mount request carries its source and its target, each with a zero byte
/// behind it.
pub proof fn law_mount_request_has_two_parts(source: Seq<u8>, target: Seq<u8>, rest: Seq<u8>)
    requires
        source.len() > 0,
        target.len() > 0,
        !source.contains(0u8),
        !target.contains(0u8),
    ensures
        handlers::mount_parts(source + seq![0u8] + target + seq![0u8] + rest) == Some(
            (source, target),
        ),
        handlers::mount_parts(source + seq![0u8] + target) == Some((source, target)),
        handlers::mount_parts(source) is None,
{
    let a = source + seq![0u8] + target + seq![0u8] + rest;
    let n = source.len() as int;
    assert forall|k: int| 0 <= k < n implies a[k] != 0 by {
        assert(source.contains(source[k]));
    }
    bytes::lemma_index_from_unique(a, 0, 0, n);
    let tail = a.skip(n + 1);
    assert forall|k: int| 0 <= k < target.len() implies tail[k] != 0 by {
        assert(target.contains(target[k]));
        assert(tail[k] == target[k]);
    }
    assert(tail[target.len() as int] == 0);
    bytes::lemma_index_from_unique(tail, 0, 0, target.len() as int);
    assert(a.take(n) =~= source);
    assert(tail.take(target.len() as int) =~= target);
    let b = source + seq![0u8] + target;
    assert forall|k: int| 0 <= k < n implies b[k] != 0 by {
        assert(source.contains(source[k]));
    }
    bytes::lemma_index_from_unique(b, 0, 0, n);
    assert(b.skip(n + 1) =~= target);
    bytes::lemma_index_from(target, 0, 0);
    if bytes::index_from(target, 0, 0) < target.len() {
        assert(target.contains(target[bytes::index_from(target, 0, 0)]));
    }
    assert(b.take(n) =~= source);
    assert(target.take(target.len() as int) =~= target);
    bytes::lemma_index_from(source, 0, 0);
    if bytes::index_from(source, 0, 0) < source.len() {
        assert(source.contains(source[bytes::index_from(source, 0, 0)]));
    }
}

/// A file system that descriptors are open on is not taken away; one without
/// any is, and every other one stays, in order.
pub proof fn law_busy_mount_stays<B: BlockSource>(
    ms: (Seq<FsMount<B>>, Seq<FsMount<B>>),
    tab: Map<(u64, u32), EntryView>,
    target: Seq<u8>,
    i: int,
    j: int,
    next_id: u64,
    gens: (u64, u64),
    r: Result<u64, u64>,
)
    requires
        mount::table_ok(ms.0, next_id),
        0 <= i < ms.0.len(),
        0 <= j < ms.0.len(),
        i != j,
        mount::target_form(target) == Some(ms.0[i].target@),
        handlers::umount_done(ms, tab, target, gens, r),
    ensures
        (exists|k: (u64, u32)| #[trigger]
            tab.contains_key(k) && ftable::on_mount(tab[k], ms.0[i].id)) ==> r == Err::<u64, u64>(
            ERR_BUSY,
        ) && ms.1 == ms.0,
        r is Ok ==> ms.1.len() == ms.0.len() - 1 && ms.1[if j < i {
            j
        } else {
            j - 1
        }] == ms.0[j] && (forall|k: int|
            0 <= k < ms.1.len() ==> (#[trigger] ms.1[k]).target@ != ms.0[i].target@),
        (forall|k: (u64, u32)| #[trigger]
            tab.contains_key(k) ==> !ftable::on_mount(tab[k], ms.0[i].id)) ==> r is Ok,
{
    let ts = mount::targets(ms.0);
    mount::lemma_target_index(ts, ms.0[i].target@);
    let x = mount::target_index(ts, ms.0[i].target@);
    assert(ts[i] == ms.0[i].target@);
    assert(x == i) by {
        if x < i {
            assert(ts[x] == ms.0[x].target@);
        } else if x > i {
            assert(ts[i] == ms.0[i].target@);
        }
    }
    mount::lemma_id_index(ms.0, ms.0[i].id);
    let y = mount::id_index(ms.0, ms.0[i].id);
    assert(y == i) by {
        if y < i {
            assert(ms.0[y].id == ms.0[i].id);
        }
    }
    if r is Ok {
        let rem = ms.0.remove(i);
        assert(ms.1 == rem);
        assert forall|k: int| 0 <= k < ms.1.len() implies (#[trigger] ms.1[k]).target@
            != ms.0[i].target@ by {
            if k < i {
                assert(ms.1[k] == ms.0[k]);
            } else {
                assert(ms.1[k] == ms.0[k + 1]);
            }
        }
    }
}

// ── Names of disks ──

/// The name that a disk or a partition goes by leads to its handle: the disk
/// times 65536, and the partition.
pub proof fn law_disk_goes_by_its_name(d: int, s: int)
    requires
        0 <= d < 16,
        0 <= s <= 64,
    ensures
        mount_legacy::disk_number(nodes::node_name(d, s)) == Some(d * 65536 + s),
{
    let n = nodes::node_name(d, s);
    if s > 0 {
        bytes::lemma_decimal_round_trip(s as nat);
        assert(n.skip(3) =~= bytes::decimal(s as nat));
        assert(n.len() > 3);
    }
}

/// A disk can be named by its path, by its serial number or by its label; the
/// driver is asked for the same key whichever form is used.
pub proof fn law_forms_of_a_source_agree(key: Seq<u8>)
    requires
        key.len() > 0,
        !key.contains(47u8),
    ensures
        mount::key_of(mount::dev_prefix() + key) == Some(key),
        mount::key_of(mount::dev_prefix() + mount::by_uuid_prefix() + key) == Some(key),
        mount::key_of(mount::dev_prefix() + mount::by_label_prefix() + key) == Some(key),
        mount::key_of(mount::uuid_prefix() + key) == Some(key),
        mount::key_of(mount::label_prefix() + key) == Some(key),
{
    let dev = mount::dev_prefix();
    let a = dev + key;
    assert(a.take(5) =~= dev);
    assert(a.skip(5) =~= key);
    assert(!bytes::has_prefix(key, mount::by_uuid_prefix())) by {
        if bytes::has_prefix(key, mount::by_uuid_prefix()) {
            assert(key[4] == key.take(13)[4]);
            assert(key.contains(key[4]));
        }
    }
    assert(!bytes::has_prefix(key, mount::by_label_prefix())) by {
        if bytes::has_prefix(key, mount::by_label_prefix()) {
            assert(key[4] == key.take(14)[4]);
            assert(key.contains(key[4]));
        }
    }
    let b = dev + mount::by_uuid_prefix() + key;
    assert(b.take(5) =~= dev);
    assert(b.skip(5) =~= mount::by_uuid_prefix() + key);
    assert(b.skip(5).take(13) =~= mount::by_uuid_prefix());
    assert(b.skip(5).skip(13) =~= key);
    let c = dev + mount::by_label_prefix() + key;
    assert(c.take(5) =~= dev);
    assert(c.skip(5) =~= mount::by_label_prefix() + key);
    assert(c.skip(5).take(14) =~= mount::by_label_prefix());
    assert(c.skip(5).skip(14) =~= key);
    assert(mount::by_uuid_prefix()[8] == 117 && c.skip(5).take(13)[8] == 108);
    let u = mount::uuid_prefix() + key;
    assert(u.take(5) =~= mount::uuid_prefix());
    assert(u.skip(5) =~= key);
    assert(u.take(5)[0] == 85);
    let l = mount::label_prefix() + key;
    assert(l.take(6) =~= mount::label_prefix());
    assert(l.skip(6) =~= key);
    assert(l.take(5)[0] == 76);
}

// ── Routes ──

/// A path lies under a mount point where it is the mount point, or goes on
/// with a slash behind it; what is left is what stands behind the slash.
pub proof fn law_under_is_by_components(prefix: Seq<u8>, rest: Seq<u8>, c: u8)
    requires
        c != 47,
    ensures
        mount_legacy::under(prefix, prefix) == Some(Seq::<u8>::empty()),
        mount_legacy::under(prefix + seq![47u8] + rest, prefix) == Some(rest),
        mount_legacy::under(prefix + seq![c] + rest, prefix) is None,
        rights::inside(prefix, prefix + seq![47u8] + rest),
        prefix.len() > 0 ==> !rights::inside(prefix, prefix + seq![c] + rest),
{
    let a = prefix + seq![47u8] + rest;
    assert(a.take(prefix.len() as int) =~= prefix);
    assert(a.skip(prefix.len() as int + 1) =~= rest);
    assert(a.len() > prefix.len());
    let b = prefix + seq![c] + rest;
    assert(b.len() > prefix.len());
    assert(b[prefix.len() as int] == c);
}

/// A mount point shows in the directory above it under its own name.
pub proof fn law_mount_point_shows_above(t: Seq<u8>, name: Seq<u8>, rest: Seq<u8>)
    requires
        name.len() > 0,
        !name.contains(47u8),
        t.len() > 0,
    ensures
        mount_legacy::child_at(t + seq![47u8] + name, t) == name,
        mount_legacy::child_at(t + seq![47u8] + name + seq![47u8] + rest, t) == name,
        mount_legacy::child_at(name, Seq::empty()) == name,
        mount_legacy::child_at(name + seq![47u8] + rest, Seq::empty()) == name,
{
    lemma_first_part(name, rest);
    let a = t + seq![47u8] + name;
    assert(a.take(t.len() as int) =~= t);
    assert(a.skip(t.len() as int + 1) =~= name);
    let b = t + seq![47u8] + name + seq![47u8] + rest;
    assert(b.take(t.len() as int) =~= t);
    assert(b.skip(t.len() as int + 1) =~= name + seq![47u8] + rest);
}

proof fn lemma_first_part(name: Seq<u8>, rest: Seq<u8>)
    requires
        !name.contains(47u8),
    ensures
        mount_legacy::first_part(name) == name,
        mount_legacy::first_part(name + seq![47u8] + rest) == name,
{
    bytes::lemma_index_from(name, 0, 47);
    if bytes::index_from(name, 0, 47) < name.len() {
        assert(name.contains(name[bytes::index_from(name, 0, 47)]));
    }
    assert(name.take(name.len() as int) =~= name);
    let b = name + seq![47u8] + rest;
    assert forall|k: int| 0 <= k < name.len() implies b[k] != 47 by {
        assert(name.contains(name[k]));
    }
    bytes::lemma_index_from_unique(b, 0, 47, name.len() as int);
    assert(b.take(name.len() as int) =~= name);
}

// ── Drivers ──

/// A driver that registered a mount point holds it, the one that had it before
/// does not any more, and all others keep theirs.
pub proof fn law_registered_driver_holds_it(
    m: Seq<(Seq<u8>, u64)>,
    prefix: Seq<u8>,
    other: Seq<u8>,
    chan: u64,
    init_child: bool,
    facts: Seq<server::DriverFact>,
)
    ensures
        ({
            let n = server::registered(m, prefix, chan, init_child, facts);
            &&& n != m ==> server::holder_of(n, prefix) == Some(chan)
            &&& other != prefix ==> server::holder_of(n, other) == server::holder_of(m, other)
            &&& server::may_register(m, prefix, init_child, facts) && vstd::utf8::valid_utf8(prefix)
                ==> server::holder_of(n, prefix) == Some(chan)
        }),
{
    let n = server::registered(m, prefix, chan, init_child, facts);
    let w = server::without_prefix(m, prefix);
    lemma_without_prefix(m, prefix, other);
    lemma_holder_push(w, prefix, chan, prefix);
    lemma_holder_push(w, prefix, chan, other);
}

proof fn lemma_holder_push(m: Seq<(Seq<u8>, u64)>, prefix: Seq<u8>, chan: u64, key: Seq<u8>)
    ensures
        server::holder_of(m.push((prefix, chan)), key) == (match server::holder_of(m, key) {
            Some(c) => Some(c),
            None => if key == prefix {
                Some(chan)
            } else {
                None
            },
        }),
    decreases m.len(),
{
    let n = m.push((prefix, chan));
    if m.len() == 0 {
        assert(n.skip(1) =~= Seq::empty());
        reveal_with_fuel(server::holder_of, 2);
    } else {
        lemma_holder_push(m.skip(1), prefix, chan, key);
        assert(n.skip(1) =~= m.skip(1).push((prefix, chan)));
    }
}

proof fn lemma_without_prefix(m: Seq<(Seq<u8>, u64)>, prefix: Seq<u8>, other: Seq<u8>)
    ensures
        server::holder_of(server::without_prefix(m, prefix), prefix) is None,
        other != prefix ==> server::holder_of(server::without_prefix(m, prefix), other)
            == server::holder_of(m, other),
    decreases m.len(),
{
    if m.len() > 0 {
        let b = m.drop_last();
        lemma_without_prefix(b, prefix, other);
        let w = server::without_prefix(b, prefix);
        assert(m =~= b.push((m.last().0, m.last().1)));
        lemma_holder_push(b, m.last().0, m.last().1, other);
        lemma_holder_push(w, m.last().0, m.last().1, other);
        lemma_holder_push(w, m.last().0, m.last().1, prefix);
        assert(w.push(m.last()) =~= w.push((m.last().0, m.last().1)));
    }
}

/// When a driver is gone, so are its mount points, and only those.
pub proof fn law_gone_driver_leaves_nothing(m: Seq<(Seq<u8>, u64)>, chan: u64, e: (Seq<u8>, u64))
    ensures
        server::without_driver(m, chan).contains(e) == (m.contains(e) && e.1 != chan),
    decreases m.len(),
{
    if m.len() > 0 {
        let b = m.drop_last();
        law_gone_driver_leaves_nothing(b, chan, e);
        let r = server::without_driver(b, chan);
        assert(m.contains(e) == (b.contains(e) || m.last() == e)) by {
            if m.contains(e) {
                let i = choose|i: int| 0 <= i < m.len() && m[i] == e;
                if i < b.len() {
                    assert(b[i] == e);
                }
            }
            if b.contains(e) {
                let i = choose|i: int| 0 <= i < b.len() && b[i] == e;
                assert(m[i] == e);
            }
            if m.last() == e {
                assert(m[m.len() - 1] == e);
            }
        }
        assert(r.push(m.last()).contains(e) == (r.contains(e) || m.last() == e)) by {
            let q = r.push(m.last());
            if q.contains(e) {
                let i = choose|i: int| 0 <= i < q.len() && q[i] == e;
                if i < r.len() {
                    assert(r[i] == e);
                }
            }
            if r.contains(e) {
                let i = choose|i: int| 0 <= i < r.len() && r[i] == e;
                assert(q[i] == e);
            }
            if m.last() == e {
                assert(q[r.len() as int] == e);
            }
        }
    }
}

// ── Ceilings ──

/// The first process may do everything, an image that the table of services
/// lists may do what it says there whatever the other table says, and one that
/// no table lists, or that is not known, no more than the default.
pub proof fn law_ceiling_is_the_listed_one(
    pid: Option<i64>,
    h: u64,
    services: Seq<(u64, u32)>,
    tests: Seq<(u64, u32)>,
    i: int,
)
    ensures
        policy::ceiling_of(Some(1i64), Some(h), services, tests) == RIGHTS_ALL,
        pid != Some(1i64) && 0 <= i < services.len() && services[i].0 == h && (forall|k: int|
            0 <= k < i ==> (#[trigger] services[k]).0 != h) ==> policy::ceiling_of(
            pid,
            Some(h),
            services,
            tests,
        ) == services[i].1,
        pid != Some(1i64) && 0 <= i < tests.len() && tests[i].0 == h && (forall|k: int|
            0 <= k < i ==> (#[trigger] tests[k]).0 != h) && (forall|k: int|
            0 <= k < services.len() ==> (#[trigger] services[k]).0 != h) ==> policy::ceiling_of(
            pid,
            Some(h),
            services,
            tests,
        ) == tests[i].1,
        pid != Some(1i64) && (forall|k: int|
            0 <= k < services.len() ==> (#[trigger] services[k]).0 != h) && (forall|k: int|
            0 <= k < tests.len() ==> (#[trigger] tests[k]).0 != h) ==> policy::ceiling_of(
            pid,
            Some(h),
            services,
            tests,
        ) == policy::ceiling_of(pid, None, services, tests),
{
    if forall|k: int| 0 <= k < services.len() ==> (#[trigger] services[k]).0 != h {
        lemma_unlisted(services, h);
    }
    if forall|k: int| 0 <= k < tests.len() ==> (#[trigger] tests[k]).0 != h {
        lemma_unlisted(tests, h);
    }
    if 0 <= i < services.len() && services[i].0 == h && (forall|k: int|
        0 <= k < i ==> (#[trigger] services[k]).0 != h) {
        lemma_listed(services, h, i);
    }
    if 0 <= i < tests.len() && tests[i].0 == h && (forall|k: int|
        0 <= k < i ==> (#[trigger] tests[k]).0 != h) {
        lemma_listed(tests, h, i);
    }
}

proof fn lemma_listed(table: Seq<(u64, u32)>, h: u64, i: int)
    requires
        0 <= i < table.len(),
        table[i].0 == h,
        forall|k: int| 0 <= k < i ==> (#[trigger] table[k]).0 != h,
    ensures
        policy::listed_mask(table, h) == Some(table[i].1),
    decreases table.len(),
{
    if i > 0 {
        assert(table[0].0 != h);
        let t = table.skip(1);
        assert forall|k: int| 0 <= k < i - 1 implies (#[trigger] t[k]).0 != h by {
            assert(t[k] == table[k + 1]);
        }
        lemma_listed(t, h, i - 1);
    }
}

proof fn lemma_unlisted(table: Seq<(u64, u32)>, h: u64)
    requires
        forall|k: int| 0 <= k < table.len() ==> (#[trigger] table[k]).0 != h,
    ensures
        policy::listed_mask(table, h) is None,
    decreases table.len(),
{
    if table.len() > 0 {
        assert(table[0].0 != h);
        let t = table.skip(1);
        assert forall|k: int| 0 <= k < t.len() implies (#[trigger] t[k]).0 != h by {
            assert(t[k] == table[k + 1]);
        }
        lemma_unlisted(t, h);
    }
}

// ── Requests in rings ──

/// A request that a client put in its ring is served as it was sent: what is
/// asked for, its words and its payload come out as they went in, and what
/// stands behind it in the ring is left there.
pub proof fn law_sent_request_is_served<B: BlockSource>(
    a: Server<B>,
    chan: u64,
    op: u32,
    w0: u64,
    w1: u64,
    payload: Seq<u8>,
    behind: Seq<u8>,
    rest: Seq<u8>,
    t: Taken,
)
    requires
        a.rings@.contains_key(chan),
        server::payload_len(op, w0, w1) == Some(payload.len() as u64),
        payload.len() <= MAX_DATA,
        rights::op_allowed(
            rights::rights_of(a.rights@, chan),
            server::ceiling_at(a.policy@, chan),
            op,
        ),
        !(op == R_WRITE && (ftable::entry_at(a.ftable@, chan, w0 as u32) matches Some(
            EntryView::Remote { .. },
        ))),
        server::in_subtree(rights::rights_of(a.rights@, chan).subtree, op, payload),
        notify::taken_from(a, chan, ring::request(op, w0, w1, payload) + behind, rest, t),
    ensures
        rest == behind,
        t matches Taken::Ask { op: o, req } && o == op && server::decoded(
            req,
            op,
            w0,
            w1,
            payload,
        ),
{
    ring::law_request_reads_back(op, w0, w1, payload, behind);
}

/// Where the parts of a request stand: the descriptor in the first word, a
/// count or a distance in the second, paths and bytes in the payload.
pub proof fn law_request_carries_its_words(
    req: Request,
    op: u32,
    fd: u32,
    w0: u64,
    w1: u64,
    payload: Seq<u8>,
)
    requires
        server::decoded(req, op, w0, w1, payload),
        vstd::utf8::valid_utf8(payload),
        payload.len() > 0,
    ensures
        op == R_OPEN ==> (req matches Request::Open { path, flags } && path@ == payload && flags
            == w1),
        op == R_READ && w0 == fd && w1 <= usize::MAX ==> (req matches Request::Read { fd: f, count }
            && f == fd && count == w1),
        op == R_WRITE && w0 == fd && w1 <= usize::MAX ==> (req matches Request::Write {
            fd: f,
            count,
            data,
        } && f == fd && count == w1 && data@ == payload),
        op == R_CLOSE && w0 == fd ==> req == (Request::Close { fd }),
        op == R_READDIR ==> (req matches Request::ReadDir { path } && path@ == payload),
        op == R_MKDIR ==> (req matches Request::MkDir { path } && path@ == payload),
        op == R_MOUNT ==> (req matches Request::Mount { spec } && spec@ == payload),
        op == R_UMOUNT ==> (req matches Request::Umount { target } && target@ == payload),
        op == R_DELETE ==> (req matches Request::Delete { path } && path@ == payload),
        op == R_STAT ==> (req matches Request::Stat { path } && path@ == payload),
        op == R_LSEEK && w0 == fd ==> (req matches Request::Seek { fd: f, off, whence } && f == fd
            && (w1 <= i64::MAX ==> off == w1) && whence == payload[0]),
        op == R_DUP_GRANT && w0 == fd ==> req == (Request::Grant { fd }),
        op == R_DUP_CLAIM && payload == bytes::le_bytes(w1 as nat, 8) ==> req == (Request::Claim {
            nonce: w1,
        }),
        op == R_DUP_CANCEL && payload == bytes::le_bytes(w1 as nat, 8) ==> req == (
        Request::Cancel { nonce: w1 }),
        op == R_PIPE_CREATE && w0 <= usize::MAX ==> (req matches Request::PipeCreate { hint }
            && hint == w0),
        op == R_RIGHTS_DROP && w0 == fd ==> (req matches Request::RightsDrop { keep, subtree }
            && keep == fd && subtree@ == payload),
        op == R_RIGHTS_GET ==> req is RightsGet,
{
    bytes::lemma_le_bytes_len(w1 as nat, 8);
    if payload == bytes::le_bytes(w1 as nat, 8) {
        ring::lemma_pow256();
        assert(payload.subrange(0, 8) =~= payload);
        bytes::lemma_le_round_trip(payload, 0, w1 as nat, 8);
    }
}

// ── Sources and targets ──

/// A source by serial number or label is taken as it is, white space around it
/// does not count, and the disk with that number or label is asked for.
pub proof fn law_source_asks_for_its_disk(uuid: Seq<u8>, label: Seq<u8>, blank: u8)
    requires
        uuid.len() == 8,
        forall|i: int| 0 <= i < 8 ==> mount::hex_byte(#[trigger] uuid[i]),
        0 < label.len() <= 11,
        text::all_ascii(label),
        !label.contains(47u8),
        !text::ascii_blank(label.last()),
        text::ascii_blank(blank),
    ensures
        ({
            let u = mount::uuid_prefix() + uuid;
            let l = mount::label_prefix() + label;
            &&& mount::source_form(u) == Some(u)
            &&& mount::asked_key(u) == Some(uuid)
            &&& mount::source_form(seq![blank] + u + seq![blank]) == Some(u)
            &&& mount::source_form(l) == Some(l)
            &&& mount::asked_key(l) == Some(label)
        }),
{
    let u = mount::uuid_prefix() + uuid;
    assert forall|i: int| 0 <= i < u.len() implies #[trigger] u[i] < 128 && !text::ascii_blank(
        u[i],
    ) by {
        if i >= 5 {
            assert(u[i] == uuid[i - 5]);
            assert(mount::hex_byte(uuid[i - 5]));
        }
    }
    assert(text::trimmed_form(u) == u);
    assert(u.take(5) =~= mount::uuid_prefix());
    assert(u.skip(5) =~= uuid);
    assert(u.take(5)[0] == 85);
    assert forall|i: int| 5 <= i < 13 implies mount::hex_byte(#[trigger] u[i]) by {
        assert(u[i] == uuid[i - 5]);
    }
    let v = seq![blank] + u + seq![blank];
    assert forall|i: int| 0 <= i < v.len() implies #[trigger] v[i] < 128 by {
        if 1 <= i <= 13 {
            assert(v[i] == u[i - 1]);
        }
    }
    assert(v.skip(1) =~= u + seq![blank]);
    assert((u + seq![blank]).drop_last() =~= u);
    reveal_with_fuel(text::ascii_trimmed, 3);
    assert((u + seq![blank])[0] == u[0]);
    assert(text::ascii_trimmed(u + seq![blank]) == u);
    let l = mount::label_prefix() + label;
    assert forall|i: int| 0 <= i < l.len() implies #[trigger] l[i] < 128 by {
        if i >= 6 {
            assert(l[i] == label[i - 6]);
        }
    }
    assert(l.last() == label.last());
    assert(text::trimmed_form(l) == l);
    assert(l.take(6) =~= mount::label_prefix());
    assert(l.skip(6) =~= label);
    assert(l.take(5)[0] == 76);
}

/// A target is the same with and without slashes at its ends.
pub proof fn law_slashes_around_a_target_do_not_count(t: Seq<u8>)
    requires
        t.len() > 0,
        text::all_ascii(t),
        t[0] != 47,
        t.last() != 47,
        !text::ascii_blank(t[0]),
        !text::ascii_blank(t.last()),
    ensures
        mount::target_form(seq![47u8] + t) == mount::target_form(t),
        mount::target_form(t + seq![47u8]) == mount::target_form(t),
        mount::target_form(t) is Some ==> mount::target_form(t) == Some(t),
        rights::normal_sub(seq![47u8] + t) == t,
        rights::normal_sub(t + seq![47u8]) == t,
{
    let a = seq![47u8] + t;
    let b = t + seq![47u8];
    assert forall|i: int| 0 <= i < a.len() implies #[trigger] a[i] < 128 by {
        if i >= 1 {
            assert(a[i] == t[i - 1]);
        }
    }
    assert(text::trimmed_form(a) == a);
    assert(text::trimmed_form(b) == b);
    assert(text::trimmed_form(t) == t);
    assert(a.skip(1) =~= t);
    assert(b.drop_last() =~= t);
    reveal_with_fuel(dir::stripped, 3);
}

// ── Appending ──

/// A write that appends goes to the end of the file, wherever the descriptor
/// stands; one that does not goes to where the descriptor stands.
pub proof fn law_append_goes_to_the_end(
    t: Tree,
    path: Seq<u8>,
    off: int,
    data: Seq<u8>,
    old: Seq<u8>,
    mode: u32,
)
    requires
        ramfs::tree_ok(t),
        ramfs::rel_key(path).len() <= 63,
        ramfs::looked_up(t, path) == Some(NodeView::File(old, mode)),
        0 <= off,
    ensures
        ramfs::looked_up(handlers::ram_file_write(t, path, off, data, true).0, path) == Some(
            NodeView::File(old + data, mode),
        ),
        off <= old.len() && data.len() > 0 ==> (ramfs::looked_up(
            handlers::ram_file_write(t, path, off, data, false).0,
            path,
        ) matches Some(NodeView::File(d, _)) && d.subrange(off, off + data.len()) == data && d.take(
            off,
        ) == old.take(off)),
{
    let k = ramfs::rel_key(path);
    super::laws_files::lemma_key_is_bare(path);
    super::laws_files::lemma_key_fixed(k);
    assert(super::codes::O_CREAT & super::codes::O_TRUNC == 0) by (bit_vector);
    assert(ramfs::handle_path(k) == k);
    assert forall|a: Seq<u8>| #[trigger] ramfs::above(a, k) && t.contains_key(a) implies !(
    t[a] is File) by {}
    assert(!ramfs::blocked(t, k));
    if off <= old.len() && data.len() > 0 {
        let d = ramfs::written(old, off, data, false);
        assert(d.subrange(off, off + data.len()) =~= data);
        assert(d.take(off) =~= old.take(off));
    }
}

/// The same for a file on a volume: where the bytes go, and where the
/// descriptor stands afterwards.
pub proof fn law_append_on_a_volume(x: FileInfo, off: usize, size: int, n: int)
    requires
        0 <= size <= u32::MAX,
        0 <= n,
        off + n <= usize::MAX,
    ensures
        handlers::write_pos(true, x, off) == x.size,
        handlers::write_pos(false, x, off) == off,
        handlers::offset_after(true, Some(size), off, n) == size,
        handlers::offset_after(false, Some(size), off, n) == off + n,
{
}

/// No more is written than was announced, nor than there is.
pub proof fn law_announced_bytes_are_written(payload: Seq<u8>, count: int)
    requires
        0 <= count,
    ensures
        count >= payload.len() ==> handlers::announced(payload, count) == payload,
        count <= payload.len() ==> handlers::announced(payload, count) == payload.take(count),
{
    assert(payload.take(payload.len() as int) =~= payload);
}

/// A file that is opened on a mount is a file of that mount, by its path there,
/// at its start, and appends if it was asked to.
pub proof fn law_opened_file_is_on_its_mount<B: BlockSource>(
    mid: Seq<FsMount<B>>,
    after: Seq<FsMount<B>>,
    i: int,
    rel: Seq<u8>,
    flags: u32,
    gens: (u64, u64),
    fds: (Map<(u64, u32), EntryView>, Map<(u64, u32), EntryView>),
    key: (u64, u32),
    other: (u64, u32),
    r: Result<u64, u64>,
)
    requires
        handlers::opened_fd(mid, after, i, rel, flags, gens, fds, key, r),
    ensures
        r is Ok ==> r == Ok::<u64, u64>(key.1 as u64) && fds.1.contains_key(key) && (
        fds.1[key] matches EntryView::Local { path, offset, mnt, append, .. } && path == rel
            && offset == 0 && mnt == Some(mid[i].id) && append == (flags & 8 != 0)),
        r is Err ==> fds.1 == fds.0,
        other != key ==> fds.1.contains_key(other) == fds.0.contains_key(other) && fds.1[other]
            == fds.0[other],
{
}

// ── Questions about paths ──

/// A mount point of a driver is told as a device, the root and the root of a
/// mounted file system as directories.
pub proof fn law_devices_and_roots_are_told<B: BlockSource>(
    tree: (Tree, Tree),
    ms: (Seq<FsMount<B>>, Seq<FsMount<B>>),
    mounts: Seq<Mount>,
    path: Seq<u8>,
    chan: u64,
    i: int,
    gens: (u64, u64),
    disk: Option<B>,
    r: Result<u64, u64>,
    frame: Option<FrameView>,
)
    requires
        !handlers::bad_path(path),
        handlers::path_stat_done(tree, ms, mounts, true, path, gens, disk, r, frame),
    ensures
        path == seq![47u8] ==> r is Ok && (frame matches Some(f) && f.w1 == 1),
        path != seq![47u8] && mount_legacy::driver_of(path, mounts) == Some(
            (chan, Seq::<u8>::empty()),
        ) ==> r is Ok && (frame matches Some(f) && f.w1 == 2),
        path != seq![47u8] && mount_legacy::driver_of(path, mounts) is None
            && mount_legacy::longest(ramfs::rel_key(path), mount::targets(ms.0)) == Some(
            (i, Seq::<u8>::empty()),
        ) && ms.0[i].fs.active() && 0 <= i < ms.0.len() ==> r is Ok && (frame matches Some(f) && f.w1
            == 1) && ms.1 == ms.0,
{
}

/// What is known of a file from before the volume changed is not used: the
/// volume is asked again.
pub proof fn law_stale_knowledge_is_not_used(
    e: EntryView,
    img: super::block::Image,
    g: super::fat32::types::Geometry,
    now: u64,
)
    requires
        e matches EntryView::Local { kind, fat_gen, .. } && kind == FsKind::Fat && fat_gen != now,
    ensures
        ftable::known_info(Some(e), img, g, now) == dir::found(img, g, e->path),
        ftable::cached_info(Some(e), now) is None,
{
}

/// Directories cannot be made on a volume, nor anything removed from it: it
/// stays as it is.
pub proof fn law_volume_keeps_its_directories<B: BlockSource>(
    tree: (Tree, Tree),
    ms: (Seq<FsMount<B>>, Seq<FsMount<B>>),
    mounts: Seq<Mount>,
    path: Seq<u8>,
    i: int,
    rel: Seq<u8>,
    gens: (u64, u64),
    disk: Option<B>,
    r: Result<u64, u64>,
)
    requires
        !handlers::bad_path(path),
        mount_legacy::driver_of(path, mounts) is None,
        mount_legacy::longest(ramfs::rel_key(path), mount::targets(ms.0)) == Some((i, rel)),
        0 <= i < ms.0.len(),
        ms.0[i].fs is Fat,
        ms.0[i].fs.active(),
    ensures
        handlers::mkdir_done(tree, ms, path, gens, disk, r) ==> r is Err && ms.1 == ms.0 && tree.1
            == tree.0,
        handlers::delete_done(tree, ms, mounts, path, gens, disk, r) ==> r == Err::<u64, u64>(
            ERR_READONLY,
        ) && ms.1 == ms.0 && tree.1 == tree.0,
{
}

/// On any mounted file system, appending does not depend on where the descriptor
/// stands; on a volume it is a write at the end of the file.
pub proof fn law_mounted_append_is_a_write_at_the_end<B: BlockSource>(
    before: MountedFs<B>,
    after: MountedFs<B>,
    h: AnyHandle,
    off: int,
    other: int,
    buf: Seq<u8>,
    r: Result<usize, u64>,
)
    ensures
        provider::wrote_on(before, after, h, off, buf, true, r) == provider::wrote_on(
            before,
            after,
            h,
            other,
            buf,
            true,
            r,
        ),
        before is Fat && h is Fat ==> provider::wrote_on(before, after, h, off, buf, true, r)
            == provider::wrote_on(before, after, h, h->Fat_0.size as int, buf, false, r),
{
}

/// A read of a mounted file in memory gives the bytes from the offset on, and
/// one of a directory is refused, on either kind of file system.
pub proof fn law_mounted_read_gives_the_bytes<B: BlockSource>(
    before: MountedFs<B>,
    after: MountedFs<B>,
    h: AnyHandle,
    off: int,
    count: int,
    r: Result<Seq<u8>, u64>,
    k: int,
)
    requires
        provider::read_on(before, after, h, off, count, r),
        0 <= off,
        0 <= count,
    ensures
        before is Fat && h is Fat && before.active() && h->Fat_0.is_dir ==> r == Err::<
            Seq<u8>,
            u64,
        >(ERR_ISDIR),
        before is Local && h is Ram && (ramfs::looked_up(
            before->Local_0@,
            h->Ram_0@,
        ) matches Some(NodeView::File(_, _))) ==> r is Ok,
        before is Local && h is Ram && (ramfs::looked_up(
            before->Local_0@,
            h->Ram_0@,
        ) matches Some(NodeView::File(d, _)) && 0 <= k && off + k < d.len() && k < count) ==> (
        r matches Ok(s) && k < s.len() && s[k] == ramfs::looked_up(
            before->Local_0@,
            h->Ram_0@,
        )->0->File_0[off + k]),
{
}

} // verus!
