//! What holds of files as clients see them: what is written through one
//! descriptor is read through another.
use vstd::prelude::*;

use super::block::BlockSource;
use super::codes::O_CREAT;
use super::fat32::dir;
use super::fat32::file;
use super::fat32::laws_found;
use super::fat32::types::{Fat32, FileInfo};
use super::ftable;
use super::handlers;
use super::mount::FsMount;
use super::mount_legacy::FsKind;
use super::pipes;
use super::provider;
use super::provider::{AnyHandle, MountedFs};
use super::ramfs;
use super::rings;
use crate::shell::cwd;

verus! {

/// A path without leading slashes has none to lose.
proof fn lemma_rel_key(path: Seq<u8>)
    ensures
        ramfs::rel_key(ramfs::rel_key(path)) == ramfs::rel_key(path),
    decreases path.len(),
{
    if path.len() > 0 && path[0] == 47 {
        lemma_rel_key(path.skip(1));
    }
}

/// The size of a file in memory; 0 if there is none.
pub open spec fn ram_size(t: ramfs::Tree, path: Seq<u8>) -> int {
    match ramfs::looked_up(t, path) {
        Some(ramfs::NodeView::File(d, _)) => d.len() as int,
        _ => 0,
    }
}

/// What is written to a file in memory through a descriptor is read through
/// every descriptor of the file that stands where it was written. Handles keep
/// 63 bytes of a path, so longer ones are left out.
pub proof fn law_memory_write_is_read<B: BlockSource>(
    trees: (ramfs::Tree, ramfs::Tree, ramfs::Tree),
    fds: (Map<(u64, u32), ftable::EntryView>, Map<(u64, u32), ftable::EntryView>),
    fds2: (Map<(u64, u32), ftable::EntryView>, Map<(u64, u32), ftable::EntryView>),
    ps: (Map<u32, pipes::PipeView>, Map<u32, pipes::PipeView>),
    ps2: (Map<u32, pipes::PipeView>, Map<u32, pipes::PipeView>),
    ms: (Seq<FsMount<B>>, Seq<FsMount<B>>),
    ms2: (Seq<FsMount<B>>, Seq<FsMount<B>>),
    writer: (u64, u32),
    reader: (u64, u32),
    count: usize,
    data: Seq<u8>,
    gens: (u64, u64),
    gens2: (u64, u64),
    disk: Option<B>,
    disk2: Option<B>,
    reply: Option<u64>,
    r: Result<u64, u64>,
    r2: Result<u64, u64>,
    frame: Option<rings::FrameView>,
)
    requires
        handlers::fd_write_done(
            (trees.0, trees.1),
            fds,
            ps,
            ms,
            writer.0,
            writer.1,
            count,
            data,
            gens,
            disk,
            r,
        ),
        r is Ok,
        data.len() <= 4096,
        handlers::fd_read_done(
            (trees.1, trees.2),
            fds2,
            ps2,
            ms2,
            true,
            reader.0,
            reader.1,
            data.len() as usize,
            gens2,
            disk2,
            reply,
            r2,
            frame,
        ),
        ftable::entry_at(fds.0, writer.0, writer.1) matches Some(
            ftable::EntryView::Local { path, kind: FsKind::Ram, offset, append, .. },
        ) && ramfs::rel_key(path).len() <= 63 && (ftable::entry_at(fds2.0, reader.0, reader.1) matches Some(
            ftable::EntryView::Local { path: path2, kind: FsKind::Ram, offset: at, .. },
        ) && ramfs::rel_key(path2) == ramfs::rel_key(path) && at == (if append {
            ram_size(trees.0, path)
        } else {
            offset as int
        })),
    ensures
        r2 == Ok::<u64, u64>(data.len() as u64),
        frame == Some(
            (rings::FrameView { result: data.len() as u64, w1: 0, payload: data }),
        ),
{
    let e = ftable::entry_at(fds.0, writer.0, writer.1)->0;
    let e2 = ftable::entry_at(fds2.0, reader.0, reader.1)->0;
    let path = e->path;
    let path2 = e2->path;
    let k = ramfs::rel_key(path);
    let at = e2->offset as int;
    lemma_rel_key(path);
    assert(forall|f: u32| #[trigger] (0u32 & f) == 0) by (bit_vector);
    assert(0x200u32 & 0x200u32 != 0 && 0x200u32 & 0x400u32 == 0) by (bit_vector);
    let t1 = ramfs::ram_opened(trees.0, path, O_CREAT).0;
    assert(t1.contains_key(k) && t1[k] is File);
    let d = t1[k]->File_0;
    assert(d.len() == ram_size(trees.0, path));
    assert(trees.1[k] == ramfs::NodeView::File(
        ramfs::written(d, e->offset as int, data, e->append),
        t1[k]->File_1,
    ));
    ramfs::law_ram_write_reads_back(d, e->offset as int, data);
    assert(handlers::ram_file_read(trees.1, path2, at, data.len() as int) == Ok::<Seq<u8>, u64>(
        data,
    ));
}

/// What is written to a file of a mounted file system in memory is read by
/// every handle of the file.
pub proof fn law_mounted_write_is_read<B: BlockSource>(
    a: MountedFs<B>,
    b: MountedFs<B>,
    c: MountedFs<B>,
    h: ramfs::RamHandle,
    h2: ramfs::RamHandle,
    off: int,
    at: int,
    data: Seq<u8>,
    append: bool,
    r: Result<usize, u64>,
    d: Result<Seq<u8>, u64>,
)
    requires
        a is Local,
        0 <= off,
        provider::wrote_on(a, b, AnyHandle::Ram(h), off, data, append, r),
        r is Ok,
        ramfs::rel_key(h2@) == ramfs::rel_key(h@),
        at == (if append {
            ram_size(a->Local_0@, h@)
        } else {
            off
        }),
        provider::read_on(b, c, AnyHandle::Ram(h2), at, data.len() as int, d),
    ensures
        d == Ok::<Seq<u8>, u64>(data),
{
    let t = a->Local_0@;
    let k = ramfs::rel_key(h@);
    let t1 = ramfs::with_node(t, k, ramfs::new_file())->0;
    ramfs::law_ram_write_reads_back(t1[k]->File_0, off, data);
}

/// What is written to a file on a volume through a descriptor is read through
/// every descriptor that leads to the file, where no transfer fails. This holds
/// on sound volumes: the file, its directory and the directories on the way to
/// it share no clusters. `e` and `e2` are the descriptors; what each of them
/// knows of the file is what the path leads to.
pub proof fn law_volume_write_is_read<B: BlockSource>(
    a: Fat32<B>,
    b: Fat32<B>,
    c: Fat32<B>,
    e: ftable::EntryView,
    e2: ftable::EntryView,
    path: Seq<u8>,
    info: FileInfo,
    n: nat,
    nd: nat,
    off: usize,
    at: usize,
    data: Seq<u8>,
    append: bool,
    gens: (u64, u64),
    gen2: u64,
    fds: (Map<(u64, u32), ftable::EntryView>, Map<(u64, u32), ftable::EntryView>),
    fds2: (Map<(u64, u32), ftable::EntryView>, Map<(u64, u32), ftable::EntryView>),
    key: (u64, u32),
    key2: (u64, u32),
    m: u64,
    r2: Result<u64, u64>,
    frame: Option<rings::FrameView>,
)
    requires
        handlers::fat_write_done(a, b, e, path, off, data, append, gens, fds, key, Ok(m)),
        b.faults() == a.faults(),
        m > 0,
        at == handlers::write_pos(append, info, off),
        at + data.len() <= u32::MAX,
        dir::found(a.img(), a.geometry(), path) == Some(info),
        ftable::known_info(Some(e), a.img(), a.geometry(), gens.0) == Some(info),
        laws_found::sound_file(a.img(), a.geometry(), info, n, nd),
        laws_found::way_apart(
            a.img(),
            a.geometry(),
            a.geometry().root_cluster,
            cwd::split_on(dir::stripped(path), 47),
            info,
            n,
            nd,
        ),
        handlers::fat_read_done(
            b,
            c,
            e2,
            gen2,
            at,
            m as int,
            true,
            fds2,
            key2,
            r2,
            frame,
        ),
        c.faults() == b.faults(),
        ftable::known_info(Some(e2), b.img(), b.geometry(), gen2) == dir::found(
            b.img(),
            b.geometry(),
            path,
        ),
    ensures
        m <= data.len(),
        r2 == Ok::<u64, u64>(m),
        frame == Some((rings::FrameView { result: m, w1: 0, payload: data.take(m as int) })),
{
    let g = a.geometry();
    let (img2, w) = file::grown(a.img(), g, info, at as int, data);
    assert(b.img() == img2 && w == m);
    assert(data.len() > 0);
    laws_found::law_written_file_is_read(a.img(), g, path, info, n, nd, at as int, data);
    let x = dir::found(img2, g, path)->0;
    let d = choose|d: Result<Seq<u8>, u64>| #[trigger]
        provider::read_on(
            MountedFs::Fat(Some(b)),
            MountedFs::Fat(Some(c)),
            AnyHandle::Fat(x),
            at as int,
            m as int,
            d,
        ) && handlers::read_done(
            d,
            ftable::with_info(e2, Some(x), gen2),
            at,
            true,
            fds2,
            key2,
            r2,
            frame,
        );
    assert(d is Ok);
    assert(d->Ok_0 =~= data.take(m as int));
}

} // verus!
