//! What a file system offers to the server.
use vstd::prelude::*;

use super::block::BlockSource;
use super::codes::{ERR, ERR_INVALID, ERR_ISDIR, ERR_NOTFOUND, ERR_READONLY};
use super::fat32::dir;
use super::fat32::faults;
use super::fat32::file;
use super::fat32::local;
use super::fat32::mount;
use super::fat32::types::{Fat32, FileInfo};
use super::ramfs;
use super::ramfs::{RamFs, RamHandle};
use crate::bytes;
use crate::bytes::copy_of;

verus! {

/// Takes the names of a directory, one by one.
pub trait EntrySink {
    /// The names taken so far.
    spec fn taken(&self) -> Seq<Seq<u8>>;

    fn emit(&mut self, name: &[u8])
        ensures
            final(self).taken() == old(self).taken().push(name@),
    ;
}

/// A list of names.
pub struct Names {
    pub list: Vec<Vec<u8>>,
}

impl EntrySink for Names {
    open spec fn taken(&self) -> Seq<Seq<u8>> {
        bytes::views(self.list@)
    }

    fn emit(&mut self, name: &[u8]) {
        let n: Vec<u8> = copy_of(name);
        proof {
            bytes::lemma_views_push(self.list@, n);
        }
        self.list.push(n);
    }
}

impl Names {
    pub fn new() -> (r: Names)
        ensures
            r.taken() == Seq::<Seq<u8>>::empty(),
    {
        let r = Names { list: Vec::new() };
        assert(r.taken() =~= Seq::empty());
        r
    }
}

/// A write of `n` bytes ends at a position that there is; with `append` the
/// offset says nothing.
pub open spec fn write_fits(off: usize, n: int, append: bool) -> bool {
    if append {
        n <= 0xFFFF_FFFE_0000_0000
    } else {
        off + n <= 0xFFFF_FFFE_0000_0000 && off + n <= usize::MAX
    }
}

/// What is known of a path: its size, whether it is a file (0), a directory
/// (1) or a device (2), and whether it can only be read.
#[derive(Clone, Copy, PartialEq, Eq, Debug, Structural)]
pub struct Meta {
    pub size: u64,
    pub kind: u8,
    pub readonly: bool,
    pub mtime: u64,
}

/// A local file system.
pub trait LocalFs {
    type Handle: Copy;

    /// The file system is in order.
    spec fn ready(&self) -> bool;

    fn open(&mut self, rel: &[u8], flags: u32) -> (r: Result<Self::Handle, u64>)
        requires
            old(self).ready(),
        ensures
            final(self).ready(),
    ;

    fn read(&mut self, h: Self::Handle, off: usize, buf: &mut [u8]) -> (r: Result<usize, u64>)
        requires
            old(self).ready(),
        ensures
            final(self).ready(),
            final(buf)@.len() == old(buf)@.len(),
            r matches Ok(n) ==> n <= old(buf)@.len() && off + n <= usize::MAX,
    ;

    fn write(&mut self, h: Self::Handle, off: usize, buf: &[u8], append: bool) -> (r: Result<
        usize,
        u64,
    >)
        requires
            old(self).ready(),
            write_fits(off, buf@.len() as int, append),
        ensures
            final(self).ready(),
            r matches Ok(n) ==> n <= buf@.len(),
    ;

    fn close(&mut self, h: Self::Handle)
        requires
            old(self).ready(),
        ensures
            final(self).ready(),
    ;

    fn list<S: EntrySink>(&mut self, rel: &[u8], out: &mut S) -> (r: Result<usize, u64>)
        requires
            old(self).ready(),
        ensures
            final(self).ready(),
    ;

    fn stat(&mut self, rel: &[u8]) -> (r: Result<Meta, u64>)
        requires
            old(self).ready(),
        ensures
            final(self).ready(),
    ;

    fn make_dir(&mut self, rel: &[u8]) -> (r: Result<(), u64>)
        requires
            old(self).ready(),
        ensures
            final(self).ready(),
    ;

    fn unlink(&mut self, rel: &[u8]) -> (r: Result<(), u64>)
        requires
            old(self).ready(),
        ensures
            final(self).ready(),
    ;
}

/// A handle of either file system.
#[derive(Clone, Copy)]
pub enum AnyHandle {
    Ram(RamHandle),
    Fat(FileInfo),
}

/// What a mounted file system is.
#[derive(Clone, Copy, PartialEq, Eq, Debug, Structural)]
pub enum FsType {
    Vfat,
    Ramfs,
}

/// A mounted file system. A volume is inactive, `None`, where its disk could
/// not be had.
pub enum MountedFs<B: BlockSource> {
    Fat(Option<Fat32<B>>),
    Local(RamFs),
}

/// The file system that comes of mounting a disk.
pub open spec fn mounted_from<B: BlockSource>(disk: B, fs: MountedFs<B>) -> bool {
    match fs {
        MountedFs::Fat(Some(f)) => {
            &&& f.img() == disk.image()
            &&& f.faults() == disk.faults()
            &&& f.wf()
            &&& mount::boot_geometry(disk.image()[0]) == Some(f.geometry())
            &&& f.identity() == (
                f.geometry(),
                mount::boot_serial(disk.image()[0]),
                mount::boot_label(disk.image()[0]),
            )
        },
        MountedFs::Fat(None) => true,
        MountedFs::Local(_) => false,
    }
}

/// A new file system in memory.
pub open spec fn empty_memory<B: BlockSource>(fs: MountedFs<B>) -> bool {
    fs matches MountedFs::Local(r) && r@ == Map::<Seq<u8>, ramfs::NodeView>::empty()
}

impl<B: BlockSource> MountedFs<B> {
    pub open spec fn active(&self) -> bool {
        match *self {
            MountedFs::Fat(f) => f is Some,
            MountedFs::Local(_) => true,
        }
    }

    /// The file system is in order.
    pub open spec fn fs_ready(&self) -> bool {
        match *self {
            MountedFs::Fat(Some(f)) => f.wf(),
            MountedFs::Fat(None) => true,
            MountedFs::Local(r) => r.wf(),
        }
    }

    pub fn is_active(&self) -> (r: bool)
        ensures
            r == self.active(),
    {
        match self {
            MountedFs::Fat(f) => f.is_some(),
            MountedFs::Local(_) => true,
        }
    }
}

/// The same volume, with what its device went through meanwhile.
pub open spec fn same_device<B: BlockSource>(a: Fat32<B>, b: Fat32<B>) -> bool {
    b.wf() && b.same_volume(&a) && b.faults() >= a.faults()
}

/// A file system after a file was opened on it, and the handle.
pub open spec fn opened_on<B: BlockSource>(
    before: MountedFs<B>,
    after: MountedFs<B>,
    rel: Seq<u8>,
    flags: u32,
    r: Result<AnyHandle, u64>,
) -> bool {
    match (before, after) {
        (MountedFs::Local(a), MountedFs::Local(b)) => {
            let (t, h) = ramfs::ram_opened(a@, rel, flags);
            &&& b.wf()
            &&& b@ == t
            &&& match r {
                Ok(AnyHandle::Ram(x)) => h matches Ok(k) && x@ == ramfs::handle_path(k),
                Ok(_) => false,
                Err(e) => h == Err::<Seq<u8>, u64>(e),
            }
        },
        (MountedFs::Fat(Some(a)), MountedFs::Fat(Some(b))) => {
            let (img, h) = local::fat_opened(a.img(), a.geometry(), rel, flags);
            &&& same_device(a, b)
            &&& !(r matches Ok(AnyHandle::Ram(_)))
            &&& b.faults() == a.faults() ==> b.img() == img && match r {
                Ok(AnyHandle::Fat(i)) => h == Ok::<FileInfo, u64>(i),
                Ok(_) => false,
                Err(e) => h == Err::<FileInfo, u64>(e),
            }
            &&& local::open_outcome(
                a.img(),
                a.geometry(),
                rel,
                flags,
                match r {
                    Ok(AnyHandle::Fat(i)) => Ok(i),
                    Ok(_) => Err(ERR),
                    Err(e) => Err(e),
                },
                b.img(),
            )
        },
        (MountedFs::Fat(None), MountedFs::Fat(None)) => r == Err::<AnyHandle, u64>(ERR),
        _ => false,
    }
}

/// A file system after a read from a file on it, and what was read.
pub open spec fn read_on<B: BlockSource>(
    before: MountedFs<B>,
    after: MountedFs<B>,
    h: AnyHandle,
    off: int,
    count: int,
    r: Result<Seq<u8>, u64>,
) -> bool {
    match (before, after) {
        (MountedFs::Local(a), MountedFs::Local(b)) => {
            &&& b.wf()
            &&& b@ == a@
            &&& r == ram_read(a@, h, off, count)
        },
        (MountedFs::Fat(Some(a)), MountedFs::Fat(Some(b))) => {
            &&& same_device(a, b)
            &&& b.img() == a.img()
            &&& match h {
                AnyHandle::Fat(i) => if i.is_dir {
                    r == Err::<Seq<u8>, u64>(ERR_ISDIR)
                } else {
                    r matches Ok(d) && ({
                        &&& d.len() > 0 ==> off + d.len() <= i.size
                        &&& b.faults() == a.faults() ==> d.len() == file::read_len(
                            a.img(),
                            a.geometry(),
                            i,
                            off,
                            count,
                        )
                        &&& b.faults() > a.faults() ==> d.len() < count
                        &&& forall|k: int|
                            0 <= k < d.len() ==> #[trigger] d[k] == file::file_byte(
                                a.img(),
                                a.geometry(),
                                i.first_cluster,
                                off + k,
                            )
                    })
                },
                AnyHandle::Ram(_) => r == Err::<Seq<u8>, u64>(ERR_INVALID),
            }
        },
        (MountedFs::Fat(None), MountedFs::Fat(None)) => r == Err::<Seq<u8>, u64>(ERR),
        _ => false,
    }
}

/// What a read from a file in memory gives.
pub open spec fn ram_read(t: ramfs::Tree, h: AnyHandle, off: int, count: int) -> Result<
    Seq<u8>,
    u64,
> {
    match h {
        AnyHandle::Ram(x) => match ramfs::looked_up(t, x@) {
            Some(ramfs::NodeView::File(d, _)) => Ok(ramfs::read_part(d, off, count)),
            Some(ramfs::NodeView::Dir(_)) => Err(ERR_ISDIR),
            None => Err(ERR_NOTFOUND),
        },
        AnyHandle::Fat(_) => Err(ERR_INVALID),
    }
}

/// A file system after a write to a file on it, and how much was written.
pub open spec fn wrote_on<B: BlockSource>(
    before: MountedFs<B>,
    after: MountedFs<B>,
    h: AnyHandle,
    off: int,
    buf: Seq<u8>,
    append: bool,
    r: Result<usize, u64>,
) -> bool {
    match (before, after) {
        (MountedFs::Local(a), MountedFs::Local(b)) => {
            &&& b.wf()
            &&& match h {
                AnyHandle::Ram(x) => (b@, r) == ramfs::ram_wrote(a@, x@, off, buf, append),
                AnyHandle::Fat(_) => b@ == a@ && r == Err::<usize, u64>(ERR_INVALID),
            }
        },
        (MountedFs::Fat(Some(a)), MountedFs::Fat(Some(b))) => {
            &&& same_device(a, b)
            &&& match h {
                AnyHandle::Fat(i) => if i.is_dir {
                    r == Err::<usize, u64>(ERR_ISDIR) && b.img() == a.img()
                } else {
                    r matches Ok(n) && n <= buf.len() && (b.faults() == a.faults() ==> (
                    b.img(),
                    n as int,
                    ) == file::grown(
                        a.img(),
                        a.geometry(),
                        i,
                        if append {
                            i.size as int
                        } else {
                            off
                        },
                        buf,
                    )) && faults::grow_outcome(
                        a.img(),
                        a.geometry(),
                        i,
                        if append {
                            i.size as int
                        } else {
                            off
                        },
                        buf,
                        n as int,
                        b.img(),
                    )
                },
                AnyHandle::Ram(_) => r == Err::<usize, u64>(ERR_INVALID) && b.img() == a.img(),
            }
        },
        (MountedFs::Fat(None), MountedFs::Fat(None)) => r == Err::<usize, u64>(ERR),
        _ => false,
    }
}

/// A file system after a directory on it was listed: the names, or the error.
pub open spec fn listed_on<B: BlockSource>(
    before: MountedFs<B>,
    after: MountedFs<B>,
    rel: Seq<u8>,
    names: Seq<Seq<u8>>,
    r: Result<usize, u64>,
) -> bool {
    match (before, after) {
        (MountedFs::Local(a), MountedFs::Local(b)) => {
            &&& b.wf()
            &&& b@ == a@
            &&& match ramfs::dir_at(a@, rel) {
                Some(d) => ramfs::lists(names, a@, d) && r == Ok::<usize, u64>(
                    names.len() as usize,
                ),
                None => r == Err::<usize, u64>(ERR_NOTFOUND),
            }
        },
        (MountedFs::Fat(Some(a)), MountedFs::Fat(Some(b))) => {
            &&& same_device(a, b)
            &&& b.img() == a.img()
            &&& b.faults() == a.faults() ==> names == local::entry_names(
                dir::listed(a.img(), a.geometry(), rel),
            ) && r == Ok::<usize, u64>(names.len() as usize)
            &&& b.faults() > a.faults() ==> names.len() == 0 && r == Ok::<usize, u64>(0)
        },
        (MountedFs::Fat(None), MountedFs::Fat(None)) => r == Err::<usize, u64>(ERR),
        _ => false,
    }
}

/// A file system after a question about a path on it, and the answer.
pub open spec fn asked_on<B: BlockSource>(
    before: MountedFs<B>,
    after: MountedFs<B>,
    rel: Seq<u8>,
    r: Result<Meta, u64>,
) -> bool {
    match (before, after) {
        (MountedFs::Local(a), MountedFs::Local(b)) => b.wf() && b@ == a@ && r == ramfs::ram_meta(
            a@,
            rel,
        ),
        (MountedFs::Fat(Some(a)), MountedFs::Fat(Some(b))) => {
            &&& same_device(a, b)
            &&& b.img() == a.img()
            &&& b.faults() == a.faults() ==> r == local::fat_meta(a.img(), a.geometry(), rel)
            &&& b.faults() > a.faults() ==> r == Err::<Meta, u64>(ERR_NOTFOUND)
        },
        (MountedFs::Fat(None), MountedFs::Fat(None)) => r == Err::<Meta, u64>(ERR),
        _ => false,
    }
}

/// A file system after a directory was made on it: volumes have no such thing.
pub open spec fn made_dir_on<B: BlockSource>(
    before: MountedFs<B>,
    after: MountedFs<B>,
    rel: Seq<u8>,
    r: Result<(), u64>,
) -> bool {
    match (before, after) {
        (MountedFs::Local(a), MountedFs::Local(b)) => b.wf() && (b@, r) == ramfs::ram_made_dir(
            a@,
            rel,
        ),
        (MountedFs::Fat(Some(a)), MountedFs::Fat(Some(b))) => b == a && r == Err::<(), u64>(
            ERR_READONLY,
        ),
        (MountedFs::Fat(None), MountedFs::Fat(None)) => r == Err::<(), u64>(ERR),
        _ => false,
    }
}

/// A file system after a path was removed: volumes have no such thing.
pub open spec fn removed_on<B: BlockSource>(
    before: MountedFs<B>,
    after: MountedFs<B>,
    rel: Seq<u8>,
    r: Result<(), u64>,
) -> bool {
    match (before, after) {
        (MountedFs::Local(a), MountedFs::Local(b)) => b.wf() && (match ramfs::without_node(a@, rel) {
            Some(t) => r == Ok::<(), u64>(()) && b@ == t,
            None => r == Err::<(), u64>(ERR_NOTFOUND) && b@ == a@,
        }),
        (MountedFs::Fat(Some(a)), MountedFs::Fat(Some(b))) => b == a && r == Err::<(), u64>(
            ERR_READONLY,
        ),
        (MountedFs::Fat(None), MountedFs::Fat(None)) => r == Err::<(), u64>(ERR),
        _ => false,
    }
}

/// A file system whose handles are all of one type, whichever it is.
pub trait LocalFsDyn {
    /// The file system is in order.
    spec fn dyn_ready(&self) -> bool;

    fn open_dyn(&mut self, rel: &[u8], flags: u32) -> (r: Result<AnyHandle, u64>)
        requires
            old(self).dyn_ready(),
        ensures
            final(self).dyn_ready(),
    ;

    fn read_dyn(&mut self, h: AnyHandle, off: usize, buf: &mut [u8]) -> (r: Result<usize, u64>)
        requires
            old(self).dyn_ready(),
        ensures
            final(self).dyn_ready(),
            final(buf)@.len() == old(buf)@.len(),
            r matches Ok(n) ==> n <= old(buf)@.len() && off + n <= usize::MAX,
    ;

    fn write_dyn(&mut self, h: AnyHandle, off: usize, buf: &[u8], append: bool) -> (r: Result<
        usize,
        u64,
    >)
        requires
            old(self).dyn_ready(),
            write_fits(off, buf@.len() as int, append),
        ensures
            final(self).dyn_ready(),
            r matches Ok(n) ==> n <= buf@.len(),
    ;

    fn readdir_dyn(&mut self, rel: &[u8], out: &mut Names) -> (r: Result<usize, u64>)
        requires
            old(self).dyn_ready(),
            old(out).taken().len() == 0,
        ensures
            final(self).dyn_ready(),
    ;

    fn stat_dyn(&mut self, rel: &[u8]) -> (r: Result<Meta, u64>)
        requires
            old(self).dyn_ready(),
        ensures
            final(self).dyn_ready(),
    ;

    fn mkdir_dyn(&mut self, rel: &[u8]) -> (r: Result<(), u64>)
        requires
            old(self).dyn_ready(),
        ensures
            final(self).dyn_ready(),
    ;

    fn remove_dyn(&mut self, rel: &[u8]) -> (r: Result<(), u64>)
        requires
            old(self).dyn_ready(),
        ensures
            final(self).dyn_ready(),
    ;
}

/// What a read gave: the first bytes of the buffer, or the error.
pub open spec fn bytes_read(r: Result<usize, u64>, buf: Seq<u8>) -> Result<Seq<u8>, u64> {
    match r {
        Ok(n) => Ok(buf.take(n as int)),
        Err(e) => Err(e),
    }
}

impl<B: BlockSource> LocalFsDyn for MountedFs<B> {
    open spec fn dyn_ready(&self) -> bool {
        self.fs_ready()
    }

    fn open_dyn(&mut self, rel: &[u8], flags: u32) -> (r: Result<AnyHandle, u64>)
        ensures
            opened_on(*old(self), *final(self), rel@, flags, r),
    {
        match self {
            MountedFs::Local(f) => match f.open(rel, flags) {
                Ok(h) => Ok(AnyHandle::Ram(h)),
                Err(e) => Err(e),
            },
            MountedFs::Fat(Some(f)) => match f.open(rel, flags) {
                Ok(h) => Ok(AnyHandle::Fat(h)),
                Err(e) => Err(e),
            },
            MountedFs::Fat(None) => Err(ERR),
        }
    }

    fn read_dyn(&mut self, h: AnyHandle, off: usize, buf: &mut [u8]) -> (r: Result<usize, u64>)
        ensures
            read_on(
                *old(self),
                *final(self),
                h,
                off as int,
                old(buf)@.len() as int,
                bytes_read(r, final(buf)@),
            ),
    {
        match self {
            MountedFs::Local(f) => match h {
                AnyHandle::Ram(x) => {
                    let ghost t = f@;
                    let total: usize = buf.len();
                    let ghost cap = total as int;
                    let r = f.read(x, off, buf);
                    proof {
                        match r {
                            Ok(n) => {
                                let d = ramfs::looked_up(t, x@)->0->File_0;
                                let part = ramfs::read_part(d, off as int, cap);
                                assert(part.len() <= cap);
                                assert(buf@.take(n as int) =~= ramfs::read_part(d, off as int, cap));
                            },
                            Err(_) => {},
                        }
                    }
                    r
                },
                AnyHandle::Fat(_) => Err(ERR_INVALID),
            },
            MountedFs::Fat(Some(f)) => match h {
                AnyHandle::Fat(x) => f.read(x, off, buf),
                AnyHandle::Ram(_) => Err(ERR_INVALID),
            },
            MountedFs::Fat(None) => Err(ERR),
        }
    }

    fn write_dyn(&mut self, h: AnyHandle, off: usize, buf: &[u8], append: bool) -> (r: Result<
        usize,
        u64,
    >)
        ensures
            wrote_on(*old(self), *final(self), h, off as int, buf@, append, r),
    {
        match self {
            MountedFs::Local(f) => match h {
                AnyHandle::Ram(x) => f.write(x, off, buf, append),
                AnyHandle::Fat(_) => Err(ERR_INVALID),
            },
            MountedFs::Fat(Some(f)) => match h {
                AnyHandle::Fat(x) => f.write(x, off, buf, append),
                AnyHandle::Ram(_) => Err(ERR_INVALID),
            },
            MountedFs::Fat(None) => Err(ERR),
        }
    }

    fn readdir_dyn(&mut self, rel: &[u8], out: &mut Names) -> (r: Result<usize, u64>)
        ensures
            listed_on(*old(self), *final(self), rel@, final(out).taken(), r),
    {
        proof {
            assert forall|n: Seq<Seq<u8>>| #[trigger] (old(out).taken() + n) == n by {
                assert(old(out).taken() + n =~= n);
            }
        }
        match self {
            MountedFs::Local(f) => f.list(rel, out),
            MountedFs::Fat(Some(f)) => f.list(rel, out),
            MountedFs::Fat(None) => Err(ERR),
        }
    }

    fn stat_dyn(&mut self, rel: &[u8]) -> (r: Result<Meta, u64>)
        ensures
            asked_on(*old(self), *final(self), rel@, r),
    {
        match self {
            MountedFs::Local(f) => f.stat(rel),
            MountedFs::Fat(Some(f)) => f.stat(rel),
            MountedFs::Fat(None) => Err(ERR),
        }
    }

    fn mkdir_dyn(&mut self, rel: &[u8]) -> (r: Result<(), u64>)
        ensures
            made_dir_on(*old(self), *final(self), rel@, r),
    {
        match self {
            MountedFs::Local(f) => f.make_dir(rel),
            MountedFs::Fat(Some(f)) => f.make_dir(rel),
            MountedFs::Fat(None) => Err(ERR),
        }
    }

    fn remove_dyn(&mut self, rel: &[u8]) -> (r: Result<(), u64>)
        ensures
            removed_on(*old(self), *final(self), rel@, r),
    {
        match self {
            MountedFs::Local(f) => f.unlink(rel),
            MountedFs::Fat(Some(f)) => f.unlink(rel),
            MountedFs::Fat(None) => Err(ERR),
        }
    }
}

} // verus!
