//! A volume as a local file system.
use vstd::prelude::*;

use super::create;
use super::dir;
use super::dir::strip_slashes;
use super::faults;
use super::file;
use super::types;
use super::types::{DirEntry, Fat32, FileInfo, Geometry};
use crate::fs::block::{BlockSource, Image};
use crate::fs::codes::{ERR, ERR_ISDIR, ERR_NOTFOUND, ERR_READONLY, O_CREAT, O_TRUNC};
use crate::fs::provider::{EntrySink, LocalFs, Meta};
use crate::fs::ramfs;

verus! {

/// Opening what is there: the image, and the file or the error.
pub open spec fn opened_existing(img: Image, g: Geometry, path: Seq<u8>, flags: u32) -> (
    Image,
    Result<FileInfo, u64>,
) {
    match dir::found(img, g, path) {
        None => (img, Err(ERR_NOTFOUND)),
        Some(info) => if info.is_dir {
            (img, Err(ERR_ISDIR))
        } else if ramfs::flag_set(flags, O_TRUNC) {
            match create::truncated(img, g, info) {
                (img1, true) => (
                    img1,
                    match dir::found(img1, g, path) {
                        Some(fresh) => Ok(fresh),
                        None => Err(ERR_NOTFOUND),
                    },
                ),
                (img1, false) => (img1, Err(ERR)),
            }
        } else {
            (img, Ok(info))
        },
    }
}

/// Opening a file: the image, and the file or the error.
pub open spec fn fat_opened(img: Image, g: Geometry, rel: Seq<u8>, flags: u32) -> (
    Image,
    Result<FileInfo, u64>,
) {
    let path = dir::stripped(rel);
    if path.len() == 0 {
        (img, Err(ERR_NOTFOUND))
    } else if ramfs::flag_set(flags, O_CREAT) && dir::found(img, g, path) is None {
        match create::created(img, g, path) {
            (img1, true) => opened_existing(img1, g, path, flags),
            (img1, false) => (img1, Err(ERR_NOTFOUND)),
        }
    } else {
        opened_existing(img, g, path, flags)
    }
}

/// What opening what is there comes to, where transfers may fail.
pub open spec fn existing_outcome(
    img: Image,
    g: Geometry,
    path: Seq<u8>,
    flags: u32,
    r: Result<FileInfo, u64>,
    img2: Image,
) -> bool {
    ||| r == Err::<FileInfo, u64>(ERR_NOTFOUND) && img2 == img
    ||| dir::found(img, g, path) matches Some(info) && if info.is_dir {
        r == Err::<FileInfo, u64>(ERR_ISDIR) && img2 == img
    } else if !ramfs::flag_set(flags, O_TRUNC) {
        r == Ok::<FileInfo, u64>(info) && img2 == img
    } else {
        match r {
            Ok(fresh) => faults::truncate_outcome(img, g, info, true, img2) && dir::found(
                img2,
                g,
                path,
            ) == Some(fresh),
            Err(e) => if e == ERR_NOTFOUND {
                faults::truncate_outcome(img, g, info, true, img2)
            } else {
                e == ERR && faults::truncate_outcome(img, g, info, false, img2)
            },
        }
    }
}

/// What opening a file comes to, where transfers may fail.
pub open spec fn open_outcome(
    img: Image,
    g: Geometry,
    rel: Seq<u8>,
    flags: u32,
    r: Result<FileInfo, u64>,
    img2: Image,
) -> bool {
    let path = dir::stripped(rel);
    ||| existing_outcome(img, g, path, flags, r, img2)
    ||| path.len() > 0 && ramfs::flag_set(flags, O_CREAT) && exists|made: bool, mid: Image|
        #[trigger]
        faults::create_outcome(img, g, path, made, mid) && if made {
            existing_outcome(mid, g, path, flags, r, img2)
        } else {
            r == Err::<FileInfo, u64>(ERR_NOTFOUND) && img2 == mid
        }
}

/// What is known of a path.
pub open spec fn fat_meta(img: Image, g: Geometry, rel: Seq<u8>) -> Result<Meta, u64> {
    match dir::found(img, g, rel) {
        Some(info) => Ok(
            Meta {
                size: info.size as u64,
                kind: if info.is_dir {
                    1
                } else {
                    0
                },
                readonly: false,
                mtime: 0,
            },
        ),
        None => Err(ERR_NOTFOUND),
    }
}

pub open spec fn entry_names(es: Seq<types::EntryView>) -> Seq<Seq<u8>> {
    Seq::new(es.len(), |i: int| es[i].name)
}

impl<B: BlockSource> Fat32<B> {
    fn open_existing(&mut self, path: &[u8], flags: u32) -> (r: Result<FileInfo, u64>)
        requires
            old(self).wf(),
        ensures
            final(self).same_volume(old(self)),
            final(self).faults() >= old(self).faults(),
            final(self).faults() == old(self).faults() ==> (final(self).img(), r)
                == opened_existing(old(self).img(), old(self).geometry(), path@, flags),
            existing_outcome(
                old(self).img(),
                old(self).geometry(),
                path@,
                flags,
                r,
                final(self).img(),
            ),
    {
        let info: FileInfo = match self.find(path) {
            Some(i) => i,
            None => {
                return Err(ERR_NOTFOUND);
            },
        };
        if info.is_dir {
            return Err(ERR_ISDIR);
        }
        if flags & O_TRUNC != 0 {
            if !self.truncate(&info) {
                return Err(ERR);
            }
            return match self.find(path) {
                Some(fresh) => Ok(fresh),
                None => Err(ERR_NOTFOUND),
            };
        }
        Ok(info)
    }
}

impl<B: BlockSource> LocalFs for Fat32<B> {
    type Handle = FileInfo;

    open spec fn ready(&self) -> bool {
        self.wf()
    }

    fn open(&mut self, rel: &[u8], flags: u32) -> (r: Result<FileInfo, u64>)
        ensures
            final(self).same_volume(old(self)),
            final(self).faults() >= old(self).faults(),
            final(self).faults() == old(self).faults() ==> (final(self).img(), r) == fat_opened(
                old(self).img(),
                old(self).geometry(),
                rel@,
                flags,
            ),
            open_outcome(
                old(self).img(),
                old(self).geometry(),
                rel@,
                flags,
                r,
                final(self).img(),
            ),
    {
        let ghost img = self.img();
        let path: &[u8] = strip_slashes(rel);
        if path.len() == 0 {
            return Err(ERR_NOTFOUND);
        }
        if flags & O_CREAT != 0 && self.find(path).is_none() {
            let made: bool = self.create_file(path);
            assert(faults::create_outcome(img, self.geo, path@, made, self.img()));
            if !made {
                return Err(ERR_NOTFOUND);
            }
        }
        self.open_existing(path, flags)
    }

    fn read(&mut self, h: FileInfo, off: usize, buf: &mut [u8]) -> (r: Result<usize, u64>)
        ensures
            final(self).same_volume(old(self)),
            final(self).img() == old(self).img(),
            final(self).faults() >= old(self).faults(),
            h.is_dir ==> r == Err::<usize, u64>(ERR_ISDIR),
            !h.is_dir ==> r is Ok,
            r matches Ok(n) ==> {
                &&& n > 0 ==> off + n <= h.size
                &&& final(self).faults() == old(self).faults() ==> n == file::read_len(
                    old(self).img(),
                    old(self).geometry(),
                    h,
                    off as int,
                    old(buf)@.len() as int,
                )
                &&& final(self).faults() > old(self).faults() ==> n < old(buf)@.len()
                &&& forall|i: int|
                    0 <= i < n ==> #[trigger] final(buf)@[i] == file::file_byte(
                        old(self).img(),
                        old(self).geometry(),
                        h.first_cluster,
                        off + i,
                    )
            },
    {
        if h.is_dir {
            return Err(ERR_ISDIR);
        }
        let n: usize = buf.len();
        Ok(self.read_file(&h, off, n, buf))
    }

    fn write(&mut self, h: FileInfo, off: usize, buf: &[u8], append: bool) -> (r: Result<
        usize,
        u64,
    >)
        ensures
            final(self).same_volume(old(self)),
            final(self).faults() >= old(self).faults(),
            h.is_dir ==> r == Err::<usize, u64>(ERR_ISDIR) && final(self).img() == old(self).img(),
            !h.is_dir ==> r is Ok,
            r matches Ok(n) ==> (final(self).faults() == old(self).faults() ==> (
            final(self).img(),
            n as int,
            ) == file::grown(
                old(self).img(),
                old(self).geometry(),
                h,
                if append {
                    h.size as int
                } else {
                    off as int
                },
                buf@,
            )),
            r matches Ok(n) ==> faults::grow_outcome(
                old(self).img(),
                old(self).geometry(),
                h,
                if append {
                    h.size as int
                } else {
                    off as int
                },
                buf@,
                n as int,
                final(self).img(),
            ),
    {
        if h.is_dir {
            return Err(ERR_ISDIR);
        }
        let at: u64 = if append {
            h.size as u64
        } else {
            off as u64
        };
        Ok(self.write_grow(&h, at, buf))
    }

    fn close(&mut self, h: FileInfo)
        ensures
            *final(self) == *old(self),
    {
    }

    fn list<S: EntrySink>(&mut self, rel: &[u8], out: &mut S) -> (r: Result<usize, u64>)
        ensures
            final(self).same_volume(old(self)),
            final(self).img() == old(self).img(),
            final(self).faults() >= old(self).faults(),
            final(self).faults() == old(self).faults() ==> ({
                let names = entry_names(
                    dir::listed(old(self).img(), old(self).geometry(), rel@),
                );
                r == Ok::<usize, u64>(names.len() as usize) && final(out).taken() == old(
                    out,
                ).taken() + names
            }),
            final(self).faults() > old(self).faults() ==> r == Ok::<usize, u64>(0)
                && final(out).taken() == old(out).taken(),
    {
        let entries: Vec<DirEntry> = self.list_dir(rel);
        let ghost names = entry_names(types::entry_views(entries@));
        let mut i: usize = 0;
        assert(old(out).taken() + names.take(0) =~= old(out).taken());
        while i < entries.len()
            invariant
                i <= entries.len(),
                names == entry_names(types::entry_views(entries@)),
                self.wf(),
                self.same_volume(old(self)),
                self.img() == old(self).img(),
                self.faults() >= old(self).faults(),
                self.faults() > old(self).faults() ==> entries@.len() == 0,
                self.faults() == old(self).faults() ==> types::entry_views(entries@) == dir::listed(
                    old(self).img(),
                    old(self).geometry(),
                    rel@,
                ),
                out.taken() == old(out).taken() + names.take(i as int),
            decreases entries.len() - i,
        {
            out.emit(&entries[i].name);
            assert(names[i as int] == entries@[i as int].name@);
            assert(names.take(i + 1) =~= names.take(i as int).push(names[i as int]));
            i += 1;
            assert(out.taken() =~= old(out).taken() + names.take(i as int));
        }
        assert(names.len() == entries@.len());
        assert(names.take(i as int) =~= names);
        assert(names.len() == 0 ==> old(out).taken() + names =~= old(out).taken());
        Ok(entries.len())
    }

    fn stat(&mut self, rel: &[u8]) -> (r: Result<Meta, u64>)
        ensures
            final(self).same_volume(old(self)),
            final(self).img() == old(self).img(),
            final(self).faults() >= old(self).faults(),
            final(self).faults() == old(self).faults() ==> r == fat_meta(
                old(self).img(),
                old(self).geometry(),
                rel@,
            ),
            final(self).faults() > old(self).faults() ==> r == Err::<Meta, u64>(ERR_NOTFOUND),
    {
        match self.find(rel) {
            Some(info) => Ok(
                Meta {
                    size: info.size as u64,
                    kind: if info.is_dir {
                        1
                    } else {
                        0
                    },
                    readonly: false,
                    mtime: 0,
                },
            ),
            None => Err(ERR_NOTFOUND),
        }
    }

    fn make_dir(&mut self, rel: &[u8]) -> (r: Result<(), u64>)
        ensures
            r == Err::<(), u64>(ERR_READONLY),
            *final(self) == *old(self),
    {
        Err(ERR_READONLY)
    }

    fn unlink(&mut self, rel: &[u8]) -> (r: Result<(), u64>)
        ensures
            r == Err::<(), u64>(ERR_READONLY),
            *final(self) == *old(self),
    {
        Err(ERR_READONLY)
    }
}

} // verus!
