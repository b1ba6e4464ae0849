//! The requests that the driver serves: sectors and names for the file system
//! server, and reads of whole disks and partitions, from front to back.
use std::collections::BTreeMap;
use vstd::prelude::*;

use super::cache;
use super::cache::Cache;
use super::nodes;
use super::nodes::{
    add_nodes, locate, node_read, node_read_multi, node_write_multi, resolve_node, Node, PartLoc,
    DISK_MAX_SECTORS,
};
use super::part;
use super::rings;
use super::rings::{
    disk_req_read_count, disk_req_read_multi, disk_req_read_name, disk_resp_write,
};
use crate::bytes;
use crate::bytes::append_bytes;
use crate::fs::block;
use crate::fs::block::{BlockSource, Image};
use crate::fs::codes::ERR;
use crate::ring;
use crate::ring::Ring;

verus! {

broadcast use vstd::std_specs::btree::group_btree_axioms;

/// The state of the driver.
pub struct DiskServer<D: BlockSource> {
    pub disks: Vec<D>,
    pub disk_sectors: Vec<u64>,
    pub parts: Vec<Vec<PartLoc>>,
    pub nodes: Vec<Node>,
    pub cache: Cache,
    /// Descriptors: the handle of the node, and the position.
    pub fds: BTreeMap<u32, (u32, u64)>,
    pub next_fd: u32,
}

/// The nodes of disks, disk by disk.
pub open spec fn all_nodes(imgs: Seq<Image>) -> Seq<nodes::NodeView>
    decreases imgs.len(),
{
    if imgs.len() == 0 {
        Seq::empty()
    } else {
        all_nodes(imgs.drop_last()) + nodes::disk_nodes(imgs.len() - 1, imgs.last())
    }
}

/// Where partitions lie, disk by disk.
pub open spec fn locs_of(parts: Seq<Vec<PartLoc>>) -> Seq<Seq<PartLoc>> {
    Seq::new(parts.len(), |i: int| parts[i]@)
}

/// Where the partitions of disks lie, disk by disk.
pub open spec fn all_locs(imgs: Seq<Image>) -> Seq<Seq<PartLoc>> {
    Seq::new(imgs.len(), |i: int| nodes::part_locs(part::partitions(imgs[i][0])))
}

/// The nodes of disks as they were found, disk by disk.
pub open spec fn all_found(
    imgs: Seq<Image>,
    locs: Seq<Seq<PartLoc>>,
    all: Seq<nodes::NodeView>,
) -> bool
    decreases imgs.len(),
{
    if imgs.len() == 0 {
        all.len() == 0
    } else {
        let n = all.len() - locs.last().len() - 1;
        &&& n >= 0
        &&& nodes::disk_found(imgs.len() - 1, imgs.last(), all.skip(n), locs.last())
        &&& all_found(imgs.drop_last(), locs.drop_last(), all.take(n))
    }
}

/// Sectors were read and went into a response.
pub open spec fn run_sent(img: Image, phys: int, n: nat, before: Ring, after: Ring) -> bool {
    exists|data: Seq<u8>|
        data.len() == n * 512 && #[trigger] nodes::run_read(img, phys, n as int, data)
            && ring::writer_moved(
            before,
            after,
            ring::response((n * 512) as u64, 0, data),
        ) && (before.fits((16 + n * 512) as int) ==> after@ == before@ + ring::response(
            (n * 512) as u64,
            0,
            data,
        ))
}

/// No disk was asked, and the cache is as it was.
pub open spec fn unasked<D: BlockSource>(a: DiskServer<D>, b: DiskServer<D>) -> bool {
    b.disks@ == a.disks@ && b.cache.state() == a.cache.state()
}

/// The cache once `m` sectors in a row were read one by one.
pub open spec fn each_cached(
    c: cache::CacheView,
    img: Image,
    d: u32,
    at: int,
    m: nat,
) -> cache::CacheView
    decreases m,
{
    if m == 0 {
        c
    } else {
        nodes::read_cached(
            each_cached(c, img, d, at, (m - 1) as nat),
            img,
            d,
            at + m - 1,
        )
    }
}

/// No transfer failed in between.
pub open spec fn no_faults<D: BlockSource>(a: Seq<D>, b: Seq<D>) -> bool {
    forall|i: int| 0 <= i < a.len() ==> (#[trigger] b[i]).faults() == a[i].faults()
}

impl<D: BlockSource> DiskServer<D> {
    pub open spec fn wf(&self) -> bool {
        &&& self.parts@.len() == self.disk_sectors@.len()
        &&& self.disk_sectors@.len() <= self.disks@.len()
        &&& self.cache.wf()
        &&& cache::coherent(self.cache@, nodes::images(self.disks@))
        &&& forall|i: int|
            0 <= i < self.disk_sectors@.len() ==> #[trigger] self.disk_sectors@[i]
                <= 0xFFFF_FFFF_FFFF
    }

    /// What the disks hold.
    pub open spec fn held(&self) -> Seq<Image> {
        nodes::images(self.disks@)
    }

    /// Nothing but the cache and the descriptors may have changed.
    pub open spec fn only_read(&self, before: &DiskServer<D>) -> bool {
        &&& self.held() == before.held()
        &&& self.disk_sectors@ == before.disk_sectors@
        &&& self.parts@ == before.parts@
        &&& self.nodes@ == before.nodes@
        &&& self.disks@.len() == before.disks@.len()
    }

    /// Starts the driver: finds the partitions of the disks, and what their
    /// volumes are called.
    pub fn start(disks: Vec<D>, sectors: Vec<u64>) -> (r: DiskServer<D>)
        requires
            disks@.len() == sectors@.len(),
            disks@.len() <= 26,
            forall|i: int| 0 <= i < sectors@.len() ==> #[trigger] sectors@[i] <= 0xFFFF_FFFF_FFFF,
        ensures
            r.wf(),
            r.held() == nodes::images(disks@),
            r.disk_sectors@ == sectors@,
            r.fds@ == Map::<u32, (u32, u64)>::empty(),
            r.next_fd == 1,
            no_faults(disks@, r.disks@) ==> {
                &&& nodes::node_views(r.nodes@) == all_nodes(nodes::images(disks@))
                &&& locs_of(r.parts@) == all_locs(nodes::images(disks@))
            },
            all_found(
                nodes::images(disks@),
                locs_of(r.parts@),
                nodes::node_views(r.nodes@),
            ),
    {
        let ghost d0 = disks@;
        let ghost imgs = nodes::images(disks@);
        let mut disks = disks;
        let mut found: Vec<Node> = Vec::new();
        let mut parts: Vec<Vec<PartLoc>> = Vec::new();
        let mut i: usize = 0;
        assert(imgs.take(0) =~= Seq::empty());
        assert(nodes::node_views(found@) =~= Seq::empty());
        while i < disks.len()
            invariant
                i <= disks@.len(),
                disks@.len() <= 26,
                disks@.len() == d0.len(),
                imgs == nodes::images(d0),
                nodes::images(disks@) == imgs,
                parts@.len() == i,
                forall|k: int| i <= k < d0.len() ==> #[trigger] disks@[k] == d0[k],
                forall|k: int| 0 <= k < i ==> (#[trigger] disks@[k]).faults() >= d0[k].faults(),
                (forall|k: int|
                    0 <= k < i ==> (#[trigger] disks@[k]).faults() == d0[k].faults())
                    ==> nodes::node_views(found@) == all_nodes(imgs.take(i as int)) && locs_of(
                    parts@,
                ) == all_locs(imgs.take(i as int)),
                all_found(imgs.take(i as int), locs_of(parts@), nodes::node_views(found@)),
            decreases disks@.len() - i,
        {
            let ghost before = disks@;
            let ghost n0 = nodes::node_views(found@);
            assert(nodes::images(disks@)[i as int] == disks@[i as int].image());
            let ghost p0 = locs_of(parts@);
            let locs: Vec<PartLoc> = add_nodes(&mut found, &mut disks[i], i);
            let ghost lv = locs@;
            parts.push(locs);
            proof {
                let all = nodes::node_views(found@);
                assert(locs_of(parts@) =~= p0.push(lv));
                assert(p0.push(lv).drop_last() =~= p0);
                assert(p0.push(lv).last() == lv);
                assert(all.len() - lv.len() - 1 == n0.len());
                assert(all.take(n0.len() as int) == n0);
                assert(nodes::images(disks@) =~= imgs);
                assert(imgs.take(i + 1).drop_last() =~= imgs.take(i as int));
                assert(imgs.take(i + 1).last() == imgs[i as int]);
                assert(nodes::disk_found(i as int, imgs[i as int], all.skip(n0.len() as int), lv));
                assert(all_found(imgs.take(i + 1), locs_of(parts@), all));
                assert(before[i as int] == d0[i as int]);
                if forall|k: int|
                    0 <= k < i + 1 ==> (#[trigger] disks@[k]).faults() == d0[k].faults() {
                    assert(disks@[i as int].faults() == d0[i as int].faults());
                    assert forall|k: int| 0 <= k < i implies (#[trigger] before[k]).faults()
                        == d0[k].faults() by {
                        assert(disks@[k] == before[k]);
                    }
                    assert(nodes::node_views(found@) == n0 + nodes::disk_nodes(
                        i as int,
                        imgs[i as int],
                    ));
                    assert(locs_of(parts@) =~= all_locs(imgs.take(i + 1)));
                }
            }
            i += 1;
        }
        assert(imgs.take(i as int) =~= imgs);
        DiskServer {
            disks,
            disk_sectors: sectors,
            parts,
            nodes: found,
            cache: Cache::new(),
            fds: BTreeMap::new(),
            next_fd: 1,
        }
    }

    /// Whether there is a node with a handle.
    pub fn disk_open(&self, handle: u32) -> (r: u64)
        requires
            self.wf(),
        ensures
            r == open_reply(*self, handle),
    {
        if locate(handle, &self.disk_sectors, &self.parts).is_some() {
            0
        } else {
            ERR
        }
    }

    /// Reads sectors of a node; how many, the request tells. They go into the
    /// response.
    pub fn disk_read(&mut self, handle: u32, lba: u64, req: &mut Ring, resp: &mut Ring) -> (r: u64)
        requires
            old(self).wf(),
            old(req).wf(),
            old(resp).wf(),
        ensures
            final(self).wf(),
            final(req).wf(),
            ring::reader_moved(*old(req), *final(req)),
            final(resp).wf(),
            final(self).only_read(old(self)),
            final(self).fds@ == old(self).fds@,
            final(self).next_fd == old(self).next_fd,
            disk_read_done(
                *old(self),
                *final(self),
                handle,
                lba,
                old(req)@,
                final(req)@,
                *old(resp),
                *final(resp),
                r,
            ),
    {
        let n: usize = match disk_req_read_count(req) {
            Some(n) => n,
            None => {
                return ERR;
            },
        };
        let mut buf: Vec<u8> = bytes::repeat_byte(0, n * 512);
        if node_read_multi(
            &mut self.disks,
            &mut self.cache,
            &self.disk_sectors,
            &self.parts,
            handle,
            lba,
            &mut buf,
        ) {
            disk_resp_write(resp, (n * 512) as u64, 0, &buf);
            0
        } else {
            ERR
        }
    }

    /// Writes sectors of a node; the request holds them.
    pub fn disk_write(&mut self, handle: u32, lba: u64, req: &mut Ring) -> (r: u64)
        requires
            old(self).wf(),
            old(req).wf(),
        ensures
            final(self).wf(),
            final(req).wf(),
            ring::reader_moved(*old(req), *final(req)),
            final(req)@ == rings::past_sectors(old(req)@),
            final(self).disk_sectors@ == old(self).disk_sectors@,
            final(self).parts@ == old(self).parts@,
            final(self).nodes@ == old(self).nodes@,
            final(self).fds@ == old(self).fds@,
            final(self).next_fd == old(self).next_fd,
            disk_write_done(*old(self), *final(self), handle, lba, old(req)@, r),
    {
        let data: Vec<u8> = match disk_req_read_multi(req) {
            Some(d) => d,
            None => {
                return ERR;
            },
        };
        if node_write_multi(
            &mut self.disks,
            &mut self.cache,
            &self.disk_sectors,
            &self.parts,
            handle,
            lba,
            &data,
        ) {
            0
        } else {
            ERR
        }
    }

    /// The handle of the node that is asked for by name, serial number or
    /// label.
    pub fn disk_resolve(&self, req: &mut Ring) -> (r: u64)
        requires
            old(req).wf(),
        ensures
            final(req).wf(),
            ring::reader_moved(*old(req), *final(req)),
            final(req)@ == rings::past_name(old(req)@),
            r == resolve_reply(*self, old(req)@),
    {
        match disk_req_read_name(req) {
            Some(key) => match resolve_node(&self.nodes, &key) {
                Some(h) => h as u64,
                None => ERR,
            },
            None => ERR,
        }
    }

    /// Opens a node for reading from front to back.
    pub fn dev_open(&mut self, handle: u32) -> (r: u64)
        requires
            old(self).wf(),
            old(self).next_fd < u32::MAX,
        ensures
            final(self).wf(),
            final(self).only_read(old(self)),
            dev_open_done(*old(self), *final(self), handle, r),
    {
        if locate(handle, &self.disk_sectors, &self.parts).is_none() {
            return ERR;
        }
        let fd: u32 = self.next_fd;
        self.next_fd = fd + 1;
        self.fds.insert(fd, (handle, 0));
        fd as u64
    }

    /// Closes a descriptor.
    pub fn dev_close(&mut self, fd: u32) -> (r: u64)
        requires
            old(self).wf(),
        ensures
            final(self).wf(),
            final(self).only_read(old(self)),
            dev_close_done(*old(self), *final(self), fd, r),
    {
        if self.fds.remove(&fd).is_some() {
            0
        } else {
            ERR
        }
    }

    /// Reads whole sectors from the position of a descriptor on, up to 4096
    /// bytes, and moves it. The data goes to the client; at the end, or where
    /// less than a sector is asked for, there is none.
    #[verifier::rlimit(40)]
    pub fn dev_read(&mut self, fd: u32, count: u64) -> (r: (u64, Option<Vec<u8>>))
        requires
            old(self).wf(),
        ensures
            final(self).wf(),
            final(self).only_read(old(self)),
            final(self).next_fd == old(self).next_fd,
            dev_read_done(*old(self), *final(self), fd, count, r.0, r.1),
    {
        let (handle, pos): (u32, u64) = match self.fds.get(&fd) {
            Some(p) => *p,
            None => {
                return (ERR, None);
            },
        };
        let (d, base, sectors): (usize, u64, u64) = match locate(
            handle,
            &self.disk_sectors,
            &self.parts,
        ) {
            Some(x) => x,
            None => {
                return (ERR, None);
            },
        };
        assert(sectors <= 0xFFFF_FFFF_FFFF);
        let size: u64 = sectors * 512;
        let avail: u64 = if pos < size {
            size - pos
        } else {
            0
        };
        let mut want: u64 = if count < avail {
            count
        } else {
            avail
        };
        if want > 4096 {
            want = 4096;
        }
        let nsec: usize = (want / 512) as usize;
        let first: u64 = pos / 512;
        if nsec == 0 {
            let none: Vec<u8> = Vec::new();
            return (0, Some(none));
        }
        let ghost before = *self;
        let ghost img = self.held()[d as int];
        let ghost start = base + first;
        let mut buf: Vec<u8> = Vec::new();
        let mut s: usize = 0;
        let mut good: bool = true;
        while s < nsec && good
            invariant
                s <= nsec,
                1 <= nsec <= 8,
                self.wf(),
                self.only_read(&before),
                self.fds@ == before.fds@,
                self.next_fd == before.next_fd,
                before.wf(),
                img == before.held()[d as int],
                nodes::located(handle, before.disk_sectors@, before.parts@) == Some(
                    (d as int, base as int, sectors as int),
                ),
                d < before.disks@.len(),
                sectors <= 0xFFFF_FFFF_FFFF,
                base <= 0xFFFF_FFFF,
                first + nsec <= sectors,
                start == base + first,
                buf@.len() == s * 512,
                nodes::run_read(img, start, s as int, buf@),
                !good ==> self.disks@[d as int].faults() > before.disks@[d as int].faults(),
                self.disks@[d as int].faults() >= before.disks@[d as int].faults(),
                !good ==> s < nsec,
                nodes::only_disk(before.disks@, self.disks@, d as int),
                good ==> self.cache.state() == each_cached(
                    before.cache.state(),
                    img,
                    d as u32,
                    start,
                    s as nat,
                ),
                !good ==> self.cache.state() == cache_after(
                    before,
                    d as int,
                    start,
                    s as int,
                    nsec as int,
                ),
            decreases
                    nsec - s + if good {
                        1int
                    } else {
                        0
                    },
        {
            let mut sec: [u8; 512] = [0u8; 512];
            let ghost f1 = self.disks@[d as int].faults();
            if node_read(
                &mut self.disks,
                &mut self.cache,
                &self.disk_sectors,
                &self.parts,
                handle,
                first + s as u64,
                &mut sec,
            ) {
                let ghost b0 = buf@;
                append_bytes(&mut buf, sec.as_slice());
                proof {
                    assert(sec@.len() == 512);
                    assert(img[(start + s) as u64] == sec@);
                    lemma_run_appended(img, start, s as int, b0, sec@);
                    assert(buf@ =~= b0 + sec@);
                }
                s += 1;
            } else {
                good = false;
            }
        }
        if s == 0 {
            assert(sectors_came(*old(self), *self, fd, 0, ERR, None));
            return (ERR, None);
        }
        let n: u64 = (s * 512) as u64;
        self.fds.insert(fd, (handle, pos + n));
        let data: Option<Vec<u8>> = Some(buf);
        assert(sectors_came(*old(self), *self, fd, s as int, n, data));
        (n, data)
    }
}

proof fn lemma_run_appended(img: Image, phys: int, n: int, b: Seq<u8>, sec: Seq<u8>)
    requires
        0 <= phys,
        0 <= n,
        phys + n < u64::MAX,
        b.len() == n * 512,
        sec.len() == 512,
        nodes::run_read(img, phys, n, b),
        img.dom().contains((phys + n) as u64),
        img[(phys + n) as u64] == sec,
    ensures
        nodes::run_read(img, phys, n + 1, b + sec),
{
    let c = b + sec;
    assert forall|i: int| 0 <= i < (n + 1) * 512 implies #[trigger] c[i] == block::byte_at(
        img,
        phys * 512 + i,
    ) by {
        if i >= n * 512 {
            let p = phys * 512 + i;
            assert(p / 512 == phys + n);
            assert(p % 512 == i - n * 512);
        } else {
            assert(c[i] == b[i]);
        }
    }
}

/// What is answered when a node is asked for.
pub open spec fn open_reply<D: BlockSource>(a: DiskServer<D>, handle: u32) -> u64 {
    if nodes::located(handle, a.disk_sectors@, a.parts@) is Some {
        0
    } else {
        ERR
    }
}

/// The sectors of a node that a request is about.
pub open spec fn run_of<D: BlockSource>(a: DiskServer<D>, handle: u32, lba: u64, n: nat) -> Option<
    (int, int),
> {
    nodes::run_at(
        handle,
        lba,
        n as int,
        a.disk_sectors@,
        a.parts@,
        a.disks@.len() as int,
    )
}

/// What a read of sectors does, from the request `s0` to `s1`.
pub open spec fn disk_read_done<D: BlockSource>(
    a: DiskServer<D>,
    b: DiskServer<D>,
    handle: u32,
    lba: u64,
    s0: Seq<u8>,
    s1: Seq<u8>,
    resp0: Ring,
    resp1: Ring,
    r: u64,
) -> bool {
    let n = rings::first_word(s0);
    let at = run_of(a, handle, lba, n);
    &&& s1 == (if s0.len() < 8 {
        s0
    } else {
        s0.skip(8)
    })
    &&& if s0.len() < 8 || !(1 <= n <= DISK_MAX_SECTORS) || at is None {
        r == ERR && ring::untouched(resp0, resp1) && unasked(a, b)
    } else {
        let (d, phys) = at->0;
        let img = a.held()[d];
        &&& nodes::only_disk(a.disks@, b.disks@, d)
        &&& {
            ||| r == 0 && run_sent(img, phys, n, resp0, resp1) && b.cache.state()
                == nodes::multi_cached(a.cache.state(), img, d as u32, phys, n)
            ||| r == ERR && ring::untouched(resp0, resp1) && b.disks@[d].faults()
                > a.disks@[d].faults() && nodes::multi_broken(
                a.cache.state(),
                img,
                d as u32,
                phys,
                n,
                b.cache.state(),
            )
        }
    }
}

/// What a write of the sectors in a request does.
pub open spec fn disk_write_done<D: BlockSource>(
    a: DiskServer<D>,
    b: DiskServer<D>,
    handle: u32,
    lba: u64,
    s: Seq<u8>,
    r: u64,
) -> bool {
    let n = rings::first_word(s);
    let data = s.subrange(8, 8 + 512 * (n as int));
    let at = run_of(a, handle, lba, n);
    if s.len() < 8 || !rings::whole_sectors(s) || at is None {
        r == ERR && unasked(a, b)
    } else {
        let (d, phys) = at->0;
        &&& b.cache.state() == nodes::write_cached(
            a.cache.state(),
            d as u32,
            phys,
            n,
            data,
            r == 0,
        )
        &&& {
            ||| r == 0 && nodes::written_to(a.disks@, b.disks@, d, phys, n, data)
            ||| r == ERR && nodes::write_failed(a.disks@, b.disks@, d, phys, n)
        }
    }
}

/// What is answered when a node is asked for by name, serial number or label.
pub open spec fn resolve_reply<D: BlockSource>(a: DiskServer<D>, s: Seq<u8>) -> u64 {
    let key = s.subrange(8, 8 + rings::first_word(s) as int);
    if s.len() < 8 || !rings::whole_name(s) || !vstd::utf8::valid_utf8(key) {
        ERR
    } else {
        match nodes::resolved(nodes::node_views(a.nodes@), key) {
            Some(h) => h as u64,
            None => ERR,
        }
    }
}

/// What opening a node does.
pub open spec fn dev_open_done<D: BlockSource>(
    a: DiskServer<D>,
    b: DiskServer<D>,
    handle: u32,
    r: u64,
) -> bool {
    &&& unasked(a, b)
    &&& if nodes::located(handle, a.disk_sectors@, a.parts@) is Some {
        &&& r == a.next_fd
        &&& b.next_fd == a.next_fd + 1
        &&& b.fds@ == a.fds@.insert(a.next_fd, (handle, 0))
    } else {
        r == ERR && b.fds@ == a.fds@ && b.next_fd == a.next_fd
    }
}

/// What closing a descriptor does.
pub open spec fn dev_close_done<D: BlockSource>(
    a: DiskServer<D>,
    b: DiskServer<D>,
    fd: u32,
    r: u64,
) -> bool {
    &&& r == (if a.fds@.contains_key(fd) {
        0
    } else {
        ERR
    })
    &&& unasked(a, b)
    &&& b.fds@ == a.fds@.remove(fd)
    &&& b.next_fd == a.next_fd
}

/// How many sectors a read from a position asks for.
pub open spec fn sectors_wanted(pos: int, size: int, count: int) -> int {
    let avail = if pos < size {
        size - pos
    } else {
        0
    };
    let want = if count < avail {
        count
    } else {
        avail
    };
    if want > 4096 {
        8
    } else {
        want / 512
    }
}

/// What a read from a descriptor does: `m` sectors came, fewer than wanted
/// only if a transfer failed.
pub open spec fn dev_read_done<D: BlockSource>(
    a: DiskServer<D>,
    b: DiskServer<D>,
    fd: u32,
    count: u64,
    r: u64,
    data: Option<Vec<u8>>,
) -> bool {
    if !a.fds@.contains_key(fd) || nodes::located(a.fds@[fd].0, a.disk_sectors@, a.parts@) is None {
        r == ERR && data is None && b.fds@ == a.fds@ && unasked(a, b)
    } else {
        let (handle, pos) = a.fds@[fd];
        let (d, base, sectors) = nodes::located(handle, a.disk_sectors@, a.parts@)->0;
        let n = sectors_wanted(pos as int, sectors * 512, count as int);
        if n == 0 {
            &&& r == 0
            &&& b.fds@ == a.fds@
            &&& data matches Some(x) && x@.len() == 0
            &&& unasked(a, b)
        } else {
            &&& nodes::only_disk(a.disks@, b.disks@, d)
            &&& exists|m: int|
                0 <= m <= n && (m < n ==> b.disks@[d].faults() > a.disks@[d].faults())
                    && #[trigger] sectors_came(a, b, fd, m, r, data) && b.cache.state()
                    == cache_after(a, d, base + pos as int / 512, m, n)
        }
    }
}

/// The cache once `m` of `n` sectors in a row came one by one.
pub open spec fn cache_after<D: BlockSource>(
    a: DiskServer<D>,
    d: int,
    at: int,
    m: int,
    n: int,
) -> cache::CacheView {
    let c = each_cached(a.cache.state(), a.held()[d], d as u32, at, m as nat);
    if m < n {
        cache::looked_up(c, d as u32, (at + m) as u64)
    } else {
        c
    }
}

/// `m` sectors came from the position of a descriptor.
pub open spec fn sectors_came<D: BlockSource>(
    a: DiskServer<D>,
    b: DiskServer<D>,
    fd: u32,
    m: int,
    r: u64,
    data: Option<Vec<u8>>,
) -> bool {
    let (handle, pos) = a.fds@[fd];
    let (d, base, sectors) = nodes::located(handle, a.disk_sectors@, a.parts@)->0;
    if m == 0 {
        r == ERR && data is None && b.fds@ == a.fds@
    } else {
        &&& r == m * 512
        &&& data matches Some(x) && x@.len() == m * 512 && nodes::run_read(
            a.held()[d],
            base + pos as int / 512,
            m,
            x@,
        )
        &&& b.fds@ == a.fds@.insert(fd, (handle, (pos + m * 512) as u64))
    }
}

} // verus!
