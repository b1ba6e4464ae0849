//! File contents: reading, overwriting, growing, truncating.
use vstd::prelude::*;
use vstd::slice::slice_subrange;

use super::dir;
use super::dir::index_of_cluster;
use super::fat;
use super::faults;
use super::laws_grow;
use super::types;
use super::types::{Fat32, FileInfo, Geometry};
use crate::bytes;
use crate::bytes::{append_bytes, push_le, repeat_byte};
use crate::fs::block;
use crate::fs::block::{BlockSource, Image};

verus! {

/// How many clusters a chain has from `c` on, counting at most `max`.
pub open spec fn chain_len(img: Image, g: Geometry, c: u32, max: nat) -> nat
    decreases max,
{
    if max == 0 {
        0
    } else {
        1 + match types::next_in(img, g, c) {
            Some(n) => chain_len(img, g, n, (max - 1) as nat),
            None => 0,
        }
    }
}

/// The position of byte `p` of the file that starts at a cluster.
pub open spec fn file_pos(img: Image, g: Geometry, first: u32, p: int) -> int {
    types::cluster_pos(
        g,
        types::nth_in(img, g, first, (p / types::cluster_size(g)) as nat)->0,
    ) + p % types::cluster_size(g)
}

/// Byte `p` of the file that starts at a cluster.
pub open spec fn file_byte(img: Image, g: Geometry, first: u32, p: int) -> u8 {
    block::byte_at(img, file_pos(img, g, first, p))
}

pub open spec fn min(a: int, b: int) -> int {
    if a <= b {
        a
    } else {
        b
    }
}

/// How many bytes a read gives: up to the end of the file, and no further than
/// its chain goes.
pub open spec fn read_len(img: Image, g: Geometry, info: FileInfo, offset: int, count: int) -> int {
    if offset >= info.size || count == 0 {
        0
    } else {
        let n = min(count, info.size - offset);
        let last = (offset + n - 1) / types::cluster_size(g);
        let have = chain_len(img, g, info.first_cluster, (last + 1) as nat)
            * types::cluster_size(g);
        if have <= offset {
            0
        } else {
            min(n, have - offset)
        }
    }
}

/// The image once `d` has been written into a chain, from byte `rel` of
/// cluster `c` on, and how much of it found room.
pub open spec fn poured(img: Image, g: Geometry, c: u32, rel: int, d: Seq<u8>) -> (Image, int)
    decreases d.len(),
{
    if d.len() == 0 || rel < 0 || rel >= types::cluster_size(g) {
        (img, 0)
    } else {
        let n = min(types::cluster_size(g) - rel, d.len() as int);
        let img1 = block::patched(img, types::cluster_pos(g, c) + rel, d.take(n));
        if n == d.len() {
            (img1, n)
        } else {
            match types::next_in(img1, g, c) {
                Some(c1) => {
                    let (img2, m) = poured(img1, g, c1, 0, d.skip(n));
                    (img2, n + m)
                },
                None => (img1, n),
            }
        }
    }
}

/// Writing into a file without growing it: the image, and how many bytes were
/// written.
pub open spec fn overwritten(img: Image, g: Geometry, info: FileInfo, offset: int, data: Seq<u8>) -> (
    Image,
    int,
) {
    if offset >= info.size || data.len() == 0 || info.first_cluster < 2 {
        (img, 0)
    } else {
        match types::nth_in(
            img,
            g,
            info.first_cluster,
            (offset / types::cluster_size(g)) as nat,
        ) {
            Some(c) => poured(
                img,
                g,
                c,
                offset % types::cluster_size(g),
                data.take(min(data.len() as int, info.size - offset)),
            ),
            None => (img, 0),
        }
    }
}

/// Zeroing the bytes from `a` to `b` of a file: the image, and whether the
/// chain reached that far.
pub open spec fn zeroed(img: Image, g: Geometry, first: u32, a: int, b: int) -> (Image, bool) {
    if b <= a || first < 2 {
        (img, true)
    } else {
        match types::nth_in(img, g, first, (a / types::cluster_size(g)) as nat) {
            Some(c) => {
                let (i, n) = poured(
                    img,
                    g,
                    c,
                    a % types::cluster_size(g),
                    bytes::filled(0, (b - a) as nat),
                );
                (i, n == b - a)
            },
            None => (img, false),
        }
    }
}

/// The position of a directory entry.
pub open spec fn entry_pos(img: Image, g: Geometry, dir_cluster: u32, entry_off: int) -> Option<
    int,
> {
    if dir_cluster < 2 {
        None
    } else {
        match types::nth_in(img, g, dir_cluster, (entry_off / types::cluster_size(g)) as nat) {
            Some(c) => Some(types::cluster_pos(g, c) + entry_off % types::cluster_size(g)),
            None => None,
        }
    }
}

/// The fields of a directory entry from byte 20 on: start cluster and size,
/// with the four bytes between its two halves kept.
pub open spec fn entry_fields(first: u32, kept: Seq<u8>, size: u32) -> Seq<u8> {
    bytes::le_bytes((first / 65536) as nat, 2) + kept + bytes::le_bytes((first % 65536) as nat, 2)
        + bytes::le_bytes(size as nat, 4)
}

/// Setting start cluster and size of a directory entry: the image, and whether
/// the entry was there.
pub open spec fn entry_patched(
    img: Image,
    g: Geometry,
    dir_cluster: u32,
    entry_off: int,
    first: u32,
    size: u32,
) -> (Image, bool) {
    match entry_pos(img, g, dir_cluster, entry_off) {
        Some(p) => (
            block::patched(img, p + 20, entry_fields(first, block::bytes_at(img, p + 22, 4), size)),
            true,
        ),
        None => (img, false),
    }
}

/// A directory entry names this start cluster and this size.
pub open spec fn entry_reads(img: Image, pos: int, first: u32, size: u32) -> bool {
    let e = dir::entry_of(block::bytes_at(img, pos, 32), 0);
    e.first_cluster == first && e.size == size
}

/// A chain that is being extended.
pub struct Chain {
    pub img: Image,
    pub first: u32,
    pub last: u32,
    pub have: int,
    pub allocated: int,
}

/// The chain once free clusters have been linked to it until it has `need`
/// clusters or none is free.
pub open spec fn extended(s: Chain, g: Geometry, need: int) -> Chain
    decreases need - s.have,
{
    if s.have >= need {
        s
    } else {
        match types::first_free(s.img, g, 2) {
            Some(c) => {
                let marked = types::with_entry(s.img, g, c, types::EOC_VAL);
                let t = Chain {
                    img: if s.have == 0 {
                        marked
                    } else {
                        types::with_entry(marked, g, s.last, c)
                    },
                    first: if s.have == 0 {
                        c
                    } else {
                        s.first
                    },
                    last: c,
                    have: s.have + 1,
                    allocated: s.allocated + 1,
                };
                extended(t, g, need)
            },
            None => s,
        }
    }
}

pub open spec fn after(c: u32) -> u32 {
    if c == u32::MAX {
        c
    } else {
        (c + 1) as u32
    }
}

/// The file with another start and size.
pub open spec fn resized(info: FileInfo, first: u32, size: u32) -> FileInfo {
    FileInfo {
        first_cluster: first,
        size,
        is_dir: false,
        dir_cluster: info.dir_cluster,
        entry_off: info.entry_off,
    }
}

/// Writing into the extended chain: the gap from the old end is zeroed, the
/// data written, then the directory entry and the free count are set. The new
/// size counts only what was written.
pub open spec fn grown_into(
    s: Chain,
    g: Geometry,
    info: FileInfo,
    offset: int,
    data: Seq<u8>,
) -> (Image, int) {
    let end = min(offset + data.len(), s.have * types::cluster_size(g));
    let old_end = min(info.size as int, end);
    if end <= offset {
        (s.img, 0)
    } else {
        let (zi, zok) = zeroed(s.img, g, s.first, old_end, end);
        if !zok {
            let (wi, n) = overwritten(zi, g, info, offset, data);
            (types::with_fsinfo(wi, -s.allocated, after(s.last)), n)
        } else {
            let (wi, n) = overwritten(
                zi,
                g,
                resized(info, s.first, end as u32),
                offset,
                data.take(min(end - offset, data.len() as int)),
            );
            let size = if offset + n > old_end {
                offset + n
            } else {
                old_end
            };
            let (pi, _ok) = entry_patched(
                wi,
                g,
                info.dir_cluster,
                info.entry_off as int,
                s.first,
                size as u32,
            );
            (types::with_fsinfo(pi, -s.allocated, after(s.last)), n)
        }
    }
}

/// Writing into a file, growing it where needed: the image, and how many bytes
/// were written.
pub open spec fn grown(img: Image, g: Geometry, info: FileInfo, offset: int, data: Seq<u8>) -> (
    Image,
    int,
) {
    if data.len() == 0 || info.is_dir {
        (img, 0)
    } else if offset + data.len() <= info.size {
        overwritten(img, g, info, offset, data)
    } else {
        match types::tail_of(img, g, info.first_cluster) {
            None => overwritten(img, g, info, offset, data),
            Some((have, last)) => {
                let csize = types::cluster_size(g);
                let need = (offset + data.len() + csize - 1) / csize;
                let s = Chain { img, first: info.first_cluster, last, have, allocated: 0 };
                grown_into(extended(s, g, need), g, info, offset, data)
            },
        }
    }
}

/// A patch by the start of `d` changes no sector outside those of all of it.
proof fn lemma_patch_frame(img: Image, a: int, d: Seq<u8>, k: int)
    requires
        0 <= k <= d.len(),
    ensures
        block::same_outside(img, block::patched(img, a, d.take(k)), a, d.len() as int),
{
    let r = block::patched(img, a, d.take(k));
    assert forall|l: u64| !block::touched(l, a, d.len() as int) implies #[trigger] block::same_sector(
        img,
        r,
        l,
    ) by {
        assert(!block::touched(l, a, k));
        assert(r.dom().contains(l) == img.dom().contains(l));
        if img.dom().contains(l) {
            assert(r[l] == img[l]);
        }
    }
}

/// Where a chain ends before step `k`, it ends before every later one.
proof fn lemma_nth_none(img: Image, g: Geometry, c: u32, k: nat, n: nat)
    requires
        k <= n,
        types::nth_in(img, g, c, k) is None,
    ensures
        types::nth_in(img, g, c, n) is None,
    decreases n - k,
{
    if k < n {
        lemma_nth_none(img, g, c, k + 1, n);
    }
}

/// The first `n + 1` clusters of a chain are there exactly if step `n` is.
pub proof fn lemma_chain_len(img: Image, g: Geometry, c: u32, n: nat, max: nat)
    requires
        n < max,
    ensures
        (types::nth_in(img, g, c, n) is Some) == (chain_len(img, g, c, max) > n),
    decreases n,
{
    if n > 0 {
        match types::next_in(img, g, c) {
            Some(m) => {
                lemma_chain_len(img, g, m, (n - 1) as nat, (max - 1) as nat);
                lemma_nth_shift(img, g, c, m, (n - 1) as nat);
            },
            None => {
                assert(types::nth_in(img, g, c, 0) == Some(c));
                assert(types::nth_in(img, g, c, 1) is None);
                lemma_nth_none(img, g, c, 1, n);
            },
        }
    } else {
        assert(types::nth_in(img, g, c, 0) == Some(c));
    }
}

proof fn lemma_nth_shift(img: Image, g: Geometry, c: u32, m: u32, n: nat)
    requires
        types::next_in(img, g, c) == Some(m),
    ensures
        types::nth_in(img, g, c, n + 1) == types::nth_in(img, g, m, n),
    decreases n,
{
    if n > 0 {
        lemma_nth_shift(img, g, c, m, (n - 1) as nat);
    } else {
        assert(types::nth_in(img, g, c, 0) == Some(c));
        assert(types::nth_in(img, g, m, 0) == Some(m));
    }
}

impl<B: BlockSource> Fat32<B> {
    /// The cluster `n` steps behind `first`.
    fn walk(&mut self, first: u32, n: u64) -> (r: Option<u32>)
        requires
            old(self).wf(),
        ensures
            final(self).same_volume(old(self)),
            final(self).img() == old(self).img(),
            final(self).faults() >= old(self).faults(),
            final(self).faults() == old(self).faults() ==> r == types::nth_in(
                old(self).img(),
                old(self).geometry(),
                first,
                n as nat,
            ),
            final(self).faults() > old(self).faults() ==> r is None,
    {
        let ghost g = self.geo;
        let mut c: u32 = first;
        let mut k: u64 = 0;
        while k < n
            invariant
                k <= n,
                g == self.geo,
                self.wf(),
                self.same_volume(old(self)),
                self.img() == old(self).img(),
                self.faults() == old(self).faults(),
                types::nth_in(self.img(), g, first, k as nat) == Some(c),
            decreases n - k,
        {
            match self.next_cluster(c) {
                Some(next) => {
                    c = next;
                },
                None => {
                    proof {
                        if self.faults() == old(self).faults() {
                            assert(types::nth_in(self.img(), g, first, (k + 1) as nat) is None);
                            lemma_nth_none(self.img(), g, first, (k + 1) as nat, n as nat);
                        }
                    }
                    return None;
                },
            }
            k += 1;
        }
        Some(c)
    }

    /// Reads `n` bytes, from byte `rel` behind the start of sector `lba0` on,
    /// to `at` in `out`. Returns how many came in before the device failed.
    fn read_span(&mut self, lba0: u64, rel: u64, n: usize, out: &mut [u8], at: usize) -> (r: usize)
        requires
            lba0 <= 0x200_0000_0000,
            rel + n <= 0x1_0000_0000,
            at + n <= old(out)@.len(),
        ensures
            final(self).same_volume(old(self)),
            final(self).img() == old(self).img(),
            final(self).faults() >= old(self).faults(),
            r <= n,
            (final(self).faults() == old(self).faults()) == (r == n),
            final(out)@.len() == old(out)@.len(),
            forall|i: int|
                0 <= i < final(out)@.len() ==> #[trigger] final(out)@[i] == (if at <= i < at + r {
                    block::byte_at(old(self).img(), lba0 * 512 + rel + (i - at))
                } else {
                    old(out)@[i]
                }),
    {
        let ghost img = self.img();
        let total: usize = out.len();
        let end: u64 = (rel + n as u64 + 511) / 512;
        let mut done: usize = 0;
        while done < n
            invariant
                done <= n,
                lba0 <= 0x200_0000_0000,
                rel + n <= 0x1_0000_0000,
                end == (rel + n + 511) / 512,
                at + n <= total,
                total == out@.len(),
                out@.len() == old(out)@.len(),
                img == old(self).img(),
                self.same_volume(old(self)),
                self.img() == img,
                self.faults() == old(self).faults(),
                forall|i: int|
                    0 <= i < out@.len() ==> #[trigger] out@[i] == (if at <= i < at + done {
                        block::byte_at(img, lba0 * 512 + rel + (i - at))
                    } else {
                        old(out)@[i]
                    }),
            decreases n - done,
        {
            let s: u64 = (rel + done as u64) / 512;
            let k: usize = if end - s < 8 {
                (end - s) as usize
            } else {
                8
            };
            let mut run: Vec<u8> = repeat_byte(0, k * 512);
            if !self.disk.read_sectors(lba0 + s, k, run.as_mut_slice()) {
                return done;
            }
            let start: usize = (rel + done as u64 - s * 512) as usize;
            let m: usize = if k * 512 - start < n - done {
                k * 512 - start
            } else {
                n - done
            };
            let ghost before = out@;
            let mut i: usize = 0;
            while i < m
                invariant
                    i <= m,
                    m <= n - done,
                    done <= n,
                    start + m <= run@.len(),
                    run@.len() <= 4096,
                    at + n <= total,
                    total == out@.len(),
                    out@.len() == before.len(),
                    forall|x: int|
                        0 <= x < out@.len() ==> #[trigger] out@[x] == (if at + done <= x < at + done
                            + i {
                            run@[start + (x - at - done)]
                        } else {
                            before[x]
                        }),
                decreases m - i,
            {
                out[at + done + i] = run[start + i];
                i += 1;
            }
            assert forall|x: int| 0 <= x < out@.len() implies #[trigger] out@[x] == (if at <= x
                < at + done + m {
                block::byte_at(img, lba0 * 512 + rel + (x - at))
            } else {
                old(out)@[x]
            }) by {
                if at + done <= x < at + done + m {
                    let y = start + (x - at - done);
                    assert(run@[y] == block::byte_at(img, (lba0 + s) * 512 + y));
                    assert((lba0 + s) * 512 + y == lba0 * 512 + rel + (x - at));
                }
            }
            done += m;
        }
        done
    }

    /// Replaces the bytes from byte `rel` behind the start of sector `lba0` on
    /// by `d`: the sectors are read, changed and written back.
    pub fn patch_span(&mut self, lba0: u64, rel: u64, d: &[u8]) -> (ok: bool)
        requires
            lba0 <= 0x200_0000_0000,
            rel + d.len() <= 0x1_0000_0000,
        ensures
            final(self).same_volume(old(self)),
            final(self).faults() >= old(self).faults(),
            ok == (final(self).faults() == old(self).faults()),
            ok ==> final(self).img() == block::patched(old(self).img(), lba0 * 512 + rel, d@)
                && block::present(old(self).img(), lba0 * 512 + rel, d@.len() as int),
            block::same_outside(
                old(self).img(),
                final(self).img(),
                lba0 * 512 + rel,
                d@.len() as int,
            ),
    {
        let ghost img = self.img();
        let ghost a = lba0 * 512 + rel;
        let n: usize = d.len();
        let end: u64 = (rel + n as u64 + 511) / 512;
        let mut done: usize = 0;
        proof {
            assert(d@.take(0) =~= Seq::empty());
            block::lemma_patch_empty(img, a);
        }
        while done < n
            invariant
                done <= n,
                n == d.len(),
                lba0 <= 0x200_0000_0000,
                rel + n <= 0x1_0000_0000,
                end == (rel + n + 511) / 512,
                a == lba0 * 512 + rel,
                img == old(self).img(),
                self.same_volume(old(self)),
                self.faults() == old(self).faults(),
                self.img() == block::patched(img, a, d@.take(done as int)),
                block::present(img, a, done as int),
            decreases n - done,
        {
            let ghost cur = self.img();
            let s: u64 = (rel + done as u64) / 512;
            let k: usize = if end - s < 8 {
                (end - s) as usize
            } else {
                8
            };
            let mut run: Vec<u8> = repeat_byte(0, k * 512);
            proof {
                lemma_patch_frame(img, a, d@, done as int);
            }
            if !self.disk.read_sectors(lba0 + s, k, run.as_mut_slice()) {
                return false;
            }
            let start: usize = (rel + done as u64 - s * 512) as usize;
            let m: usize = if k * 512 - start < n - done {
                k * 512 - start
            } else {
                n - done
            };
            let ghost before = run@;
            let mut i: usize = 0;
            while i < m
                invariant
                    i <= m,
                    n == d.len(),
                    m <= n - done,
                    start + m <= run@.len(),
                    run@.len() <= 4096,
                    run@.len() == before.len(),
                    forall|x: int|
                        0 <= x < run@.len() ==> #[trigger] run@[x] == (if start <= x < start + i {
                            d@[done + (x - start)]
                        } else {
                            before[x]
                        }),
                decreases m - i,
            {
                run.set(start + i, d[done + i]);
                i += 1;
            }
            proof {
                let part = d@.subrange(done as int, done + m);
                let at = a + done;
                assert((lba0 + s) * 512 + start == at);
                assert forall|l: u64| lba0 + s <= l < lba0 + s + k implies #[trigger] block::touched(
                    l,
                    at,
                    part.len() as int,
                ) by {
                    if m < k * 512 - start {
                        assert(at + m == lba0 * 512 + rel + n);
                        assert(l < lba0 + end);
                        assert((end - 1) * 512 < rel + n);
                    }
                }
                assert forall|x: int| 0 <= x < k * 512 implies #[trigger] run@[x] == (if at <= (lba0
                    + s) * 512 + x < at + part.len() {
                    part[(lba0 + s) * 512 + x - at]
                } else {
                    block::byte_at(cur, (lba0 + s) * 512 + x)
                }) by {
                    assert(before[x] == block::byte_at(cur, (lba0 + s) * 512 + x));
                }
                block::lemma_run_is_patch(cur, lba0 + s, k as nat, run@, at, part);
                assert forall|l: u64| #[trigger] block::touched(l, a, done + m) implies img.dom().contains(
                    l,
                ) by {
                    if l < lba0 + s {
                        assert(block::touched(l, a, done as int));
                    } else {
                        assert(lba0 + s <= l < lba0 + s + k);
                        assert(cur.dom().contains(l));
                    }
                }
                block::lemma_patch_join(img, a, d@.take(done as int), part);
                assert(d@.take(done as int) + part =~= d@.take(done + m));
            }
            if !self.disk.write_sectors(lba0 + s, k, run.as_slice()) {
                proof {
                    assert forall|l: u64| !block::touched(l, a, n as int) implies #[trigger] block::same_sector(
                        img,
                        self.img(),
                        l,
                    ) by {
                        assert(block::same_sector(img, cur, l));
                        if lba0 + s <= l < lba0 + s + k {
                            assert(block::touched(l, a + done, m as int));
                        }
                        assert(self.img().dom().contains(l) == cur.dom().contains(l));
                        assert(self.img()[l] == cur[l]);
                    }
                }
                return false;
            }
            done += m;
        }
        proof {
            assert(d@.take(n as int) =~= d@);
            lemma_patch_frame(img, a, d@, n as int);
        }
        true
    }

    pub fn lba_of(&self, c: u32) -> (r: u64)
        ensures
            r == types::cluster_lba(self.geometry(), c),
            r <= 0x100_0000_0000,
    {
        proof {
            dir::lemma_cluster_lba(self.geo, c);
        }
        assert(types::cluster_index(c) * self.geo.spc <= 0x1_0000_0000 * 255) by (nonlinear_arith)
            requires
                0 <= types::cluster_index(c) <= 0x1_0000_0000,
                0 <= self.geo.spc <= 255,
        ;
        self.geo.data_start as u64 + index_of_cluster(c) * (self.geo.spc as u64)
    }

    /// Reads up to `count` bytes of a file from `offset` on into `out`.
    /// Returns how many came in.
    pub fn read_file(&mut self, info: &FileInfo, offset: usize, count: usize, out: &mut [u8]) -> (r:
        usize)
        requires
            old(self).wf(),
            offset < info.size ==> min(count as int, info.size - offset) <= old(out)@.len(),
        ensures
            final(self).same_volume(old(self)),
            final(self).img() == old(self).img(),
            final(self).faults() >= old(self).faults(),
            final(self).faults() == old(self).faults() ==> r == read_len(
                old(self).img(),
                old(self).geometry(),
                *info,
                offset as int,
                count as int,
            ),
            final(self).faults() > old(self).faults() ==> r < min(
                count as int,
                info.size - offset,
            ),
            r <= count,
            r > 0 ==> offset + r <= info.size,
            final(out)@.len() == old(out)@.len(),
            forall|i: int|
                0 <= i < final(out)@.len() ==> #[trigger] final(out)@[i] == (if i < r {
                    file_byte(
                        old(self).img(),
                        old(self).geometry(),
                        info.first_cluster,
                        offset + i,
                    )
                } else {
                    old(out)@[i]
                }),
    {
        let ghost g = self.geo;
        let ghost img = self.img();
        let ghost first = info.first_cluster;
        let csize: u64 = self.cluster_bytes();
        let size: u64 = info.size as u64;
        let off: u64 = offset as u64;
        if off >= size || count == 0 {
            return 0;
        }
        let n: usize = if (count as u64) < size - off {
            count
        } else {
            (size - off) as usize
        };
        let first_ci: u64 = off / csize;
        let mut ci: u64 = first_ci;
        let mut c: u32 = match self.walk(info.first_cluster, first_ci) {
            Some(c) => c,
            None => {
                proof {
                    if self.faults() == old(self).faults() {
                        lemma_read_none(img, g, *info, offset as int, count as int);
                    }
                }
                return 0;
            },
        };
        let mut done: usize = 0;
        // The file offset of the cluster `c`.
        proof {
            vstd::arithmetic::div_mod::lemma_fundamental_div_mod(off as int, csize as int);
            vstd::arithmetic::mul::lemma_mul_is_commutative(first_ci as int, csize as int);
            assert(first_ci * csize >= 0) by (nonlinear_arith)
                requires
                    first_ci >= 0,
                    csize >= 0,
            ;
        }
        let mut start: u64 = off - off % csize;
        loop
            invariant
                done < n,
                csize == types::cluster_size(g),
                512 <= csize <= 0x1_0000,
                g == self.geo,
                img == old(self).img(),
                first == info.first_cluster,
                old(self).geometry() == g,
                off == offset,
                count > 0,
                n == min(count as int, info.size - offset),
                off < info.size,
                self.wf(),
                self.same_volume(old(self)),
                self.img() == img,
                self.faults() == old(self).faults(),
                n <= out@.len(),
                out@.len() == old(out)@.len(),
                types::nth_in(img, g, first, ci as nat) == Some(c),
                start == ci * csize,
                start <= off + done < start + csize,
                forall|i: int|
                    0 <= i < out@.len() ==> #[trigger] out@[i] == (if i < done {
                        file_byte(img, g, first, off + i)
                    } else {
                        old(out)@[i]
                    }),
            decreases n - done,
        {
            let rel: u64 = off + done as u64 - start;
            let m: usize = if csize - rel < (n - done) as u64 {
                (csize - rel) as usize
            } else {
                n - done
            };
            assert(ci <= start) by (nonlinear_arith)
                requires
                    start == ci * csize,
                    csize >= 1,
                    ci >= 0,
            ;
            let lba0: u64 = self.lba_of(c);
            let got: usize = self.read_span(lba0, rel, m, out, done);
            assert forall|i: int| 0 <= i < out@.len() implies #[trigger] out@[i] == (if i < done
                + got {
                file_byte(img, g, first, off + i)
            } else {
                old(out)@[i]
            }) by {
                if done <= i < done + got {
                    lemma_file_byte(img, g, first, c, ci as nat, off + i);
                }
            }
            if got < m {
                return done + got;
            }
            done += m;
            if done == n {
                proof {
                    lemma_read_full(img, g, *info, offset as int, count as int, ci as nat);
                }
                return done;
            }
            let ghost ci0 = ci as nat;
            match self.next_cluster(c) {
                Some(next) => {
                    c = next;
                    ci = ci + 1;
                    start = start + csize;
                    assert(start == ci * csize) by (nonlinear_arith)
                        requires
                            start == (ci - 1) * csize + csize,
                    ;
                },
                None => {
                    proof {
                        if self.faults() == old(self).faults() {
                            lemma_read_short(img, g, *info, offset as int, count as int, ci0);
                        }
                    }
                    return done;
                },
            }
        }
    }
}

/// A byte of the cluster that a chain reaches after `ci` steps is a byte of
/// the file.
proof fn lemma_file_byte(img: Image, g: Geometry, first: u32, c: u32, ci: nat, p: int)
    requires
        types::cluster_size(g) > 0,
        types::nth_in(img, g, first, ci) == Some(c),
        ci * types::cluster_size(g) <= p < ci * types::cluster_size(g) + types::cluster_size(g),
    ensures
        file_pos(img, g, first, p) == types::cluster_pos(g, c) + (p - ci * types::cluster_size(g)),
{
    vstd::arithmetic::div_mod::lemma_fundamental_div_mod_converse(
        p,
        types::cluster_size(g),
        ci as int,
        p - ci * types::cluster_size(g),
    );
}

/// A chain that ends before the cluster of the offset gives nothing.
proof fn lemma_read_none(img: Image, g: Geometry, info: FileInfo, offset: int, count: int)
    requires
        types::cluster_size(g) > 0,
        0 <= offset < info.size,
        0 < count,
        types::nth_in(img, g, info.first_cluster, (offset / types::cluster_size(g)) as nat) is None,
    ensures
        read_len(img, g, info, offset, count) == 0,
{
    let cs = types::cluster_size(g);
    let n = min(count, info.size - offset);
    let last = (offset + n - 1) / cs;
    let ci = offset / cs;
    vstd::arithmetic::div_mod::lemma_div_is_ordered(offset, offset + n - 1, cs);
    vstd::arithmetic::div_mod::lemma_div_pos_is_pos(offset, cs);
    lemma_chain_len(img, g, info.first_cluster, ci as nat, (last + 1) as nat);
    let len = chain_len(img, g, info.first_cluster, (last + 1) as nat);
    vstd::arithmetic::div_mod::lemma_fundamental_div_mod(offset, cs);
    assert(len * cs <= offset) by (nonlinear_arith)
        requires
            len <= ci,
            cs * ci <= offset,
            cs > 0,
    ;
}

/// A chain that reaches the last byte of the read gives all of it.
proof fn lemma_read_full(
    img: Image,
    g: Geometry,
    info: FileInfo,
    offset: int,
    count: int,
    ci: nat,
)
    requires
        types::cluster_size(g) > 0,
        0 <= offset < info.size,
        0 < count,
        types::nth_in(img, g, info.first_cluster, ci) is Some,
        ci * types::cluster_size(g) <= offset + min(count, info.size - offset) - 1 < ci
            * types::cluster_size(g) + types::cluster_size(g),
    ensures
        read_len(img, g, info, offset, count) == min(count, info.size - offset),
{
    let cs = types::cluster_size(g);
    let n = min(count, info.size - offset);
    vstd::arithmetic::div_mod::lemma_fundamental_div_mod_converse(
        offset + n - 1,
        cs,
        ci as int,
        offset + n - 1 - ci * cs,
    );
    lemma_chain_len(img, g, info.first_cluster, ci, ci + 1);
    let len = chain_len(img, g, info.first_cluster, ci + 1);
    assert(len * cs >= ci * cs + cs) by (nonlinear_arith)
        requires
            len >= ci + 1,
            cs > 0,
    ;
}

/// A chain that ends at cluster `ci`, before the last byte of the read, gives
/// what is left up to the end of that cluster.
proof fn lemma_read_short(
    img: Image,
    g: Geometry,
    info: FileInfo,
    offset: int,
    count: int,
    ci: nat,
)
    requires
        types::cluster_size(g) > 0,
        0 <= offset < info.size,
        0 < count,
        types::nth_in(img, g, info.first_cluster, ci) is Some,
        types::nth_in(img, g, info.first_cluster, ci + 1) is None,
        offset < ci * types::cluster_size(g) + types::cluster_size(g) < offset + min(
            count,
            info.size - offset,
        ),
    ensures
        read_len(img, g, info, offset, count) == ci * types::cluster_size(g) + types::cluster_size(
            g,
        ) - offset,
{
    let cs = types::cluster_size(g);
    let n = min(count, info.size - offset);
    let last = (offset + n - 1) / cs;
    vstd::arithmetic::div_mod::lemma_fundamental_div_mod(offset + n - 1, cs);
    assert(ci < last) by (nonlinear_arith)
        requires
            ci * cs + cs <= offset + n - 1,
            offset + n - 1 <= cs * last + (cs - 1),
            cs > 0,
    ;
    lemma_chain_len(img, g, info.first_cluster, ci, (last + 1) as nat);
    lemma_chain_len(img, g, info.first_cluster, ci + 1, (last + 1) as nat);
    let len = chain_len(img, g, info.first_cluster, (last + 1) as nat);
    assert(len * cs == ci * cs + cs) by (nonlinear_arith)
        requires
            len == ci + 1,
    ;
}

/// One step of pouring: a cluster is filled, the rest goes on in the next one.
proof fn lemma_pour_step(img: Image, g: Geometry, c: u32, rel: int, d: Seq<u8>, n: int)
    requires
        0 <= rel < types::cluster_size(g),
        d.len() > 0,
        n == min(types::cluster_size(g) - rel, d.len() as int),
    ensures
        ({
            let img1 = block::patched(img, types::cluster_pos(g, c) + rel, d.take(n));
            poured(img, g, c, rel, d) == (if n == d.len() {
                (img1, n)
            } else {
                match types::next_in(img1, g, c) {
                    Some(c1) => {
                        let (img2, m) = poured(img1, g, c1, 0, d.skip(n));
                        (img2, n + m)
                    },
                    None => (img1, n),
                }
            })
        }),
{
}

/// A chain to which a cluster was to be linked when a transfer failed.
proof fn lemma_link_torn(s: Chain, g: Geometry, c: u32, img2: Image)
    requires
        types::free_cluster(s.img, g, c),
        types::same_but_entry(types::with_entry(s.img, g, c, types::EOC_VAL), img2, g, s.last),
    ensures
        faults::link_outcome(s, g, 0, Chain { img: img2, ..s }),
{
    let marked = types::with_entry(s.img, g, c, types::EOC_VAL);
    fat::lemma_with_entry_frame(s.img, g, c, types::EOC_VAL);
    assert forall|l: u64|
        !types::table_sector(g, l) && !types::entry_sector(g, s.last, l) implies #[trigger] block::same_sector(
        s.img,
        img2,
        l,
    ) by {
        if types::entry_sector(g, c, l) {
            fat::lemma_entry_in_table(g, c, l);
        }
        assert(block::same_sector(s.img, marked, l));
        assert(block::same_sector(marked, img2, l));
    }
}

/// One step of pouring where a later one fails.
proof fn lemma_part_step(
    img: Image,
    g: Geometry,
    c: u32,
    rel: int,
    d: Seq<u8>,
    done: int,
    n: int,
    c1: u32,
)
    requires
        0 <= done < d.len(),
        0 <= rel < types::cluster_size(g),
        n == min(types::cluster_size(g) - rel, d.len() - done),
        n < d.len() - done,
        types::next_in(
            block::patched(img, types::cluster_pos(g, c) + rel, d.skip(done).take(n)),
            g,
            c,
        ) == Some(c1),
    ensures
        forall|m: int, x: Image| #[trigger]
            faults::poured_part(
                block::patched(img, types::cluster_pos(g, c) + rel, d.skip(done).take(n)),
                g,
                c1,
                0,
                d.skip(done + n),
                m,
                x,
            ) ==> faults::poured_part(img, g, c, rel, d.skip(done), n + m, x),
{
    let img1 = block::patched(img, types::cluster_pos(g, c) + rel, d.skip(done).take(n));
    assert(d.skip(done).skip(n) =~= d.skip(done + n));
    assert forall|m: int, x: Image| #[trigger]
        faults::poured_part(img1, g, c1, 0, d.skip(done + n), m, x) implies faults::poured_part(
        img,
        g,
        c,
        rel,
        d.skip(done),
        n + m,
        x,
    ) by {
        faults::lemma_part_is_short(img1, g, c1, 0, d.skip(done + n), m, x);
    }
}

/// Pouring that stops between two clusters.
proof fn lemma_part_stop(img: Image, g: Geometry, c: u32, rel: int, d: Seq<u8>, n: int)
    requires
        0 <= rel < types::cluster_size(g),
        n == min(types::cluster_size(g) - rel, d.len() as int),
        0 < n < d.len(),
    ensures
        faults::poured_part(
            img,
            g,
            c,
            rel,
            d,
            n,
            block::patched(img, types::cluster_pos(g, c) + rel, d.take(n)),
        ),
{
    let img1 = block::patched(img, types::cluster_pos(g, c) + rel, d.take(n));
    if let Some(c1) = types::next_in(img1, g, c) {
        assert(d.skip(n).len() > 0);
        assert(faults::poured_part(img1, g, c1, 0, d.skip(n), 0, img1));
    }
}

impl<B: BlockSource> Fat32<B> {
    /// Writes `d` into a chain, from byte `rel` of cluster `c` on. Returns how
    /// much of it was written.
    fn pour(&mut self, c: u32, rel: u64, d: &[u8]) -> (r: usize)
        requires
            old(self).wf(),
            rel < types::cluster_size(old(self).geometry()),
        ensures
            final(self).same_volume(old(self)),
            final(self).faults() >= old(self).faults(),
            r <= d.len(),
            final(self).faults() == old(self).faults() ==> (final(self).img(), r as int) == poured(
                old(self).img(),
                old(self).geometry(),
                c,
                rel as int,
                d@,
            ),
            final(self).faults() > old(self).faults() ==> r < d.len() && faults::poured_part(
                old(self).img(),
                old(self).geometry(),
                c,
                rel as int,
                d@,
                r as int,
                final(self).img(),
            ),
    {
        let ghost g = self.geo;
        let ghost img = self.img();
        let ghost all = poured(img, g, c, rel as int, d@);
        let csize: u64 = self.cluster_bytes();
        let mut cl: u32 = c;
        let mut at: u64 = rel;
        let mut done: usize = 0;
        assert(d@.skip(0) =~= d@);
        if d.len() == 0 {
            return 0;
        }
        loop
            invariant
                done < d.len(),
                at < csize,
                csize == types::cluster_size(g),
                csize <= 0x1_0000,
                g == self.geo,
                img == old(self).img(),
                old(self).geometry() == g,
                all == poured(img, g, c, rel as int, d@),
                self.wf(),
                self.same_volume(old(self)),
                self.faults() == old(self).faults(),
                all == ({
                    let (i, m) = poured(self.img(), g, cl, at as int, d@.skip(done as int));
                    (i, done + m)
                }),
                forall|m: int, x: Image| #[trigger]
                    faults::poured_part(self.img(), g, cl, at as int, d@.skip(done as int), m, x)
                        ==> faults::poured_part(img, g, c, rel as int, d@, done + m, x),
            decreases d.len() - done,
        {
            let n: usize = if csize - at < (d.len() - done) as u64 {
                (csize - at) as usize
            } else {
                d.len() - done
            };
            let ghost cur = self.img();
            let ghost done0 = done as int;
            let ghost cl0 = cl;
            let ghost at0 = at as int;
            proof {
                let rest = d@.skip(done as int);
                lemma_pour_step(self.img(), g, cl, at as int, rest, n as int);
                assert(rest.take(n as int) =~= d@.subrange(done as int, done + n));
                assert(rest.skip(n as int) =~= d@.skip(done + n));
            }
            let lba0: u64 = self.lba_of(cl);
            if !self.patch_span(lba0, at, slice_subrange(d, done, done + n)) {
                proof {
                    assert(faults::poured_part(
                        cur,
                        g,
                        cl,
                        at as int,
                        d@.skip(done0),
                        0,
                        self.img(),
                    ));
                }
                return done;
            }
            done += n;
            if done == d.len() {
                return done;
            }
            let ghost img1 = self.img();
            match self.next_cluster(cl) {
                Some(next) => {
                    cl = next;
                    at = 0;
                    proof {
                        lemma_part_step(cur, g, cl0, at0, d@, done0, n as int, cl);
                    }
                },
                None => {
                    proof {
                        lemma_part_stop(cur, g, cl0, at0, d@.skip(done0), n as int);
                        assert(faults::poured_part(cur, g, cl0, at0, d@.skip(done0), n as int, img1));
                    }
                    return done;
                },
            }
        }
    }

    /// Writes `count` zero bytes into a chain, from byte `rel` of cluster `c`
    /// on. Returns how many were written.
    fn pour_zeros(&mut self, c: u32, rel: u64, count: u64) -> (r: u64)
        requires
            old(self).wf(),
            rel < types::cluster_size(old(self).geometry()),
        ensures
            final(self).same_volume(old(self)),
            final(self).faults() >= old(self).faults(),
            r <= count,
            final(self).faults() == old(self).faults() ==> (final(self).img(), r as int) == poured(
                old(self).img(),
                old(self).geometry(),
                c,
                rel as int,
                bytes::filled(0, count as nat),
            ),
            final(self).faults() > old(self).faults() ==> r < count && faults::poured_part(
                old(self).img(),
                old(self).geometry(),
                c,
                rel as int,
                bytes::filled(0, count as nat),
                r as int,
                final(self).img(),
            ),
    {
        let ghost g = self.geo;
        let ghost img = self.img();
        let ghost d = bytes::filled(0, count as nat);
        let ghost all = poured(img, g, c, rel as int, d);
        let csize: u64 = self.cluster_bytes();
        let zeros: Vec<u8> = repeat_byte(0, csize as usize);
        let mut cl: u32 = c;
        let mut at: u64 = rel;
        let mut done: u64 = 0;
        assert(d.skip(0) =~= d);
        if count == 0 {
            return 0;
        }
        loop
            invariant
                done < count,
                at < csize,
                csize == types::cluster_size(g),
                csize <= 0x1_0000,
                zeros@ == bytes::filled(0, csize as nat),
                g == self.geo,
                img == old(self).img(),
                old(self).geometry() == g,
                d == bytes::filled(0, count as nat),
                all == poured(img, g, c, rel as int, d),
                self.wf(),
                self.same_volume(old(self)),
                self.faults() == old(self).faults(),
                all == ({
                    let (i, m) = poured(self.img(), g, cl, at as int, d.skip(done as int));
                    (i, done + m)
                }),
                forall|m: int, x: Image| #[trigger]
                    faults::poured_part(self.img(), g, cl, at as int, d.skip(done as int), m, x)
                        ==> faults::poured_part(img, g, c, rel as int, d, done + m, x),
            decreases count - done,
        {
            let n: u64 = if csize - at < count - done {
                csize - at
            } else {
                count - done
            };
            let ghost cur = self.img();
            let ghost done0 = done as int;
            let ghost cl0 = cl;
            let ghost at0 = at as int;
            proof {
                let rest = d.skip(done as int);
                lemma_pour_step(self.img(), g, cl, at as int, rest, n as int);
                assert(rest.take(n as int) =~= zeros@.subrange(0, n as int));
                assert(rest.skip(n as int) =~= d.skip(done + n));
            }
            let lba0: u64 = self.lba_of(cl);
            if !self.patch_span(lba0, at, slice_subrange(&zeros, 0, n as usize)) {
                proof {
                    assert(faults::poured_part(
                        cur,
                        g,
                        cl,
                        at as int,
                        d.skip(done0),
                        0,
                        self.img(),
                    ));
                }
                return done;
            }
            done = done + n;
            if done == count {
                return done;
            }
            let ghost img1 = self.img();
            match self.next_cluster(cl) {
                Some(next) => {
                    cl = next;
                    at = 0;
                    proof {
                        lemma_part_step(cur, g, cl0, at0, d, done0, n as int, cl);
                    }
                },
                None => {
                    proof {
                        lemma_part_stop(cur, g, cl0, at0, d.skip(done0), n as int);
                        assert(faults::poured_part(cur, g, cl0, at0, d.skip(done0), n as int, img1));
                    }
                    return done;
                },
            }
        }
    }

    /// Writes into a file from `offset` on without growing it. Returns how
    /// many bytes were written.
    pub fn write_file(&mut self, info: &FileInfo, offset: u64, data: &[u8]) -> (r: usize)
        requires
            old(self).wf(),
        ensures
            final(self).same_volume(old(self)),
            final(self).faults() >= old(self).faults(),
            r <= data.len(),
            final(self).faults() == old(self).faults() ==> (final(self).img(), r as int)
                == overwritten(
                old(self).img(),
                old(self).geometry(),
                *info,
                offset as int,
                data@,
            ),
            final(self).faults() > old(self).faults() ==> r < data.len() && faults::overwritten_part(
                old(self).img(),
                old(self).geometry(),
                *info,
                offset as int,
                data@,
                r as int,
                final(self).img(),
            ),
    {
        let csize: u64 = self.cluster_bytes();
        let size: u64 = info.size as u64;
        if offset >= size || data.len() == 0 || info.first_cluster < 2 {
            return 0;
        }
        let n: usize = if (data.len() as u64) < size - offset {
            data.len()
        } else {
            (size - offset) as usize
        };
        assert(data@.subrange(0, n as int) =~= data@.take(n as int));
        assert(0 <= offset as int % csize as int);
        match self.walk(info.first_cluster, offset / csize) {
            Some(c) => self.pour(c, offset % csize, slice_subrange(data, 0, n)),
            None => 0,
        }
    }

    /// Zeroes the bytes from `a` to `b` of the file that starts at a cluster.
    fn zero_range(&mut self, first: u32, a: u64, b: u64) -> (ok: bool)
        requires
            old(self).wf(),
        ensures
            final(self).same_volume(old(self)),
            final(self).faults() >= old(self).faults(),
            final(self).faults() == old(self).faults() ==> (final(self).img(), ok) == zeroed(
                old(self).img(),
                old(self).geometry(),
                first,
                a as int,
                b as int,
            ),
            final(self).faults() > old(self).faults() ==> !ok && faults::zeroed_part(
                old(self).img(),
                old(self).geometry(),
                first,
                a as int,
                b as int,
                final(self).img(),
            ),
    {
        if b <= a || first < 2 {
            return true;
        }
        let ghost g = self.geo;
        let ghost img = self.img();
        let csize: u64 = self.cluster_bytes();
        let ghost zeros = bytes::filled(0, (b - a) as nat);
        match self.walk(first, a / csize) {
            Some(c) => {
                let n: u64 = self.pour_zeros(c, a % csize, b - a);
                proof {
                    if self.faults() > old(self).faults() {
                        assert(faults::poured_part(
                            img,
                            g,
                            c,
                            a as int % csize as int,
                            zeros,
                            n as int,
                            self.img(),
                        ));
                    }
                }
                n == b - a
            },
            None => {
                proof {
                    if let Some(c) = types::nth_in(img, g, first, (a as int / csize as int) as nat) {
                        assert(0 <= a as int % csize as int);
                        assert(faults::poured_part(
                            img,
                            g,
                            c,
                            a as int % csize as int,
                            zeros,
                            0,
                            img,
                        ));
                    }
                }
                false
            },
        }
    }

    /// Zeroes a cluster.
    pub fn zero_cluster(&mut self, c: u32) -> (ok: bool)
        requires
            old(self).wf(),
        ensures
            final(self).same_volume(old(self)),
            final(self).faults() >= old(self).faults(),
            ok == (final(self).faults() == old(self).faults()),
            ok ==> final(self).img() == block::patched(
                old(self).img(),
                types::cluster_pos(old(self).geometry(), c),
                bytes::filled(0, types::cluster_size(old(self).geometry()) as nat),
            ),
            block::same_outside(
                old(self).img(),
                final(self).img(),
                types::cluster_pos(old(self).geometry(), c),
                types::cluster_size(old(self).geometry()),
            ),
    {
        let csize: u64 = self.cluster_bytes();
        let zeros: Vec<u8> = repeat_byte(0, csize as usize);
        let lba0: u64 = self.lba_of(c);
        self.patch_span(lba0, 0, &zeros)
    }

    /// The sector and the offset in it of a directory entry.
    pub fn dir_entry_pos(&mut self, dir_cluster: u32, entry_off: u64) -> (r: Option<(u64, u64)>)
        requires
            old(self).wf(),
        ensures
            final(self).same_volume(old(self)),
            final(self).img() == old(self).img(),
            final(self).faults() >= old(self).faults(),
            final(self).faults() == old(self).faults() ==> (match r {
                Some((lba, off)) => entry_pos(
                    old(self).img(),
                    old(self).geometry(),
                    dir_cluster,
                    entry_off as int,
                ) == Some(lba * 512 + off),
                None => entry_pos(
                    old(self).img(),
                    old(self).geometry(),
                    dir_cluster,
                    entry_off as int,
                ) is None,
            }),
            final(self).faults() > old(self).faults() ==> r is None,
            r matches Some((lba, off)) ==> lba <= 0x100_0001_0000 && off < 512,
    {
        if dir_cluster < 2 {
            return None;
        }
        let csize: u64 = self.cluster_bytes();
        match self.walk(dir_cluster, entry_off / csize) {
            Some(c) => {
                let in_cl: u64 = entry_off % csize;
                let lba: u64 = self.lba_of(c);
                Some((lba + in_cl / 512, in_cl % 512))
            },
            None => None,
        }
    }

    /// Sets start cluster and size of a directory entry.
    pub fn patch_entry(&mut self, dir_cluster: u32, entry_off: u64, first: u32, size: u32) -> (ok:
        bool)
        requires
            old(self).wf(),
        ensures
            final(self).same_volume(old(self)),
            final(self).faults() >= old(self).faults(),
            final(self).faults() == old(self).faults() ==> (final(self).img(), ok)
                == entry_patched(
                old(self).img(),
                old(self).geometry(),
                dir_cluster,
                entry_off as int,
                first,
                size,
            ),
            ok ==> (entry_pos(
                old(self).img(),
                old(self).geometry(),
                dir_cluster,
                entry_off as int,
            ) matches Some(p) && entry_reads(final(self).img(), p, first, size)),
            final(self).faults() > old(self).faults() ==> !ok && faults::entry_part(
                old(self).img(),
                old(self).geometry(),
                dir_cluster,
                entry_off as int,
                final(self).img(),
            ),
    {
        let (lba, off): (u64, u64) = match self.dir_entry_pos(dir_cluster, entry_off) {
            Some(p) => p,
            None => {
                return false;
            },
        };
        let mut kept: Vec<u8> = repeat_byte(0, 4);
        if self.read_span(lba, off + 22, 4, kept.as_mut_slice(), 0) < 4 {
            return false;
        }
        let mut d: Vec<u8> = Vec::new();
        push_le(&mut d, (first / 65536) as u64, 2);
        append_bytes(&mut d, &kept);
        push_le(&mut d, (first % 65536) as u64, 2);
        push_le(&mut d, size as u64, 4);
        proof {
            let p = lba * 512 + off;
            assert(kept@ =~= block::bytes_at(self.img(), p + 22, 4));
            assert(d@ =~= entry_fields(first, kept@, size));
            bytes::lemma_le_bytes_len((first / 65536) as nat, 2);
            bytes::lemma_le_bytes_len((first % 65536) as nat, 2);
            bytes::lemma_le_bytes_len(size as nat, 4);
        }
        let ghost img = self.img();
        let ok: bool = self.patch_span(lba, off + 20, &d);
        proof {
            let p = lba * 512 + off;
            if ok {
                assert forall|q: int| p + 20 <= q < p + 32 implies #[trigger] img.dom().contains(
                    (q / 512) as u64,
                ) by {
                    assert(block::touched((q / 512) as u64, p + 20, 12));
                }
                laws_grow::lemma_entry_says(img, self.geo, p, first, size, 0);
            }
        }
        ok
    }

    /// Links free clusters to a chain until it has `need` of them. Returns the
    /// first and the last cluster, the length and how many were added.
    fn extend(&mut self, first: u32, last: u32, have: u64, need: u64) -> (r: (u32, u32, u64, u64))
        requires
            old(self).wf(),
        ensures
            final(self).same_volume(old(self)),
            final(self).faults() >= old(self).faults(),
            final(self).faults() == old(self).faults() ==> ({
                let t = extended(
                    Chain {
                        img: old(self).img(),
                        first,
                        last,
                        have: have as int,
                        allocated: 0,
                    },
                    old(self).geometry(),
                    need as int,
                );
                t.img == final(self).img() && t.first == r.0 && t.last == r.1 && t.have == r.2
                    && t.allocated == r.3
            }),
            faults::link_outcome(
                Chain { img: old(self).img(), first, last, have: have as int, allocated: 0 },
                old(self).geometry(),
                r.3 as nat,
                Chain {
                    img: final(self).img(),
                    first: r.0,
                    last: r.1,
                    have: r.2 as int,
                    allocated: r.3 as int,
                },
            ),
            have <= r.2,
            r.2 <= need || r.2 == have,
            r.3 <= need,
    {
        let ghost g = self.geo;
        let ghost start = Chain {
            img: self.img(),
            first,
            last,
            have: have as int,
            allocated: 0,
        };
        let ghost goal = extended(
            Chain { img: self.img(), first, last, have: have as int, allocated: 0 },
            g,
            need as int,
        );
        let mut f: u32 = first;
        let mut l: u32 = last;
        let mut h: u64 = have;
        let mut n: u64 = 0;
        while h < need
            invariant
                have <= h,
                h <= need || h == have,
                n == h - have,
                g == self.geo,
                old(self).geometry() == g,
                self.wf(),
                self.same_volume(old(self)),
                self.faults() >= old(self).faults(),
                goal == extended(
                    Chain { img: old(self).img(), first, last, have: have as int, allocated: 0 },
                    g,
                    need as int,
                ),
                self.faults() == old(self).faults() ==> goal == extended(
                    Chain {
                        img: self.img(),
                        first: f,
                        last: l,
                        have: h as int,
                        allocated: n as int,
                    },
                    g,
                    need as int,
                ),
                start == (Chain {
                    img: old(self).img(),
                    first,
                    last,
                    have: have as int,
                    allocated: 0,
                }),
                forall|k: nat, t: Chain| #[trigger]
                    faults::link_outcome(
                        Chain {
                            img: self.img(),
                            first: f,
                            last: l,
                            have: h as int,
                            allocated: n as int,
                        },
                        g,
                        k,
                        t,
                    ) ==> faults::link_outcome(start, g, n as nat + k, t),
            decreases need - h,
        {
            let ghost cur = Chain {
                img: self.img(),
                first: f,
                last: l,
                have: h as int,
                allocated: n as int,
            };
            match self.alloc_one() {
                Some(c) => {
                    let ghost marked = self.img();
                    if h == 0 {
                        f = c;
                    } else if !self.set_fat_entry(l, c) {
                        proof {
                            lemma_link_torn(cur, g, c, self.img());
                        }
                        return (f, l, h, n);
                    }
                    l = c;
                    h = h + 1;
                    n = n + 1;
                    proof {
                        let next = Chain {
                            img: self.img(),
                            first: f,
                            last: l,
                            have: h as int,
                            allocated: n as int,
                        };
                        assert(next == faults::with_link(cur, g, c));
                        assert forall|k: nat, t: Chain| #[trigger]
                            faults::link_outcome(next, g, k, t) implies faults::link_outcome(
                            start,
                            g,
                            n as nat + k,
                            t,
                        ) by {
                            assert(types::free_cluster(cur.img, g, c));
                            assert(faults::link_outcome(cur, g, k + 1, t));
                        }
                    }
                },
                None => {
                    proof {
                        let t = Chain { img: self.img(), ..cur };
                        assert(faults::link_outcome(cur, g, 0, t));
                    }
                    return (f, l, h, n);
                },
            }
        }
        proof {
            let t = Chain {
                img: self.img(),
                first: f,
                last: l,
                have: h as int,
                allocated: n as int,
            };
            assert(faults::link_outcome(t, g, 0, t));
        }
        (f, l, h, n)
    }

    /// Writes into a file from `offset` on, growing it where needed: missing
    /// clusters are linked, the gap behind the old end is zeroed, and the
    /// directory entry is set last. The size grows by no more than was
    /// written. Where no cluster is free, what fits is written. Returns how
    /// many bytes were written, also where transfers fail.
    pub fn write_grow(&mut self, info: &FileInfo, offset: u64, data: &[u8]) -> (r: usize)
        requires
            old(self).wf(),
            offset + data.len() <= 0xFFFF_FFFF_FFFE_0000,
        ensures
            final(self).same_volume(old(self)),
            final(self).faults() >= old(self).faults(),
            r <= data.len(),
            final(self).faults() == old(self).faults() ==> (final(self).img(), r as int) == grown(
                old(self).img(),
                old(self).geometry(),
                *info,
                offset as int,
                data@,
            ),
            faults::grow_outcome(
                old(self).img(),
                old(self).geometry(),
                *info,
                offset as int,
                data@,
                r as int,
                final(self).img(),
            ),
    {
        let ghost g = self.geo;
        let ghost img = self.img();
        let size: u64 = info.size as u64;
        if data.len() == 0 || info.is_dir {
            return 0;
        }
        if offset + data.len() as u64 <= size {
            return self.write_file(info, offset, data);
        }
        let csize: u64 = self.cluster_bytes();
        let (have, last): (u64, u32) = match self.chain_tail(info.first_cluster) {
            Some(t) => t,
            None => {
                return self.write_file(info, offset, data);
            },
        };
        let end: u64 = offset + data.len() as u64;
        let need: u64 = (end + csize - 1) / csize;
        assert(need * 512 <= end + csize) by (nonlinear_arith)
            requires
                need == (end + csize - 1) / (csize as int),
                csize >= 512,
                end >= 0,
        ;
        let ghost have0 = have;
        let ghost last0 = last;
        assert(faults::count_of_chain(img, g, info.first_cluster, have as int, last));
        let (first, last, have, allocated): (u32, u32, u64, u64) = self.extend(
            info.first_cluster,
            last,
            have,
            need,
        );
        let ghost t = Chain {
            img: self.img(),
            first,
            last,
            have: have as int,
            allocated: allocated as int,
        };
        proof {
            vstd::arithmetic::div_mod::lemma_fundamental_div_mod(end + csize - 1, csize as int);
            if have == have0 {
                assert(have * csize <= 0x80_0000_0000 * 0x1_0000) by (nonlinear_arith)
                    requires
                        0 <= have <= 0x80_0000_0000,
                        0 <= csize <= 0x1_0000,
                ;
            } else {
                assert(have * csize <= csize * need) by (nonlinear_arith)
                    requires
                        0 <= have <= need,
                        0 <= csize,
                ;
            }
        }
        let n: usize = self.write_extended(info, offset, data, first, last, have, allocated);
        assert(faults::link_outcome(
            Chain {
                img,
                first: info.first_cluster,
                last: last0,
                have: have0 as int,
                allocated: 0,
            },
            g,
            allocated as nat,
            t,
        ));
        n
    }

    /// Writes into a file whose chain has been extended.
    fn write_extended(
        &mut self,
        info: &FileInfo,
        offset: u64,
        data: &[u8],
        first: u32,
        last: u32,
        have: u64,
        allocated: u64,
    ) -> (r: usize)
        requires
            old(self).wf(),
            data.len() > 0,
            offset + data.len() <= 0xFFFF_FFFF_FFFE_0000,
            have * types::cluster_size(old(self).geometry()) <= u64::MAX,
            allocated <= 0x1000_0000_0000_0000,
        ensures
            final(self).same_volume(old(self)),
            final(self).faults() >= old(self).faults(),
            r <= data.len(),
            final(self).faults() == old(self).faults() ==> (final(self).img(), r as int)
                == grown_into(
                Chain {
                    img: old(self).img(),
                    first,
                    last,
                    have: have as int,
                    allocated: allocated as int,
                },
                old(self).geometry(),
                *info,
                offset as int,
                data@,
            ),
            faults::into_outcome(
                Chain {
                    img: old(self).img(),
                    first,
                    last,
                    have: have as int,
                    allocated: allocated as int,
                },
                old(self).geometry(),
                *info,
                offset as int,
                data@,
                r as int,
                final(self).img(),
            ),
    {
        let ghost g = self.geo;
        let ghost img = self.img();
        let csize: u64 = self.cluster_bytes();
        let size: u64 = info.size as u64;
        let cap_end: u64 = have * csize;
        let end: u64 = if cap_end < offset + data.len() as u64 {
            cap_end
        } else {
            offset + data.len() as u64
        };
        if end <= offset {
            return 0;
        }
        let old_end: u64 = if size < end {
            size
        } else {
            end
        };
        let next_free: u32 = if last == u32::MAX {
            last
        } else {
            last + 1
        };
        let ghost s = Chain {
            img,
            first,
            last,
            have: have as int,
            allocated: allocated as int,
        };
        let zeroed_all: bool = self.zero_range(first, old_end, end);
        let ghost zi = self.img();
        assert(faults::zero_outcome(img, g, first, old_end as int, end as int, zi, zeroed_all));
        let n: usize = self.write_gapless(
            info,
            offset,
            data,
            first,
            end,
            old_end,
            zeroed_all,
            Ghost(s),
        );
        let ghost pi = self.img();
        assert(faults::data_outcome(
            s,
            g,
            *info,
            offset as int,
            data@,
            zi,
            zeroed_all,
            n as int,
            pi,
        ));
        let _bumped: bool = self.fsinfo_bump(-(allocated as i64), next_free);
        assert(faults::count_outcome(pi, -s.allocated, after(s.last), self.img()));
        n
    }

    /// Writes into a file whose chain reaches up to `end` and whose gap from
    /// its old end on has been zeroed, and sets its directory entry. Where the
    /// gap could not be zeroed, the file is not made longer.
    fn write_gapless(
        &mut self,
        info: &FileInfo,
        offset: u64,
        data: &[u8],
        first: u32,
        end: u64,
        old_end: u64,
        gapless: bool,
        Ghost(s): Ghost<Chain>,
    ) -> (r: usize)
        requires
            old(self).wf(),
            offset < end,
            offset + data.len() <= 0xFFFF_FFFF_FFFE_0000,
            s.first == first,
            end == min(offset + data.len(), s.have * types::cluster_size(old(self).geometry())),
            old_end == min(info.size as int, end as int),
        ensures
            final(self).same_volume(old(self)),
            final(self).faults() >= old(self).faults(),
            r <= data.len(),
            final(self).faults() == old(self).faults() ==> (final(self).img(), r as int) == (
            if gapless {
                let (wi, n) = overwritten(
                    old(self).img(),
                    old(self).geometry(),
                    resized(*info, first, end as u32),
                    offset as int,
                    data@.take(min(end - offset, data.len() as int)),
                );
                let size = if offset + n > old_end {
                    offset + n
                } else {
                    old_end as int
                };
                (
                    entry_patched(
                        wi,
                        old(self).geometry(),
                        info.dir_cluster,
                        info.entry_off as int,
                        first,
                        size as u32,
                    ).0,
                    n,
                )
            } else {
                overwritten(
                    old(self).img(),
                    old(self).geometry(),
                    *info,
                    offset as int,
                    data@,
                )
            }),
            faults::data_outcome(
                s,
                old(self).geometry(),
                *info,
                offset as int,
                data@,
                old(self).img(),
                gapless,
                r as int,
                final(self).img(),
            ),
    {
        let ghost g = self.geo;
        let ghost zi = self.img();
        if !gapless {
            return self.write_file(info, offset, data);
        }
        let shadow = FileInfo {
            first_cluster: first,
            size: end as u32,
            is_dir: false,
            dir_cluster: info.dir_cluster,
            entry_off: info.entry_off,
        };
        let fit: usize = (end - offset) as usize;
        assert(data@.subrange(0, fit as int) =~= data@.take(fit as int));
        let n: usize = self.write_file(&shadow, offset, slice_subrange(data, 0, fit));
        let ghost wi = self.img();
        assert(faults::overwrite_outcome(
            zi,
            g,
            resized(*info, first, end as u32),
            offset as int,
            data@.take(min(end - offset, data@.len() as int)),
            n as int,
            wi,
        ));
        let total: u64 = if offset + n as u64 > old_end {
            offset + n as u64
        } else {
            old_end
        };
        let _patched: bool = self.patch_entry(
            info.dir_cluster,
            info.entry_off,
            first,
            total as u32,
        );
        n
    }
}

} // verus!
