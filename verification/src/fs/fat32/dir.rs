//! Directories: their entries, lookup by path, listing.
use vstd::prelude::*;
use vstd::slice::slice_subrange;

use super::types;
use super::types::{
    DirEntry, EntryView, Fat32, FileInfo, Geometry, BAD_CLUSTER, EOC, MAX_WALK,
};
use crate::bytes;
use crate::bytes::{append_bytes, bytes_eq, find_byte};
use crate::fs::block;
use crate::fs::block::{BlockSource, Image};
use crate::shell::cwd;
use crate::text;
use crate::text::{as_text, trim, upper};

verus! {

/// The leading bytes that are not spaces.
pub open spec fn unpadded(b: Seq<u8>) -> Seq<u8> {
    b.take(bytes::index_from(b, 0, 32))
}

/// The 8.3 name of a directory entry: padding dropped, extension behind `.`.
pub open spec fn name_of(e: Seq<u8>) -> Seq<u8> {
    let ext = unpadded(e.subrange(8, 11));
    let name = text::text_form(unpadded(e.take(8)));
    if ext.len() == 0 {
        name
    } else {
        name + seq![46u8] + text::text_form(ext)
    }
}

fn entry_name(e: &[u8]) -> (r: Vec<u8>)
    requires
        e.len() == 32,
    ensures
        r@ == name_of(e@),
{
    let base: &[u8] = slice_subrange(e, 0, 8);
    let ext: &[u8] = slice_subrange(e, 8, 11);
    assert(base@ =~= e@.take(8));
    let n: usize = find_byte(base, 0, 32);
    let x: usize = find_byte(ext, 0, 32);
    let b1: &[u8] = slice_subrange(base, 0, n);
    let x1: &[u8] = slice_subrange(ext, 0, x);
    assert(b1@ =~= unpadded(e@.take(8)));
    assert(x1@ =~= unpadded(e@.subrange(8, 11)));
    let mut s: Vec<u8> = as_text(b1);
    if x1.len() > 0 {
        s.push(46);
        append_bytes(&mut s, &as_text(x1));
        assert(s@ =~= name_of(e@));
    }
    s
}

/// An entry that names a file or a directory: not deleted, no long name part,
/// no volume label, neither `.` nor `..`.
pub open spec fn visible(e: Seq<u8>) -> bool {
    e[0] != 0xE5 && e[11] % 16 != 15 && (e[11] / 8) % 2 == 0 && name_of(e) != seq![46u8]
        && name_of(e) != seq![46u8, 46u8]
}

/// The entry that 32 bytes of a directory describe.
pub open spec fn entry_of(e: Seq<u8>, off: int) -> EntryView {
    EntryView {
        name: name_of(e),
        attr: e[11],
        first_cluster: (bytes::le_value(e, 20, 2) * 65536 + bytes::le_value(e, 26, 2)) as u32,
        size: bytes::le_value(e, 28, 4) as u32,
        entry_off: off,
    }
}

/// Entry slots per cluster.
pub open spec fn slots(g: Geometry) -> int {
    g.spc * 16
}

/// The slot `k` of a cluster.
pub open spec fn slot(img: Image, g: Geometry, c: u32, k: int) -> Seq<u8> {
    block::bytes_at(img, types::cluster_pos(g, c) + 32 * k, 32)
}

/// The entries of a cluster from slot `k` on, and whether the directory ends
/// in it. `base` is where the cluster stands in the bytes of the directory.
pub open spec fn cluster_entries(img: Image, g: Geometry, c: u32, base: int, k: int) -> (
    Seq<EntryView>,
    bool,
)
    decreases slots(g) - k,
{
    if k >= slots(g) {
        (Seq::empty(), false)
    } else {
        let e = slot(img, g, c, k);
        if e[0] == 0 {
            (Seq::empty(), true)
        } else {
            let (r, end) = cluster_entries(img, g, c, base, k + 1);
            if visible(e) {
                (seq![entry_of(e, base + 32 * k)] + r, end)
            } else {
                (r, end)
            }
        }
    }
}

/// The entries of a directory from a cluster on; the chain is followed for at
/// most `fuel` more clusters.
pub open spec fn entries_from(img: Image, g: Geometry, c: u32, base: int, fuel: nat) -> Seq<
    EntryView,
>
    decreases fuel,
{
    let (es, end) = cluster_entries(img, g, c, base, 0);
    if end || fuel == 0 {
        es
    } else {
        match types::next_in(img, g, c) {
            Some(n) => es + entries_from(
                img,
                g,
                n,
                base + types::cluster_size(g),
                (fuel - 1) as nat,
            ),
            None => es,
        }
    }
}

/// The entries of the directory that starts at a cluster.
pub open spec fn dir_entries(img: Image, g: Geometry, c: u32) -> Seq<EntryView> {
    entries_from(img, g, c, 0, MAX_WALK as nat)
}

/// A path without the `/` at its ends.
pub open spec fn stripped(p: Seq<u8>) -> Seq<u8>
    decreases p.len(),
{
    if p.len() > 0 && p[0] == 47 {
        stripped(p.skip(1))
    } else if p.len() > 0 && p.last() == 47 {
        stripped(p.drop_last())
    } else {
        p
    }
}

/// A path without the `/` at its ends.
pub fn strip_slashes(p: &[u8]) -> (r: &[u8])
    ensures
        r@ == stripped(p@),
{
    let mut a: usize = 0;
    let mut b: usize = p.len();
    assert(p@.subrange(0, b as int) =~= p@);
    while a < b && p[a] == 47
        invariant
            a <= b <= p.len(),
            stripped(p@) == stripped(p@.subrange(a as int, b as int)),
        decreases b - a,
    {
        assert(p@.subrange(a as int, b as int).skip(1) =~= p@.subrange(a + 1, b as int));
        a += 1;
    }
    while a < b && p[b - 1] == 47
        invariant
            a <= b <= p.len(),
            a < b ==> p@[a as int] != 47,
            stripped(p@) == stripped(p@.subrange(a as int, b as int)),
        decreases b - a,
    {
        assert(p@.subrange(a as int, b as int).drop_last() =~= p@.subrange(a as int, b - 1));
        b -= 1;
    }
    slice_subrange(p, a, b)
}

/// A path component in the form of entry names: upper case, no white space
/// round the parts before and behind the first `.`, and no `.` where nothing
/// stands behind it.
pub open spec fn component_key(comp: Seq<u8>) -> Seq<u8> {
    let c = text::upper_form(stripped(comp));
    let j = bytes::index_from(c, 0, 46);
    if 0 < j < c.len() {
        let name = text::trimmed_form(c.take(j));
        let ext = text::trimmed_form(c.skip(j + 1));
        if ext.len() == 0 {
            name
        } else {
            name + seq![46u8] + ext
        }
    } else {
        c
    }
}

/// A path component in the form of entry names.
pub fn normalize_component(comp: &[u8]) -> (r: Vec<u8>)
    ensures
        r@ == component_key(comp@),
{
    let c: Vec<u8> = upper(strip_slashes(comp));
    let j: usize = find_byte(&c, 0, 46);
    if 0 < j && j < c.len() {
        let n: &[u8] = slice_subrange(&c, 0, j);
        let e: &[u8] = slice_subrange(&c, j + 1, c.len());
        assert(n@ =~= c@.take(j as int));
        assert(e@ =~= c@.skip(j + 1));
        let mut s: Vec<u8> = trim(n);
        let x: Vec<u8> = trim(e);
        if x.len() > 0 {
            s.push(46);
            append_bytes(&mut s, &x);
        }
        assert(s@ =~= component_key(comp@));
        s
    } else {
        c
    }
}

/// The name of an entry in the form in which it is compared.
pub open spec fn entry_key(name: Seq<u8>) -> Seq<u8> {
    text::upper_form(name)
}

/// The first entry of that name.
pub open spec fn first_named(es: Seq<EntryView>, key: Seq<u8>) -> Option<EntryView>
    decreases es.len(),
{
    if es.len() == 0 {
        None
    } else if entry_key(es[0].name) == key {
        Some(es[0])
    } else {
        first_named(es.skip(1), key)
    }
}

/// The directory attribute.
pub open spec fn dir_attr(attr: u8) -> bool {
    (attr / 16) % 2 == 1
}

/// The file that a path component names in a directory.
#[verifier::opaque]
pub open spec fn named_in(img: Image, g: Geometry, dir: u32, part: Seq<u8>) -> Option<FileInfo> {
    match first_named(dir_entries(img, g, dir), component_key(part)) {
        Some(hit) => Some(
            FileInfo {
                first_cluster: hit.first_cluster,
                size: hit.size,
                is_dir: dir_attr(hit.attr),
                dir_cluster: dir,
                entry_off: hit.entry_off as u64,
            },
        ),
        None => None,
    }
}

/// What the components of a path lead to, from a directory on. All but the
/// last one must name directories; empty ones are skipped.
pub open spec fn lookup(img: Image, g: Geometry, dir: u32, parts: Seq<Seq<u8>>) -> Option<FileInfo>
    decreases parts.len(),
{
    if parts.len() == 0 {
        None
    } else if parts[0].len() == 0 {
        lookup(img, g, dir, parts.skip(1))
    } else {
        match named_in(img, g, dir, parts[0]) {
            Some(hit) => if parts.len() == 1 {
                Some(hit)
            } else if hit.is_dir {
                lookup(img, g, hit.first_cluster, parts.skip(1))
            } else {
                None
            },
            None => None,
        }
    }
}

/// What a path leads to.
pub open spec fn found(img: Image, g: Geometry, path: Seq<u8>) -> Option<FileInfo> {
    let p = stripped(path);
    if p.len() == 0 {
        None
    } else {
        lookup(img, g, g.root_cluster, cwd::split_on(p, 47))
    }
}

/// The entries of the directory that a path leads to.
pub open spec fn listed(img: Image, g: Geometry, path: Seq<u8>) -> Seq<EntryView> {
    if stripped(path).len() == 0 {
        dir_entries(img, g, g.root_cluster)
    } else {
        match found(img, g, path) {
            Some(info) => dir_entries(img, g, info.first_cluster),
            None => Seq::empty(),
        }
    }
}

/// The number of a cluster counted from the first one.
pub fn index_of_cluster(c: u32) -> (r: u64)
    ensures
        r == types::cluster_index(c),
{
    if c >= 2 {
        (c - 2) as u64
    } else {
        c as u64 + 0xFFFF_FFFE
    }
}

pub proof fn lemma_cluster_lba(g: Geometry, c: u32)
    ensures
        0 <= types::cluster_lba(g, c) <= 0x100_0000_0000,
{
    assert(types::cluster_index(c) * g.spc <= 0x1_0000_0000 * 255) by (nonlinear_arith)
        requires
            0 <= types::cluster_index(c) <= 0x1_0000_0000,
            0 <= g.spc <= 255,
    ;
    assert(0 <= types::cluster_index(c) * g.spc) by (nonlinear_arith)
        requires
            0 <= types::cluster_index(c),
            0 <= g.spc,
    ;
}

fn decode_entry(e: &[u8], off: u64) -> (r: Option<DirEntry>)
    requires
        e.len() == 32,
    ensures
        match r {
            Some(d) => visible(e@) && d@ == entry_of(e@, off as int),
            None => !visible(e@),
        },
{
    if e[0] == 0xE5 {
        return None;
    }
    let attr: u8 = e[11];
    if attr % 16 == 15 || (attr / 8) % 2 == 1 {
        return None;
    }
    let name: Vec<u8> = entry_name(e);
    if bytes_eq(&name, &[46u8]) || bytes_eq(&name, &[46u8, 46u8]) {
        assert([46u8]@ =~= seq![46u8]);
        assert([46u8, 46u8]@ =~= seq![46u8, 46u8]);
        return None;
    }
    assert([46u8]@ =~= seq![46u8]);
    assert([46u8, 46u8]@ =~= seq![46u8, 46u8]);
    let hi: u32 = bytes::read_le16(e, 20) as u32;
    let lo: u32 = bytes::read_le16(e, 26) as u32;
    Some(
        DirEntry {
            name,
            attr,
            first_cluster: hi * 65536 + lo,
            size: bytes::read_le32(e, 28),
            entry_off: off,
        },
    )
}

/// The first component of the rest of a path, and the others.
proof fn lemma_split_step(p: Seq<u8>, i: int, j: int)
    requires
        0 <= i <= p.len(),
        j == bytes::index_from(p, i, 47),
    ensures
        i <= j <= p.len(),
        cwd::split_on(p.skip(i), 47)[0] == p.subrange(i, j),
        j < p.len() ==> cwd::split_on(p.skip(i), 47).skip(1) == cwd::split_on(p.skip(j + 1), 47)
            && cwd::split_on(p.skip(i), 47).len() >= 2,
        j == p.len() ==> cwd::split_on(p.skip(i), 47).len() == 1 && cwd::split_on(
            p.skip(i),
            47,
        ).skip(1).len() == 0,
{
    bytes::lemma_index_from(p, i, 47);
    let tail = p.skip(i);
    assert forall|k: int| 0 <= k < j - i implies tail[k] != 47 by {
        assert(tail[k] == p[i + k]);
    }
    bytes::lemma_index_from_unique(tail, 0, 47, j - i);
    let parts = cwd::split_on(tail, 47);
    if j < p.len() {
        let rest = cwd::split_on(p.skip(j + 1), 47);
        assert(tail.take(j - i) =~= p.subrange(i, j));
        assert(tail.skip(j - i + 1) =~= p.skip(j + 1));
        assert(parts =~= seq![p.subrange(i, j)] + rest);
        assert(parts.skip(1) =~= rest);
        assert(rest.len() >= 1);
    } else {
        assert(tail =~= p.subrange(i, j));
        assert(parts =~= seq![p.subrange(i, j)]);
    }
}

impl<B: BlockSource> Fat32<B> {
    /// Reads the entries of one cluster into `entries`. Returns whether the
    /// directory ends in it, or `None` where the device failed.
    fn read_dir_cluster(&mut self, c: u32, base: u64, entries: &mut Vec<DirEntry>) -> (r: Option<
        bool,
    >)
        requires
            old(self).wf(),
            base <= 0x1000_0000_0000,
        ensures
            final(self).same_volume(old(self)),
            final(self).img() == old(self).img(),
            final(self).faults() >= old(self).faults(),
            (r is None) == (final(self).faults() > old(self).faults()),
            r matches Some(end) ==> {
                let (es, e) = cluster_entries(
                    old(self).img(),
                    old(self).geometry(),
                    c,
                    base as int,
                    0,
                );
                e == end && types::entry_views(final(entries)@) == types::entry_views(
                    old(entries)@,
                ) + es
            },
    {
        let ghost g = self.geo;
        let ghost img = self.img();
        let ghost v0 = types::entry_views(entries@);
        proof {
            lemma_cluster_lba(g, c);
        }
        let spc: u64 = self.geo.spc as u64;
        assert(types::cluster_index(c) * g.spc <= 0x1_0000_0000 * 255) by (nonlinear_arith)
            requires
                0 <= types::cluster_index(c) <= 0x1_0000_0000,
                0 <= g.spc <= 255,
        ;
        let lba0: u64 = self.geo.data_start as u64 + index_of_cluster(c) * spc;
        let mut si: u64 = 0;
        assert(v0 + cluster_entries(img, g, c, base as int, 0).0 =~= types::entry_views(entries@)
            + cluster_entries(img, g, c, base as int, 0).0);
        while si < spc
            invariant
                si <= spc,
                spc == g.spc,
                base <= 0x1000_0000_0000,
                lba0 == types::cluster_lba(g, c),
                lba0 <= 0x100_0000_0000,
                g == self.geo,
                img == old(self).img(),
                v0 == types::entry_views(old(entries)@),
                self.same_volume(old(self)),
                self.img() == img,
                self.faults() == old(self).faults(),
                old(self).geometry() == g,
                v0 + cluster_entries(img, g, c, base as int, 0).0 == types::entry_views(entries@)
                    + cluster_entries(img, g, c, base as int, si * 16).0,
                cluster_entries(img, g, c, base as int, 0).1 == cluster_entries(
                    img,
                    g,
                    c,
                    base as int,
                    si * 16,
                ).1,
            decreases spc - si,
        {
            let mut sec: [u8; 512] = [0u8; 512];
            if !self.disk.read_sector(lba0 + si, &mut sec) {
                return None;
            }
            let mut k: usize = 0;
            while k < 16
                invariant
                    k <= 16,
                    si < spc,
                    spc == g.spc,
                    base <= 0x1000_0000_0000,
                    lba0 == types::cluster_lba(g, c),
                    sec@ == img[(lba0 + si) as u64],
                    lba0 <= 0x100_0000_0000,
                    g == self.geo,
                    self.same_volume(old(self)),
                    self.img() == img,
                    img == old(self).img(),
                    v0 == types::entry_views(old(entries)@),
                    self.faults() == old(self).faults(),
                    old(self).geometry() == g,
                    v0 + cluster_entries(img, g, c, base as int, 0).0 == types::entry_views(
                        entries@,
                    ) + cluster_entries(img, g, c, base as int, si * 16 + k).0,
                    cluster_entries(img, g, c, base as int, 0).1 == cluster_entries(
                        img,
                        g,
                        c,
                        base as int,
                        si * 16 + k,
                    ).1,
                decreases 16 - k,
            {
                let ghost kk = si * 16 + k;
                let e: &[u8] = slice_subrange(sec.as_slice(), k * 32, k * 32 + 32);
                proof {
                    let p = types::cluster_pos(g, c) + 32 * kk;
                    assert forall|i: int| 0 <= i < 32 implies #[trigger] e@[i] == slot(
                        img,
                        g,
                        c,
                        kk,
                    )[i] by {
                        assert(p + i == (lba0 + si) * 512 + k * 32 + i);
                        assert((p + i) / 512 == lba0 + si);
                        assert((p + i) % 512 == k * 32 + i);
                    }
                    assert(e@ =~= slot(img, g, c, kk));
                }
                let ghost es0 = types::entry_views(entries@);
                if e[0] == 0 {
                    assert(es0 + Seq::<EntryView>::empty() =~= es0);
                    return Some(true);
                }
                let off: u64 = base + si * 512 + k as u64 * 32;
                match decode_entry(e, off) {
                    Some(d) => {
                        let ghost dv = d@;
                        entries.push(d);
                        proof {
                            assert(types::entry_views(entries@) =~= es0.push(dv));
                            let rest = cluster_entries(img, g, c, base as int, kk + 1).0;
                            assert(es0 + (seq![dv] + rest) =~= es0.push(dv) + rest);
                        }
                    },
                    None => {},
                }
                k += 1;
            }
            si += 1;
        }
        assert(types::entry_views(entries@) + Seq::<EntryView>::empty() =~= types::entry_views(
            entries@,
        ));
        Some(false)
    }

    /// The entries of the directory that starts at a cluster; `None` where the
    /// device failed.
    fn try_read_dir(&mut self, cluster: u32) -> (r: Option<Vec<DirEntry>>)
        requires
            old(self).wf(),
        ensures
            final(self).same_volume(old(self)),
            final(self).img() == old(self).img(),
            final(self).faults() >= old(self).faults(),
            match r {
                Some(v) => final(self).faults() == old(self).faults() && types::entry_views(v@)
                    == dir_entries(old(self).img(), old(self).geometry(), cluster),
                None => final(self).faults() > old(self).faults(),
            },
    {
        let ghost g = self.geo;
        let ghost img = self.img();
        let csize: u64 = self.cluster_bytes();
        let mut entries: Vec<DirEntry> = Vec::new();
        let mut c: u32 = cluster;
        let mut base: u64 = 0;
        let mut left: u32 = MAX_WALK;
        assert(types::entry_views(entries@) + dir_entries(img, g, cluster) =~= dir_entries(
            img,
            g,
            cluster,
        ));
        loop
            invariant
                g == self.geo,
                self.wf(),
                img == old(self).img(),
                self.same_volume(old(self)),
                self.img() == img,
                self.faults() == old(self).faults(),
                old(self).geometry() == g,
                csize == types::cluster_size(g),
                left <= MAX_WALK,
                base == (MAX_WALK - left) * csize,
                dir_entries(img, g, cluster) == types::entry_views(entries@) + entries_from(
                    img,
                    g,
                    c,
                    base as int,
                    left as nat,
                ),
            decreases left,
        {
            let ghost v = types::entry_views(entries@);
            assert((MAX_WALK - left) * csize <= 0x1000_0000 * 0x1_0000) by (nonlinear_arith)
                requires
                    0 <= MAX_WALK - left <= 0x1000_0000,
                    0 <= csize <= 0x1_0000,
            ;
            match self.read_dir_cluster(c, base, &mut entries) {
                None => {
                    return None;
                },
                Some(end) => {
                    if end || left == 0 {
                        return Some(entries);
                    }
                },
            }
            let next: u32 = match self.read_entry(c) {
                Some(n) => n,
                None => {
                    return None;
                },
            };
            if next >= EOC || next == BAD_CLUSTER {
                return Some(entries);
            }
            proof {
                let (es, _end) = cluster_entries(img, g, c, base as int, 0);
                let rest = entries_from(img, g, next, base as int + csize, (left - 1) as nat);
                assert(v + (es + rest) =~= (v + es) + rest);
                assert((MAX_WALK - left) * csize + csize == (MAX_WALK - (left - 1)) * csize)
                    by (nonlinear_arith);
            }
            c = next;
            base = base + csize;
            left = left - 1;
        }
    }

    /// The entries of the directory that starts at a cluster; none where the
    /// device failed.
    pub fn read_dir(&mut self, cluster: u32) -> (r: Vec<DirEntry>)
        requires
            old(self).wf(),
        ensures
            final(self).same_volume(old(self)),
            final(self).img() == old(self).img(),
            final(self).faults() >= old(self).faults(),
            final(self).faults() == old(self).faults() ==> types::entry_views(r@) == dir_entries(
                old(self).img(),
                old(self).geometry(),
                cluster,
            ),
            final(self).faults() > old(self).faults() ==> r@.len() == 0,
    {
        match self.try_read_dir(cluster) {
            Some(v) => v,
            None => Vec::new(),
        }
    }

    /// The entry of a directory that a path component names; an error where the
    /// device failed.
    fn find_in(&mut self, dir: u32, part: &[u8]) -> (r: Result<Option<FileInfo>, ()>)
        requires
            old(self).wf(),
        ensures
            final(self).same_volume(old(self)),
            final(self).img() == old(self).img(),
            final(self).faults() >= old(self).faults(),
            match r {
                Ok(x) => final(self).faults() == old(self).faults() && x == named_in(
                    old(self).img(),
                    old(self).geometry(),
                    dir,
                    part@,
                ),
                Err(_) => final(self).faults() > old(self).faults(),
            },
    {
        proof {
            reveal(named_in);
        }
        let target: Vec<u8> = normalize_component(part);
        let entries: Vec<DirEntry> = match self.try_read_dir(dir) {
            Some(v) => v,
            None => {
                return Err(());
            },
        };
        match find_entry(&entries, &target) {
            None => Ok(None),
            Some(h) => {
                let hit: &DirEntry = &entries[h];
                Ok(
                    Some(
                        FileInfo {
                            first_cluster: hit.first_cluster,
                            size: hit.size,
                            is_dir: (hit.attr / 16) % 2 == 1,
                            dir_cluster: dir,
                            entry_off: hit.entry_off,
                        },
                    ),
                )
            },
        }
    }

    /// What a path such as `SUB/NOTES.TXT` leads to; an error where the device
    /// failed.
    pub fn try_find(&mut self, path: &[u8]) -> (r: Result<Option<FileInfo>, ()>)
        requires
            old(self).wf(),
        ensures
            final(self).same_volume(old(self)),
            final(self).img() == old(self).img(),
            final(self).faults() >= old(self).faults(),
            match r {
                Ok(x) => final(self).faults() == old(self).faults() && x == found(
                    old(self).img(),
                    old(self).geometry(),
                    path@,
                ),
                Err(_) => final(self).faults() > old(self).faults(),
            },
    {
        let p: &[u8] = strip_slashes(path);
        if p.len() == 0 {
            return Ok(None);
        }
        let ghost g = self.geo;
        let ghost img = self.img();
        let mut dir: u32 = self.geo.root_cluster;
        let mut i: usize = 0;
        assert(p@.skip(0) =~= p@);
        loop
            invariant
                i <= p.len(),
                g == self.geo,
                self.wf(),
                img == old(self).img(),
                self.same_volume(old(self)),
                self.img() == img,
                self.faults() == old(self).faults(),
                old(self).geometry() == g,
                found(img, g, path@) == lookup(
                    img,
                    g,
                    dir,
                    cwd::split_on(p@.skip(i as int), 47),
                ),
            decreases p.len() - i,
        {
            let j: usize = find_byte(p, i, 47);
            let part: &[u8] = slice_subrange(p, i, j);
            let ghost parts = cwd::split_on(p@.skip(i as int), 47);
            proof {
                lemma_split_step(p@, i as int, j as int);
            }
            if part.len() > 0 {
                match self.find_in(dir, part) {
                    Err(_) => {
                        return Err(());
                    },
                    Ok(None) => {
                        return Ok(None);
                    },
                    Ok(Some(hit)) => {
                        if j >= p.len() {
                            return Ok(Some(hit));
                        }
                        if !hit.is_dir {
                            return Ok(None);
                        }
                        dir = hit.first_cluster;
                    },
                }
            } else if j >= p.len() {
                assert(lookup(img, g, dir, parts.skip(1)) is None);
                return Ok(None);
            }
            i = j + 1;
        }
    }

    /// What a path such as `SUB/NOTES.TXT` leads to; nothing where the device
    /// failed.
    pub fn find(&mut self, path: &[u8]) -> (r: Option<FileInfo>)
        requires
            old(self).wf(),
        ensures
            final(self).same_volume(old(self)),
            final(self).img() == old(self).img(),
            final(self).faults() >= old(self).faults(),
            final(self).faults() == old(self).faults() ==> r == found(
                old(self).img(),
                old(self).geometry(),
                path@,
            ),
            final(self).faults() > old(self).faults() ==> r is None,
    {
        match self.try_find(path) {
            Ok(x) => x,
            Err(_) => None,
        }
    }

    /// The entries of the directory that a path leads to; none where the path
    /// leads nowhere or the device failed.
    pub fn list_dir(&mut self, path: &[u8]) -> (r: Vec<DirEntry>)
        requires
            old(self).wf(),
        ensures
            final(self).same_volume(old(self)),
            final(self).img() == old(self).img(),
            final(self).faults() >= old(self).faults(),
            final(self).faults() == old(self).faults() ==> types::entry_views(r@) == listed(
                old(self).img(),
                old(self).geometry(),
                path@,
            ),
            final(self).faults() > old(self).faults() ==> r@.len() == 0,
    {
        if strip_slashes(path).len() == 0 {
            return self.read_dir(self.geo.root_cluster);
        }
        match self.find(path) {
            Some(info) => self.read_dir(info.first_cluster),
            None => {
                let r: Vec<DirEntry> = Vec::new();
                assert(types::entry_views(r@) =~= Seq::empty());
                r
            },
        }
    }
}

/// The index of the first entry of that name.
fn find_entry(entries: &Vec<DirEntry>, key: &[u8]) -> (r: Option<usize>)
    ensures
        match r {
            Some(i) => i < entries.len() && first_named(types::entry_views(entries@), key@) == Some(
                entries@[i as int]@,
            ),
            None => first_named(types::entry_views(entries@), key@) is None,
        },
{
    let ghost es = types::entry_views(entries@);
    let mut i: usize = 0;
    assert(es.skip(0) =~= es);
    while i < entries.len()
        invariant
            i <= entries.len(),
            es == types::entry_views(entries@),
            first_named(es, key@) == first_named(es.skip(i as int), key@),
        decreases entries.len() - i,
    {
        assert(es.skip(i as int)[0] == entries@[i as int]@);
        assert(es.skip(i as int).skip(1) =~= es.skip(i + 1));
        if bytes_eq(&upper(&entries[i].name), key) {
            return Some(i);
        }
        i += 1;
    }
    None
}

} // verus!
