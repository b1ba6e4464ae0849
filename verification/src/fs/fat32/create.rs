//! Creating and truncating files.
use vstd::prelude::*;
use vstd::slice::slice_subrange;

use super::dir;
use super::dir::{normalize_component, strip_slashes};
use super::fat;
use super::faults;
use super::file;
use super::types;
use super::types::{Fat32, FileInfo, Geometry, EOC_VAL, MAX_WALK};
use crate::bytes;
use crate::bytes::{append_bytes, find_byte, is_digit, repeat_byte};
use crate::fs::block;
use crate::fs::block::{BlockSource, Image};
use crate::shell::glob;

verus! {

/// The punctuation that an 8.3 name may hold: $%'-_@~`!(){}^#&
pub open spec fn name_mark(b: u8) -> bool {
    b == 36 || b == 37 || b == 39 || b == 45 || b == 95 || b == 64 || b == 126 || b == 96 || b == 33
        || b == 40 || b == 41 || b == 123 || b == 125 || b == 94 || b == 35 || b == 38
}

pub open spec fn name_char(b: u8) -> bool {
    65 <= b <= 90 || bytes::digit_byte(b) || name_mark(b)
}

pub open spec fn name_chars(s: Seq<u8>) -> bool {
    forall|i: int| 0 <= i < s.len() ==> name_char(#[trigger] s[i])
}

fn is_name_chars(s: &[u8]) -> (r: bool)
    ensures
        r == name_chars(s@),
{
    let mut i: usize = 0;
    while i < s.len()
        invariant
            i <= s.len(),
            forall|k: int| 0 <= k < i ==> name_char(#[trigger] s@[k]),
        decreases s.len() - i,
    {
        let b: u8 = s[i];
        let ok: bool = (65 <= b && b <= 90) || is_digit(b) || b == 36 || b == 37 || b == 39 || b
            == 45 || b == 95 || b == 64 || b == 126 || b == 96 || b == 33 || b == 40 || b == 41 || b
            == 123 || b == 125 || b == 94 || b == 35 || b == 38;
        if !ok {
            assert(!name_char(s@[i as int]));
            return false;
        }
        i += 1;
    }
    true
}

/// The 8.3 name that a path component stands for: up to eight and up to three
/// allowed characters.
pub open spec fn short_name(leaf: Seq<u8>) -> Option<(Seq<u8>, Seq<u8>)> {
    let norm = dir::component_key(leaf);
    let j = bytes::index_from(norm, 0, 46);
    let name = norm.take(j);
    let ext = if j < norm.len() {
        norm.skip(j + 1)
    } else {
        Seq::empty()
    };
    if name.len() == 0 || name.len() > 8 || ext.len() > 3 || j + 1 == norm.len() || !name_chars(
        name,
    ) || !name_chars(ext) {
        None
    } else {
        Some((name, ext))
    }
}

/// The 32 bytes of the entry of an empty file.
pub open spec fn fresh_entry(name: Seq<u8>, ext: Seq<u8>) -> Seq<u8> {
    name + bytes::filled(32, (8 - name.len()) as nat) + ext + bytes::filled(
        32,
        (3 - ext.len()) as nat,
    ) + seq![0x20u8] + bytes::filled(0, 20)
}

/// A slot that can be used: behind the end of the directory, or deleted.
pub open spec fn free_slot(e: Seq<u8>) -> bool {
    e[0] == 0 || e[0] == 0xE5
}

/// The first usable slot of a cluster from slot `k` on.
pub open spec fn slot_in(img: Image, g: Geometry, c: u32, k: int) -> Option<int>
    decreases dir::slots(g) - k,
{
    if k >= dir::slots(g) {
        None
    } else if free_slot(dir::slot(img, g, c, k)) {
        Some(k)
    } else {
        slot_in(img, g, c, k + 1)
    }
}

/// The outcome of the search for a slot: where it stands in the bytes of the
/// directory, or the last cluster of a full directory and its length.
pub enum Place {
    At(int),
    Full(u32, int),
    Endless,
}

/// The search for a slot from a cluster on.
pub open spec fn place_from(img: Image, g: Geometry, c: u32, base: int, fuel: nat) -> Place
    decreases fuel,
{
    match slot_in(img, g, c, 0) {
        Some(k) => Place::At(base + 32 * k),
        None => match types::next_in(img, g, c) {
            Some(n) => if fuel == 0 {
                Place::Endless
            } else {
                place_from(img, g, n, base + types::cluster_size(g), (fuel - 1) as nat)
            },
            None => Place::Full(c, base + types::cluster_size(g)),
        },
    }
}

/// A directory with room for one more entry: where the entry goes, and the
/// image, in which a full directory has got one more zeroed cluster.
pub open spec fn room_in(img: Image, g: Geometry, dir_cluster: u32) -> (Image, Option<int>) {
    match place_from(img, g, dir_cluster, 0, MAX_WALK as nat) {
        Place::At(off) => (img, Some(off)),
        Place::Full(last, off) => match types::first_free(img, g, 2) {
            Some(c) => {
                let img1 = types::with_entry(img, g, c, EOC_VAL);
                let img2 = block::patched(
                    img1,
                    types::cluster_pos(g, c),
                    bytes::filled(0, types::cluster_size(g) as nat),
                );
                let img3 = types::with_entry(img2, g, last, c);
                (types::with_fsinfo(img3, -1, (c + 1) as u32), Some(off))
            },
            None => (img, None),
        },
        Place::Endless => (img, None),
    }
}

/// The directory part of a path: all before its last `/`.
pub open spec fn parent_of(p: Seq<u8>) -> Seq<u8> {
    if glob::base_start(p) == 0 {
        Seq::empty()
    } else {
        p.take(glob::base_start(p) - 1)
    }
}

/// The directory in which the file of a path would be created.
pub open spec fn home_of(img: Image, g: Geometry, p: Seq<u8>) -> Option<u32> {
    if parent_of(p).len() == 0 {
        Some(g.root_cluster)
    } else {
        match dir::found(img, g, parent_of(p)) {
            Some(info) => if info.is_dir && info.first_cluster >= 2 {
                Some(info.first_cluster)
            } else {
                None
            },
            None => None,
        }
    }
}

/// Creating an empty file: the image, and whether it was created.
pub open spec fn created(img: Image, g: Geometry, path: Seq<u8>) -> (Image, bool) {
    let p = dir::stripped(path);
    match (short_name(p.skip(glob::base_start(p))), home_of(img, g, p)) {
        (Some((name, ext)), Some(home)) => if p.len() == 0 || dir::found(img, g, p) is Some {
            (img, false)
        } else {
            match room_in(img, g, home) {
                (img1, Some(off)) => match file::entry_pos(img1, g, home, off) {
                    Some(pos) => (block::patched(img1, pos, fresh_entry(name, ext)), true),
                    None => (img1, false),
                },
                (img1, None) => (img1, false),
            }
        },
        _ => (img, false),
    }
}

/// The result of a search for a slot.
pub enum Slot {
    At(u64),
    Full(u32, u64),
    Endless,
}

impl View for Slot {
    type V = Place;

    open spec fn view(&self) -> Place {
        match *self {
            Slot::At(off) => Place::At(off as int),
            Slot::Full(c, off) => Place::Full(c, off as int),
            Slot::Endless => Place::Endless,
        }
    }
}

/// The chain from `c` on set free, and how many clusters that were; at most
/// `fuel` of them.
pub open spec fn freed(img: Image, g: Geometry, c: u32, fuel: nat) -> (Image, int)
    decreases fuel,
{
    if fuel == 0 || c < 2 {
        (img, 0)
    } else {
        let img1 = types::with_entry(img, g, c, 0);
        match types::next_in(img, g, c) {
            Some(n) => {
                let (img2, k) = freed(img1, g, n, (fuel - 1) as nat);
                (img2, k + 1)
            },
            None => (img1, 1),
        }
    }
}

/// Truncating a file to nothing: the directory entry is set first, so that it
/// never names clusters that are free; then the chain is set free.
pub open spec fn truncated(img: Image, g: Geometry, info: FileInfo) -> (Image, bool) {
    if info.is_dir {
        (img, false)
    } else {
        match file::entry_patched(img, g, info.dir_cluster, info.entry_off as int, 0, 0) {
            (img1, true) => {
                let (img2, n) = freed(img1, g, info.first_cluster, MAX_WALK as nat);
                if n == 0 {
                    (img2, true)
                } else {
                    (types::with_fsinfo(img2, n, info.first_cluster), true)
                }
            },
            (img1, false) => (img1, false),
        }
    }
}

/// A directory that was to get a cluster when a transfer failed.
proof fn lemma_room_torn(
    img: Image,
    g: Geometry,
    last: u32,
    c: u32,
    marked: Image,
    blank: Image,
    img2: Image,
)
    requires
        types::free_cluster(img, g, c),
        marked == types::with_entry(img, g, c, EOC_VAL),
        block::same_outside(marked, blank, types::cluster_pos(g, c), types::cluster_size(g)),
        types::same_but_entry(blank, img2, g, last),
    ensures
        forall|l: u64|
            !types::table_sector(g, l) && !types::entry_sector(g, last, l) && !block::touched(
                l,
                types::cluster_pos(g, c),
                types::cluster_size(g),
            ) ==> #[trigger] block::same_sector(img, img2, l),
{
    fat::lemma_with_entry_frame(img, g, c, EOC_VAL);
    assert forall|l: u64|
        !types::table_sector(g, l) && !types::entry_sector(g, last, l) && !block::touched(
            l,
            types::cluster_pos(g, c),
            types::cluster_size(g),
        ) implies #[trigger] block::same_sector(img, img2, l) by {
        if types::entry_sector(g, c, l) {
            fat::lemma_entry_in_table(g, c, l);
        }
        assert(block::same_sector(img, marked, l));
        assert(block::same_sector(marked, blank, l));
        assert(block::same_sector(blank, img2, l));
    }
}

fn split_name(leaf: &[u8]) -> (r: Option<(Vec<u8>, Vec<u8>)>)
    ensures
        match r {
            Some((n, e)) => short_name(leaf@) == Some((n@, e@)),
            None => short_name(leaf@) is None,
        },
{
    let norm: Vec<u8> = normalize_component(leaf);
    let j: usize = find_byte(&norm, 0, 46);
    let name: &[u8] = slice_subrange(&norm, 0, j);
    assert(name@ =~= norm@.take(j as int));
    let from: usize = if j < norm.len() {
        j + 1
    } else {
        j
    };
    let ext: &[u8] = slice_subrange(&norm, from, norm.len());
    assert(ext@ =~= (if j < norm@.len() {
        norm@.skip(j + 1)
    } else {
        Seq::empty()
    }));
    if name.len() == 0 || name.len() > 8 || ext.len() > 3 || j + 1 == norm.len() {
        return None;
    }
    if !is_name_chars(name) || !is_name_chars(ext) {
        return None;
    }
    Some((bytes::copy_of(name), bytes::copy_of(ext)))
}

fn new_entry(name: &[u8], ext: &[u8]) -> (r: Vec<u8>)
    requires
        name.len() <= 8,
        ext.len() <= 3,
    ensures
        r@ == fresh_entry(name@, ext@),
        r@.len() == 32,
{
    let mut d: Vec<u8> = bytes::copy_of(name);
    append_bytes(&mut d, &repeat_byte(32, 8 - name.len()));
    append_bytes(&mut d, ext);
    append_bytes(&mut d, &repeat_byte(32, 3 - ext.len()));
    d.push(0x20);
    append_bytes(&mut d, &repeat_byte(0, 20));
    assert(d@ =~= fresh_entry(name@, ext@));
    d
}

impl<B: BlockSource> Fat32<B> {
    /// The first usable slot of a cluster. `Err` where the device failed.
    fn slot_of(&mut self, c: u32) -> (r: Result<Option<u64>, ()>)
        requires
            old(self).wf(),
        ensures
            final(self).same_volume(old(self)),
            final(self).img() == old(self).img(),
            final(self).faults() >= old(self).faults(),
            (r is Err) == (final(self).faults() > old(self).faults()),
            r matches Ok(s) ==> (match s {
                Some(k) => slot_in(old(self).img(), old(self).geometry(), c, 0) == Some(k as int)
                    && k < dir::slots(old(self).geometry()),
                None => slot_in(old(self).img(), old(self).geometry(), c, 0) is None,
            }),
    {
        let ghost g = self.geo;
        let ghost img = self.img();
        let spc: u64 = self.geo.spc as u64;
        let lba0: u64 = self.lba_of(c);
        let mut si: u64 = 0;
        while si < spc
            invariant
                si <= spc,
                spc == g.spc,
                lba0 == types::cluster_lba(g, c),
                lba0 <= 0x100_0000_0000,
                g == self.geo,
                img == old(self).img(),
                old(self).geometry() == g,
                self.same_volume(old(self)),
                self.img() == img,
                self.faults() == old(self).faults(),
                slot_in(img, g, c, 0) == slot_in(img, g, c, si * 16),
            decreases spc - si,
        {
            let mut sec: [u8; 512] = [0u8; 512];
            if !self.disk.read_sector(lba0 + si, &mut sec) {
                return Err(());
            }
            let mut k: usize = 0;
            while k < 16
                invariant
                    k <= 16,
                    si < spc,
                    spc == g.spc,
                    lba0 == types::cluster_lba(g, c),
                    sec@ == img[(lba0 + si) as u64],
                    lba0 <= 0x100_0000_0000,
                    g == self.geo,
                    img == old(self).img(),
                    old(self).geometry() == g,
                    self.same_volume(old(self)),
                    self.img() == img,
                    self.faults() == old(self).faults(),
                    slot_in(img, g, c, 0) == slot_in(img, g, c, si * 16 + k),
                decreases 16 - k,
            {
                let first: u8 = sec[k * 32];
                proof {
                    let kk = si * 16 + k;
                    let p = types::cluster_pos(g, c) + 32 * kk;
                    assert(p == (lba0 + si) * 512 + k * 32);
                    assert(p / 512 == lba0 + si);
                    assert(p % 512 == k * 32);
                    assert(dir::slot(img, g, c, kk)[0] == block::byte_at(img, p));
                }
                if first == 0 || first == 0xE5 {
                    return Ok(Some(si * 16 + k as u64));
                }
                k += 1;
            }
            si += 1;
        }
        Ok(None)
    }

    /// Looks for a usable slot in a directory. `Err` where the device failed.
    fn find_slot(&mut self, dir_cluster: u32) -> (r: Result<Slot, ()>)
        requires
            old(self).wf(),
        ensures
            final(self).same_volume(old(self)),
            final(self).img() == old(self).img(),
            final(self).faults() >= old(self).faults(),
            match r {
                Ok(s) => final(self).faults() == old(self).faults() && s@ == place_from(
                    old(self).img(),
                    old(self).geometry(),
                    dir_cluster,
                    0,
                    MAX_WALK as nat,
                ),
                Err(_) => final(self).faults() > old(self).faults(),
            },
    {
        let ghost g = self.geo;
        let ghost img = self.img();
        let csize: u64 = self.cluster_bytes();
        let mut c: u32 = dir_cluster;
        let mut base: u64 = 0;
        let mut left: u32 = MAX_WALK;
        loop
            invariant
                g == self.geo,
                self.wf(),
                img == old(self).img(),
                old(self).geometry() == g,
                self.same_volume(old(self)),
                self.img() == img,
                self.faults() == old(self).faults(),
                csize == types::cluster_size(g),
                left <= MAX_WALK,
                base == (MAX_WALK - left) * csize,
                place_from(img, g, dir_cluster, 0, MAX_WALK as nat) == place_from(
                    img,
                    g,
                    c,
                    base as int,
                    left as nat,
                ),
            decreases left,
        {
            assert((MAX_WALK - left) * csize <= 0x1000_0000 * 0x1_0000) by (nonlinear_arith)
                requires
                    0 <= MAX_WALK - left <= 0x1000_0000,
                    0 <= csize <= 0x1_0000,
            ;
            match self.slot_of(c) {
                Err(_) => {
                    return Err(());
                },
                Ok(Some(k)) => {
                    return Ok(Slot::At(base + 32 * k));
                },
                Ok(None) => {},
            }
            let next: u32 = match self.read_entry(c) {
                Some(v) => v,
                None => {
                    return Err(());
                },
            };
            if next >= types::EOC || next == types::BAD_CLUSTER {
                return Ok(Slot::Full(c, base + csize));
            }
            if left == 0 {
                return Ok(Slot::Endless);
            }
            assert((MAX_WALK - left) * csize + csize == (MAX_WALK - (left - 1)) * csize)
                by (nonlinear_arith);
            c = next;
            base = base + csize;
            left = left - 1;
        }
    }

    /// Makes room for an entry in a directory. Returns where it goes.
    fn make_room(&mut self, dir_cluster: u32) -> (r: Option<u64>)
        requires
            old(self).wf(),
        ensures
            final(self).same_volume(old(self)),
            final(self).faults() >= old(self).faults(),
            final(self).faults() == old(self).faults() ==> ({
                let (img, off) = room_in(old(self).img(), old(self).geometry(), dir_cluster);
                final(self).img() == img && (match r {
                    Some(x) => off == Some(x as int),
                    None => off is None,
                })
            }),
            match r {
                Some(off) => faults::room_outcome(
                    old(self).img(),
                    old(self).geometry(),
                    dir_cluster,
                    off as int,
                    final(self).img(),
                ),
                None => final(self).img() == old(self).img() || faults::room_refused(
                    old(self).img(),
                    old(self).geometry(),
                    dir_cluster,
                    final(self).img(),
                ),
            },
    {
        let ghost g = self.geo;
        let ghost img = self.img();
        match self.find_slot(dir_cluster) {
            Err(_) => None,
            Ok(Slot::At(off)) => Some(off),
            Ok(Slot::Endless) => None,
            Ok(Slot::Full(last, off)) => {
                let c: u32 = match self.alloc_one() {
                    Some(c) => c,
                    None => {
                        return None;
                    },
                };
                let ghost marked = self.img();
                if !self.zero_cluster(c) {
                    proof {
                        lemma_room_torn(img, g, last, c, marked, self.img(), self.img());
                    }
                    return None;
                }
                let ghost blank = self.img();
                if !self.set_fat_entry(last, c) {
                    proof {
                        lemma_room_torn(img, g, last, c, marked, blank, self.img());
                    }
                    return None;
                }
                let ghost linked = self.img();
                let _ok: bool = self.fsinfo_bump(-1, c + 1);
                proof {
                    assert(linked == faults::with_room(img, g, last, c));
                    assert(types::free_cluster(img, g, c));
                }
                Some(off)
            },
        }
    }

    /// Creates an empty file. Fails where the name is no 8.3 name, the
    /// directory is not there, the file is there already, there is no room
    /// for its entry, or the device fails.
    pub fn create_file(&mut self, path: &[u8]) -> (ok: bool)
        requires
            old(self).wf(),
        ensures
            final(self).same_volume(old(self)),
            final(self).faults() >= old(self).faults(),
            final(self).faults() == old(self).faults() ==> (final(self).img(), ok) == created(
                old(self).img(),
                old(self).geometry(),
                path@,
            ),
            faults::create_outcome(
                old(self).img(),
                old(self).geometry(),
                path@,
                ok,
                final(self).img(),
            ),
            ok ==> ({
                let p = dir::stripped(path@);
                &&& short_name(p.skip(glob::base_start(p))) matches Some((name, ext))
                &&& exists|q: int| #[trigger]
                    block::bytes_at(final(self).img(), q, 32) == fresh_entry(name, ext)
            }),
    {
        let ghost g = self.geo;
        let ghost img = self.img();
        let p: &[u8] = strip_slashes(path);
        let b: usize = glob::find_base(p);
        let leaf: &[u8] = slice_subrange(p, b, p.len());
        assert(leaf@ =~= p@.skip(b as int));
        let (name, ext): (Vec<u8>, Vec<u8>) = match split_name(leaf) {
            Some(ne) => ne,
            None => {
                return false;
            },
        };
        if p.len() == 0 {
            return false;
        }
        let mut home: u32 = self.geo.root_cluster;
        if b > 1 {
            let parent: &[u8] = slice_subrange(p, 0, b - 1);
            assert(parent@ =~= parent_of(p@));
            match self.try_find(parent) {
                Ok(Some(info)) => {
                    if !(info.is_dir && info.first_cluster >= 2) {
                        return false;
                    }
                    home = info.first_cluster;
                },
                _ => {
                    return false;
                },
            }
        }
        match self.try_find(p) {
            Ok(None) => {},
            _ => {
                return false;
            },
        }
        let off: u64 = match self.make_room(home) {
            Some(off) => off,
            None => {
                return false;
            },
        };
        let ghost mid = self.img();
        let e: Vec<u8> = new_entry(&name, &ext);
        let (lba, at): (u64, u64) = match self.dir_entry_pos(home, off) {
            Some(x) => x,
            None => {
                assert(faults::slot_outcome(mid, g, home, off as int, e@, false, self.img()));
                return false;
            },
        };
        let ghost pos = lba * 512 + at;
        let ok: bool = self.patch_span(lba, at, &e);
        proof {
            if ok {
                assert forall|i: int| 0 <= i < 32 implies block::byte_at(self.img(), pos + i)
                    == e@[i] by {
                    assert(block::touched(((pos + i) / 512) as u64, pos, 32));
                    block::law_patch_reads_back(mid, pos, e@, pos + i);
                }
                assert(block::bytes_at(self.img(), pos, 32) =~= e@);
            }
        }
        assert(faults::slot_outcome(mid, g, home, off as int, e@, ok, self.img()));
        ok
    }

    /// Sets the chain from `c` on free. Returns how many clusters that were,
    /// or `None` where the device failed.
    fn free_chain(&mut self, c: u32) -> (r: Option<u32>)
        requires
            old(self).wf(),
        ensures
            final(self).same_volume(old(self)),
            final(self).faults() >= old(self).faults(),
            final(self).faults() == old(self).faults() ==> (r matches Some(n) && (
            final(self).img(),
            n as int,
            ) == freed(old(self).img(), old(self).geometry(), c, MAX_WALK as nat)),
            final(self).faults() > old(self).faults() ==> r is None && faults::freed_part(
                old(self).img(),
                old(self).geometry(),
                c,
                MAX_WALK as nat,
                final(self).img(),
            ),
            r matches Some(n) ==> n <= MAX_WALK,
    {
        let ghost g = self.geo;
        let ghost goal = freed(self.img(), g, c, MAX_WALK as nat);
        let mut cl: u32 = c;
        let mut n: u32 = 0;
        while n < MAX_WALK && cl >= 2
            invariant
                n <= MAX_WALK,
                g == self.geo,
                self.wf(),
                old(self).geometry() == g,
                self.same_volume(old(self)),
                self.faults() == old(self).faults(),
                goal == freed(old(self).img(), g, c, MAX_WALK as nat),
                goal == ({
                    let (i, k) = freed(self.img(), g, cl, (MAX_WALK - n) as nat);
                    (i, n + k)
                }),
                forall|x: Image| #[trigger]
                    faults::freed_part(self.img(), g, cl, (MAX_WALK - n) as nat, x)
                        ==> faults::freed_part(old(self).img(), g, c, MAX_WALK as nat, x),
            decreases MAX_WALK - n,
        {
            let ghost cur = self.img();
            let ghost left = (MAX_WALK - n) as nat;
            let v: u32 = match self.read_entry(cl) {
                Some(v) => v,
                None => {
                    assert(faults::freed_part(cur, g, cl, left, self.img()));
                    return None;
                },
            };
            if !self.set_fat_entry(cl, 0) {
                assert(faults::freed_part(cur, g, cl, left, self.img()));
                return None;
            }
            n = n + 1;
            if v >= types::EOC || v == types::BAD_CLUSTER {
                return Some(n);
            }
            proof {
                assert forall|x: Image| #[trigger]
                    faults::freed_part(
                        self.img(),
                        g,
                        v,
                        (MAX_WALK - n) as nat,
                        x,
                    ) implies faults::freed_part(old(self).img(), g, c, MAX_WALK as nat, x) by {
                    assert(faults::freed_part(cur, g, cl, left, x));
                }
            }
            cl = v;
        }
        Some(n)
    }

    /// Truncates a file to nothing. Where the device fails, the file is not
    /// said to be truncated.
    pub fn truncate(&mut self, info: &FileInfo) -> (ok: bool)
        requires
            old(self).wf(),
        ensures
            final(self).same_volume(old(self)),
            final(self).faults() >= old(self).faults(),
            final(self).faults() == old(self).faults() ==> (final(self).img(), ok) == truncated(
                old(self).img(),
                old(self).geometry(),
                *info,
            ),
            faults::truncate_outcome(
                old(self).img(),
                old(self).geometry(),
                *info,
                ok,
                final(self).img(),
            ),
    {
        if info.is_dir {
            return false;
        }
        if !self.patch_entry(info.dir_cluster, info.entry_off, 0, 0) {
            return false;
        }
        match self.free_chain(info.first_cluster) {
            Some(n) => {
                if n > 0 {
                    let _ok: bool = self.fsinfo_bump(n as i64, info.first_cluster);
                }
                true
            },
            None => false,
        }
    }
}

} // verus!
