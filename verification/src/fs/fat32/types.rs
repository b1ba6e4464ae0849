//! The layout of a volume and what its bytes mean.
use vstd::prelude::*;

use crate::bytes;
use crate::fs::block;
use crate::fs::block::{BlockSource, Image};

verus! {

/// Values from here on end a chain of clusters.
pub const EOC: u32 = 0x0FFF_FFF8;

pub const BAD_CLUSTER: u32 = 0x0FFF_FFF7;

/// The value that marks the last cluster of a chain.
pub const EOC_VAL: u32 = 0x0FFF_FFFF;

/// How many different clusters there can be: a longer walk is a loop.
pub const MAX_WALK: u32 = 0x1000_0000;

/// Where the parts of a volume lie, in sectors, and its root directory.
#[derive(Clone, Copy, PartialEq, Eq, Debug, Structural)]
pub struct Geometry {
    /// Sectors per cluster.
    pub spc: u8,
    /// The first sector of the first allocation table.
    pub fat_start: u32,
    /// How many copies of the table there are.
    pub num_fats: u8,
    /// Sectors per copy.
    pub fat_size: u32,
    /// The first sector of cluster 2.
    pub data_start: u32,
    pub root_cluster: u32,
}

/// A volume.
pub struct Fat32<B: BlockSource> {
    pub disk: B,
    pub geo: Geometry,
    /// The serial number, if the boot sector holds one.
    pub vol_serial: Option<u32>,
    /// The label, padded with spaces.
    pub vol_label: Vec<u8>,
}

impl<B: BlockSource> Fat32<B> {
    /// The sectors of the volume.
    pub open spec fn img(&self) -> Image {
        self.disk.image()
    }

    /// How many transfers the device has failed.
    pub open spec fn faults(&self) -> nat {
        self.disk.faults()
    }

    pub open spec fn geometry(&self) -> Geometry {
        self.geo
    }

    /// What stays the same for as long as the volume is mounted.
    pub open spec fn identity(&self) -> (Geometry, Option<u32>, Seq<u8>) {
        (self.geo, self.vol_serial, self.vol_label@)
    }

    pub open spec fn wf(&self) -> bool {
        sound_geometry(self.geometry())
    }

    /// Nothing but the sectors and the count of faults may have changed.
    pub open spec fn same_volume(&self, before: &Fat32<B>) -> bool {
        self.identity() == before.identity() && self.geometry() == before.geometry()
    }
}

pub open spec fn power_of_two(n: u8) -> bool {
    n == 1 || n == 2 || n == 4 || n == 8 || n == 16 || n == 32 || n == 64 || n == 128
}

pub open spec fn sound_geometry(g: Geometry) -> bool {
    power_of_two(g.spc) && g.num_fats > 0 && g.fat_size > 0 && g.root_cluster >= 2 && g.fat_start
        <= 65535
}

/// Bytes per cluster.
pub open spec fn cluster_size(g: Geometry) -> int {
    g.spc * 512
}

/// The number of a cluster counted from the first one, modulo 2^32.
pub open spec fn cluster_index(c: u32) -> int {
    if c >= 2 {
        c - 2
    } else {
        c + 0x1_0000_0000 - 2
    }
}

/// The first sector of a cluster.
pub open spec fn cluster_lba(g: Geometry, c: u32) -> int {
    g.data_start + cluster_index(c) * g.spc
}

/// The position of the first byte of a cluster.
pub open spec fn cluster_pos(g: Geometry, c: u32) -> int {
    cluster_lba(g, c) * 512
}

/// A 32-bit little-endian field at a position of the device.
pub open spec fn le32_at(img: Image, p: int) -> int {
    block::byte_at(img, p) + 256 * block::byte_at(img, p + 1) + 65536 * block::byte_at(img, p + 2)
        + 16777216 * block::byte_at(img, p + 3)
}

/// The position of the entry of a cluster in copy `f` of the table.
pub open spec fn fat_pos(g: Geometry, f: int, c: u32) -> int {
    (g.fat_start + f * g.fat_size) * 512 + 4 * c
}

/// The entry of a cluster in the first copy: 28 bits.
pub open spec fn fat_value(img: Image, g: Geometry, c: u32) -> u32 {
    (le32_at(img, fat_pos(g, 0, c)) % 0x1000_0000) as u32
}

/// What an entry says comes next; `None` ends the chain.
pub open spec fn follows(v: u32) -> Option<u32> {
    if v >= EOC || v == BAD_CLUSTER {
        None
    } else {
        Some(v)
    }
}

/// The cluster behind `c` in its chain.
pub open spec fn next_in(img: Image, g: Geometry, c: u32) -> Option<u32> {
    follows(fat_value(img, g, c))
}

/// The cluster `n` steps behind `c`, if the chain is that long.
pub open spec fn nth_in(img: Image, g: Geometry, c: u32, n: nat) -> Option<u32>
    decreases n,
{
    if n == 0 {
        Some(c)
    } else {
        match nth_in(img, g, c, (n - 1) as nat) {
            Some(m) => next_in(img, g, m),
            None => None,
        }
    }
}

/// A value with the upper four bits of another.
pub open spec fn merged(cur: int, val: u32) -> int {
    (cur / 0x1000_0000) * 0x1000_0000 + val % 0x1000_0000
}

/// The image with the entry of `c` set in the first `n` copies of the table;
/// the upper four bits of each are kept.
pub open spec fn with_entry_in(img: Image, g: Geometry, c: u32, val: u32, n: nat) -> Image
    decreases n,
{
    if n == 0 {
        img
    } else {
        let m = with_entry_in(img, g, c, val, (n - 1) as nat);
        let p = fat_pos(g, n - 1, c);
        block::patched(m, p, bytes::le_bytes(merged(le32_at(m, p), val) as nat, 4))
    }
}

/// The image with the entry of `c` set in all copies of the table.
pub open spec fn with_entry(img: Image, g: Geometry, c: u32, val: u32) -> Image {
    with_entry_in(img, g, c, val, g.num_fats as nat)
}

/// The sector of the entry of a cluster in copy `f` of the table.
pub open spec fn fat_lba(g: Geometry, f: int, c: u32) -> int {
    g.fat_start + f * g.fat_size + c / 128
}

/// A sector holds the entry of a cluster in one of the copies of the table.
pub open spec fn entry_sector(g: Geometry, c: u32, l: u64) -> bool {
    exists|f: int| 0 <= f < g.num_fats && l == #[trigger] fat_lba(g, f, c)
}

/// A sector of one of the copies of the table.
pub open spec fn table_sector(g: Geometry, l: u64) -> bool {
    g.fat_start <= l < g.fat_start + g.num_fats * g.fat_size
}

/// No sector has changed, unless it holds the entry of a cluster.
pub open spec fn same_but_entry(img: Image, img2: Image, g: Geometry, c: u32) -> bool {
    forall|l: u64| !entry_sector(g, c, l) ==> #[trigger] block::same_sector(img, img2, l)
}

/// No sector has changed, unless it is one of the table.
pub open spec fn same_but_table(img: Image, img2: Image, g: Geometry) -> bool {
    forall|l: u64| !table_sector(g, l) ==> #[trigger] block::same_sector(img, img2, l)
}

/// A cluster that the table says is free.
pub open spec fn free_cluster(img: Image, g: Geometry, c: u32) -> bool {
    2 <= c < cluster_limit(g) && fat_value(img, g, c) == 0
}

/// Clusters from here on have no entry in the table.
pub open spec fn cluster_limit(g: Geometry) -> int {
    if g.fat_size * 128 < u32::MAX {
        g.fat_size * 128
    } else {
        u32::MAX as int
    }
}

/// The first free cluster from `c` on.
pub open spec fn first_free(img: Image, g: Geometry, c: u32) -> Option<u32>
    decreases cluster_limit(g) - c,
{
    if c >= cluster_limit(g) {
        None
    } else if fat_value(img, g, c) == 0 {
        Some(c)
    } else {
        first_free(img, g, (c + 1) as u32)
    }
}

/// The length of the chain from `c` on, where `len` clusters up to `c` have
/// been counted, and its last cluster. `None` if the chain is corrupt: longer
/// than the table has entries, which is a loop, or marked bad beyond its first
/// cluster.
pub open spec fn tail_from(img: Image, g: Geometry, c: u32, len: int) -> Option<(int, u32)>
    decreases g.fat_size * 128 - len,
{
    match next_in(img, g, c) {
        None => if len > 1 && fat_value(img, g, c) == BAD_CLUSTER {
            None
        } else {
            Some((len, c))
        },
        Some(n) => if len + 1 > g.fat_size * 128 {
            None
        } else {
            tail_from(img, g, n, len + 1)
        },
    }
}

/// The length of a chain and its last cluster; a start below 2 is no chain.
pub open spec fn tail_of(img: Image, g: Geometry, start: u32) -> Option<(int, u32)> {
    if start < 2 {
        Some((0, 0))
    } else {
        tail_from(img, g, start, 1)
    }
}

/// Sector 1 holds the count of free clusters.
pub open spec fn has_fsinfo(img: Image) -> bool {
    le32_at(img, 512) == 0x4161_5252 && le32_at(img, 996) == 0x6141_7272 && block::byte_at(
        img,
        1022,
    ) == 0x55 && block::byte_at(img, 1023) == 0xAA
}

/// The image with the count of free clusters moved by `delta` (never below 0)
/// and the hint for the next free one set.
pub open spec fn with_fsinfo(img: Image, delta: int, next_free: u32) -> Image {
    if has_fsinfo(img) {
        let free = le32_at(img, 1000) + delta;
        let free = if free < 0 {
            0
        } else {
            free % 0x1_0000_0000
        };
        block::patched(
            img,
            1000,
            bytes::le_bytes(free as nat, 4) + bytes::le_bytes(next_free as nat, 4),
        )
    } else {
        img
    }
}

/// An entry of a directory.
pub struct DirEntry {
    /// The 8.3 name without padding, such as `HELLO.TXT`.
    pub name: Vec<u8>,
    pub attr: u8,
    pub first_cluster: u32,
    pub size: u32,
    /// Where the entry stands in the bytes of the directory.
    pub entry_off: u64,
}

/// An entry of a directory as a value.
#[verifier::ext_equal]
pub struct EntryView {
    pub name: Seq<u8>,
    pub attr: u8,
    pub first_cluster: u32,
    pub size: u32,
    pub entry_off: int,
}

impl View for DirEntry {
    type V = EntryView;

    open spec fn view(&self) -> EntryView {
        EntryView {
            name: self.name@,
            attr: self.attr,
            first_cluster: self.first_cluster,
            size: self.size,
            entry_off: self.entry_off as int,
        }
    }
}

pub open spec fn entry_views(v: Seq<DirEntry>) -> Seq<EntryView> {
    Seq::new(v.len(), |i: int| v[i]@)
}

/// Where a file lies and where its directory entry stands.
#[derive(Clone, Copy, PartialEq, Eq, Debug, Structural)]
pub struct FileInfo {
    pub first_cluster: u32,
    pub size: u32,
    pub is_dir: bool,
    /// The first cluster of the directory that holds the entry.
    pub dir_cluster: u32,
    /// Where the entry stands in the bytes of that directory.
    pub entry_off: u64,
}

} // verus!
