//! The allocation table: chains of clusters, allocation, free count.
use vstd::prelude::*;

use super::types;
use super::types::{Fat32, Geometry, BAD_CLUSTER, EOC, EOC_VAL};
use crate::bytes;
use crate::fs::block;
use crate::fs::block::BlockSource;

verus! {

/// A sector in which a range of bytes was replaced, written back.
pub proof fn lemma_sector_patch(img: block::Image, lba: u64, sec: Seq<u8>, a: int, d: Seq<u8>)
    requires
        lba < u64::MAX,
        sec.len() == 512,
        d.len() > 0,
        lba * 512 <= a,
        a + d.len() <= (lba + 1) * 512,
        img.dom().contains(lba),
        forall|k: int|
            0 <= k < 512 ==> #[trigger] sec[k] == (if a <= lba * 512 + k < a + d.len() {
                d[lba * 512 + k - a]
            } else {
                img[lba][k]
            }),
    ensures
        img.insert(lba, sec) == block::patched(img, a, d),
{
    assert forall|i: int| 0 <= i < 512 implies #[trigger] sec[i] == (if a <= lba * 512 + i < a
        + d.len() {
        d[lba * 512 + i - a]
    } else {
        block::byte_at(img, lba * 512 + i)
    }) by {
        assert((lba * 512 + i) / 512 == lba);
        assert((lba * 512 + i) % 512 == i);
    }
    assert(block::touched(lba, a, d.len() as int));
    block::lemma_run_is_patch(img, lba as int, 1, sec, a, d);
    assert(sec.subrange(0, 512) =~= sec);
    assert(block::with_run(img, lba as int, 0, sec) == img);
    assert(block::with_run(img, lba as int, 1, sec) == img.insert(lba, sec));
}

/// The entries of a cluster that the table has are in the sectors of the table.
pub proof fn lemma_entry_in_table(g: Geometry, c: u32, l: u64)
    requires
        c < types::cluster_limit(g),
        types::entry_sector(g, c, l),
    ensures
        types::table_sector(g, l),
{
    let f = choose|f: int| 0 <= f < g.num_fats && l == #[trigger] types::fat_lba(g, f, c);
    assert(c / 128 < g.fat_size);
    assert(0 <= f * g.fat_size) by (nonlinear_arith)
        requires
            0 <= f,
            0 <= g.fat_size,
    ;
    assert(f * g.fat_size + g.fat_size <= g.num_fats * g.fat_size) by (nonlinear_arith)
        requires
            f + 1 <= g.num_fats,
            0 <= g.fat_size,
    ;
}

/// Setting an entry in the first `n` copies changes the sectors of the entry.
proof fn lemma_entry_frame(img: block::Image, g: Geometry, c: u32, val: u32, n: nat)
    requires
        n <= g.num_fats,
    ensures
        types::same_but_entry(img, types::with_entry_in(img, g, c, val, n), g, c),
    decreases n,
{
    let r = types::with_entry_in(img, g, c, val, n);
    if n > 0 {
        let m = types::with_entry_in(img, g, c, val, (n - 1) as nat);
        lemma_entry_frame(img, g, c, val, (n - 1) as nat);
        let p = types::fat_pos(g, n - 1, c);
        let d = bytes::le_bytes(types::merged(types::le32_at(m, p), val) as nat, 4);
        bytes::lemma_le_bytes_len(types::merged(types::le32_at(m, p), val) as nat, 4);
        assert forall|l: u64| !types::entry_sector(g, c, l) implies #[trigger] block::same_sector(
            img,
            r,
            l,
        ) by {
            assert(block::same_sector(img, m, l));
            let s = types::fat_lba(g, n - 1, c);
            assert(l != s);
            assert(p == s * 512 + 4 * (c % 128)) by {
                assert(4 * c == 512 * (c / 128) + 4 * (c % 128));
            }
            assert(!block::touched(l, p, d.len() as int));
            if m.dom().contains(l) {
                assert(r[l] == m[l]);
            } else {
                assert(!r.dom().contains(l));
            }
        }
    }
}

/// Setting an entry of the table changes the sectors of the entry.
pub proof fn lemma_with_entry_frame(img: block::Image, g: Geometry, c: u32, val: u32)
    ensures
        types::same_but_entry(img, types::with_entry(img, g, c, val), g, c),
{
    lemma_entry_frame(img, g, c, val, g.num_fats as nat);
}

/// The four bytes of a little-endian field.
pub proof fn lemma_le4(x: nat)
    requires
        x < 0x1_0000_0000,
    ensures
        bytes::le_bytes(x, 4) == seq![
            (x % 256) as u8,
            (x / 256 % 256) as u8,
            (x / 65536 % 256) as u8,
            (x / 16777216 % 256) as u8,
        ],
{
    reveal_with_fuel(bytes::le_bytes, 5);
    assert(x / 256 / 256 == x / 65536);
    assert(x / 65536 / 256 == x / 16777216);
    assert(bytes::le_bytes(x, 4) =~= seq![
        (x % 256) as u8,
        (x / 256 % 256) as u8,
        (x / 65536 % 256) as u8,
        (x / 16777216 % 256) as u8,
    ]);
}

/// The 32-bit field at `off` of a sector.
fn sector_le32(sec: &[u8; 512], off: usize) -> (r: u32)
    requires
        off + 4 <= 512,
    ensures
        r == sec@[off as int] + 256 * sec@[off + 1] + 65536 * sec@[off + 2] + 16777216 * sec@[off
            + 3],
{
    sec[off] as u32 + 256 * (sec[off + 1] as u32) + 65536 * (sec[off + 2] as u32) + 16777216 * (
    sec[off + 3] as u32)
}

/// Puts a 32-bit field at `off` of a sector.
fn put_le32(sec: &mut [u8; 512], off: usize, x: u32)
    requires
        off + 4 <= 512,
    ensures
        forall|k: int|
            0 <= k < 512 ==> #[trigger] final(sec)@[k] == (if off <= k < off + 4 {
                bytes::le_bytes(x as nat, 4)[k - off]
            } else {
                old(sec)@[k]
            }),
{
    proof {
        lemma_le4(x as nat);
    }
    sec[off] = (x % 256) as u8;
    sec[off + 1] = (x / 256 % 256) as u8;
    sec[off + 2] = (x / 65536 % 256) as u8;
    sec[off + 3] = (x / 16777216 % 256) as u8;
}

impl<B: BlockSource> Fat32<B> {
    /// The entry of a cluster in the first copy of the table; `None` where it
    /// cannot be read.
    pub fn read_entry(&mut self, cluster: u32) -> (r: Option<u32>)
        requires
            old(self).wf(),
        ensures
            final(self).same_volume(old(self)),
            final(self).img() == old(self).img(),
            final(self).faults() >= old(self).faults(),
            match r {
                Some(v) => final(self).faults() == old(self).faults() && v == types::fat_value(
                    old(self).img(),
                    old(self).geometry(),
                    cluster,
                ) && v < 0x1000_0000,
                None => final(self).faults() > old(self).faults(),
            },
    {
        let lba: u64 = self.geo.fat_start as u64 + (cluster / 128) as u64;
        let off: usize = (cluster % 128) as usize * 4;
        let mut sec: [u8; 512] = [0u8; 512];
        if !self.disk.read_sector(lba, &mut sec) {
            return None;
        }
        proof {
            let p = types::fat_pos(self.geo, 0, cluster);
            assert(p == lba * 512 + off);
            assert(p / 512 == lba && p % 512 == off);
            assert((p + 1) / 512 == lba && (p + 1) % 512 == off + 1);
            assert((p + 2) / 512 == lba && (p + 2) % 512 == off + 2);
            assert((p + 3) / 512 == lba && (p + 3) % 512 == off + 3);
        }
        Some(sector_le32(&sec, off) % 0x1000_0000)
    }

    /// The entry of a cluster in the first copy of the table; a bad cluster
    /// where it cannot be read.
    pub fn fat_entry(&mut self, cluster: u32) -> (r: u32)
        requires
            old(self).wf(),
        ensures
            final(self).same_volume(old(self)),
            final(self).img() == old(self).img(),
            final(self).faults() >= old(self).faults(),
            final(self).faults() == old(self).faults() ==> r == types::fat_value(
                old(self).img(),
                old(self).geometry(),
                cluster,
            ),
            final(self).faults() > old(self).faults() ==> r == BAD_CLUSTER,
            r < 0x1000_0000,
    {
        match self.read_entry(cluster) {
            Some(v) => v,
            None => BAD_CLUSTER,
        }
    }

    /// The next cluster of a chain; `None` at its end or where the table
    /// cannot be read.
    pub fn next_cluster(&mut self, cluster: u32) -> (r: Option<u32>)
        requires
            old(self).wf(),
        ensures
            final(self).same_volume(old(self)),
            final(self).img() == old(self).img(),
            final(self).faults() >= old(self).faults(),
            final(self).faults() == old(self).faults() ==> r == types::next_in(
                old(self).img(),
                old(self).geometry(),
                cluster,
            ),
            final(self).faults() > old(self).faults() ==> r is None,
    {
        let v: u32 = self.fat_entry(cluster);
        if v >= EOC || v == BAD_CLUSTER {
            None
        } else {
            Some(v)
        }
    }

    /// Sets the entry of a cluster in every copy of the table.
    pub fn set_fat_entry(&mut self, cluster: u32, val: u32) -> (ok: bool)
        requires
            old(self).wf(),
        ensures
            final(self).same_volume(old(self)),
            ok == (final(self).faults() == old(self).faults()),
            final(self).faults() >= old(self).faults(),
            ok ==> final(self).img() == types::with_entry(
                old(self).img(),
                old(self).geometry(),
                cluster,
                val,
            ),
            types::same_but_entry(old(self).img(), final(self).img(), old(self).geometry(), cluster),
    {
        let ghost g = self.geo;
        let off: usize = (cluster % 128) as usize * 4;
        let mut f: u64 = 0;
        while f < self.geo.num_fats as u64
            invariant
                f <= self.geo.num_fats,
                g == self.geo,
                old(self).geometry() == g,
                g.fat_start <= 65535,
                off == (cluster % 128) * 4,
                self.same_volume(old(self)),
                self.faults() == old(self).faults(),
                self.img() == types::with_entry_in(old(self).img(), g, cluster, val, f as nat),
            decreases self.geo.num_fats - f,
        {
            let ghost m = self.img();
            let ghost p = types::fat_pos(g, f as int, cluster);
            assert(f * g.fat_size <= 255 * 0xFFFF_FFFF) by (nonlinear_arith)
                requires
                    0 <= f <= 255,
                    0 <= g.fat_size <= 0xFFFF_FFFF,
            ;
            let lba: u64 = self.geo.fat_start as u64 + f * (self.geo.fat_size as u64) + (cluster
                / 128) as u64;
            let mut sec: [u8; 512] = [0u8; 512];
            proof {
                lemma_entry_frame(old(self).img(), g, cluster, val, f as nat);
                assert(types::fat_lba(g, f as int, cluster) == lba);
            }
            if !self.disk.read_sector(lba, &mut sec) {
                return false;
            }
            proof {
                assert(p == lba * 512 + off);
                assert(p / 512 == lba && p % 512 == off);
                assert((p + 1) / 512 == lba && (p + 1) % 512 == off + 1);
                assert((p + 2) / 512 == lba && (p + 2) % 512 == off + 2);
                assert((p + 3) / 512 == lba && (p + 3) % 512 == off + 3);
            }
            let cur: u32 = sector_le32(&sec, off);
            let ghost old_sec = sec@;
            let next: u32 = (cur / 0x1000_0000) * 0x1000_0000 + val % 0x1000_0000;
            put_le32(&mut sec, off, next);
            proof {
                bytes::lemma_le_bytes_len(next as nat, 4);
                lemma_sector_patch(m, lba, sec@, p, bytes::le_bytes(next as nat, 4));
            }
            if !self.disk.write_sector(lba, &sec) {
                proof {
                    assert forall|l: u64|
                        !types::entry_sector(g, cluster, l) implies #[trigger] block::same_sector(
                        old(self).img(),
                        self.img(),
                        l,
                    ) by {
                        assert(l != lba);
                        assert(block::same_sector(old(self).img(), m, l));
                        assert(self.img().remove(lba).dom().contains(l)
                            == self.img().dom().contains(l));
                        assert(m.remove(lba).dom().contains(l) == m.dom().contains(l));
                        assert(self.img().remove(lba)[l] == self.img()[l]);
                        assert(m.remove(lba)[l] == m[l]);
                    }
                }
                return false;
            }
            f += 1;
        }
        proof {
            lemma_entry_frame(old(self).img(), g, cluster, val, f as nat);
        }
        true
    }

    /// Allocates the first free cluster and marks it as the end of a chain.
    /// The caller links it. Clusters whose entries cannot be read are passed
    /// over.
    pub fn alloc_one(&mut self) -> (r: Option<u32>)
        requires
            old(self).wf(),
        ensures
            final(self).same_volume(old(self)),
            final(self).faults() >= old(self).faults(),
            final(self).faults() == old(self).faults() ==> r == types::first_free(
                old(self).img(),
                old(self).geometry(),
                2,
            ),
            match r {
                Some(c) => types::free_cluster(old(self).img(), old(self).geometry(), c)
                    && final(self).img() == types::with_entry(
                    old(self).img(),
                    old(self).geometry(),
                    c,
                    EOC_VAL,
                ),
                None => {
                    &&& final(self).faults() == old(self).faults() ==> final(self).img() == old(
                        self,
                    ).img()
                    &&& types::same_but_table(
                        old(self).img(),
                        final(self).img(),
                        old(self).geometry(),
                    )
                },
            },
    {
        let ghost g = self.geo;
        let max: u64 = self.geo.fat_size as u64 * 128;
        let limit: u32 = if max < 0xFFFF_FFFF {
            max as u32
        } else {
            0xFFFF_FFFF
        };
        let mut c: u32 = 2;
        while c < limit
            invariant
                limit == types::cluster_limit(g),
                g == self.geo,
                2 <= c,
                old(self).geometry() == g,
                self.wf(),
                self.same_volume(old(self)),
                self.img() == old(self).img(),
                self.faults() >= old(self).faults(),
                self.faults() == old(self).faults() ==> types::first_free(old(self).img(), g, 2)
                    == types::first_free(old(self).img(), g, c),
            decreases limit - c,
        {
            if self.fat_entry(c) == 0 {
                if self.set_fat_entry(c, EOC_VAL) {
                    return Some(c);
                }
                proof {
                    assert forall|l: u64|
                        !types::table_sector(g, l) implies #[trigger] block::same_sector(
                        old(self).img(),
                        self.img(),
                        l,
                    ) by {
                        if types::entry_sector(g, c, l) {
                            lemma_entry_in_table(g, c, l);
                        }
                    }
                }
                return None;
            }
            c += 1;
        }
        None
    }

    /// The length of a chain and its last cluster; `None` if it is a loop or
    /// marked bad beyond its first cluster. An entry that cannot be read counts
    /// as bad.
    pub fn chain_tail(&mut self, start: u32) -> (r: Option<(u64, u32)>)
        requires
            old(self).wf(),
        ensures
            final(self).same_volume(old(self)),
            final(self).img() == old(self).img(),
            final(self).faults() >= old(self).faults(),
            final(self).faults() == old(self).faults() ==> (match r {
                Some((n, c)) => types::tail_of(old(self).img(), old(self).geometry(), start)
                    == Some((n as int, c)),
                None => types::tail_of(old(self).img(), old(self).geometry(), start) is None,
            }),
            final(self).faults() > old(self).faults() ==> start >= 2 && (r is None || r == Some(
                (1u64, start),
            )),
            r matches Some((n, _)) ==> n <= 0x80_0000_0000,
    {
        if start < 2 {
            return Some((0, 0));
        }
        let ghost g = self.geo;
        let max: u64 = self.geo.fat_size as u64 * 128;
        let mut len: u64 = 1;
        let mut c: u32 = start;
        while len <= max
            invariant
                1 <= len <= max + 1,
                len == 1 ==> c == start,
                start >= 2,
                max == g.fat_size * 128,
                g == self.geo,
                g.fat_size > 0,
                old(self).geometry() == g,
                self.wf(),
                self.same_volume(old(self)),
                self.img() == old(self).img(),
                self.faults() == old(self).faults(),
                types::tail_of(
                    old(self).img(),
                    g,
                    start,
                ) == (if len <= max {
                    types::tail_from(old(self).img(), g, c, len as int)
                } else {
                    None
                }),
            decreases max + 1 - len,
        {
            let v: u32 = self.fat_entry(c);
            if v == BAD_CLUSTER && len > 1 {
                return None;
            }
            if v == BAD_CLUSTER || v >= EOC {
                return Some((len, c));
            }
            c = v;
            len += 1;
        }
        None
    }

    /// Moves the count of free clusters and sets the hint for the next free
    /// one. A volume without that sector, or one that cannot be read, is left
    /// as it is.
    pub fn fsinfo_bump(&mut self, delta: i64, next_free: u32) -> (ok: bool)
        requires
            old(self).wf(),
            -0x1000_0000_0000_0000 <= delta <= 0x1000_0000_0000_0000,
        ensures
            final(self).same_volume(old(self)),
            final(self).faults() >= old(self).faults(),
            final(self).faults() == old(self).faults() ==> ok && final(self).img()
                == types::with_fsinfo(old(self).img(), delta as int, next_free),
            final(self).faults() > old(self).faults() ==> block::same_outside(
                old(self).img(),
                final(self).img(),
                512,
                512,
            ),
    {
        let ghost m = self.img();
        let mut sec: [u8; 512] = [0u8; 512];
        if !self.disk.read_sector(1, &mut sec) {
            return true;
        }
        proof {
            assert forall|k: int| 0 <= k < 512 implies #[trigger] sec@[k] == block::byte_at(
                m,
                512 + k,
            ) by {
                assert((512 + k) / 512 == 1 && (512 + k) % 512 == k);
            }
        }
        if sector_le32(&sec, 0) != 0x4161_5252 || sector_le32(&sec, 484) != 0x6141_7272 || sec[510]
            != 0x55 || sec[511] != 0xAA {
            return true;
        }
        let raw: i64 = sector_le32(&sec, 488) as i64 + delta;
        let free: u32 = if raw < 0 {
            0
        } else {
            (raw as u64 % 0x1_0000_0000) as u32
        };
        let ghost d = bytes::le_bytes(free as nat, 4) + bytes::le_bytes(next_free as nat, 4);
        put_le32(&mut sec, 488, free);
        put_le32(&mut sec, 492, next_free);
        proof {
            bytes::lemma_le_bytes_len(free as nat, 4);
            bytes::lemma_le_bytes_len(next_free as nat, 4);
            lemma_sector_patch(m, 1, sec@, 1000, d);
        }
        let ok: bool = self.disk.write_sector(1, &sec);
        proof {
            assert forall|l: u64| !block::touched(l, 512, 512) && !ok implies #[trigger] block::same_sector(
                m,
                self.img(),
                l,
            ) by {
                assert(l != 1);
                assert(self.img().remove(1).dom().contains(l) == self.img().dom().contains(l));
                assert(m.remove(1).dom().contains(l) == m.dom().contains(l));
                assert(self.img().remove(1)[l] == self.img()[l]);
                assert(m.remove(1)[l] == m[l]);
            }
        }
        ok
    }
}

} // verus!
