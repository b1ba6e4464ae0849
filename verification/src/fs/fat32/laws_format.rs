//! Where a volume has what: the fields of the boot sector, the copies of the
//! table, the clusters, and the count of free ones.
use vstd::prelude::*;

use super::create;
use super::dir;
use super::file;
use super::laws;
use super::local;
use super::mount;
use super::types;
use super::types::{FileInfo, Geometry};
use crate::bytes;
use crate::fs::block;
use crate::fs::block::Image;
use crate::fs::codes::{ERR_ISDIR, ERR_NOTFOUND, O_CREAT, O_TRUNC};

verus! {

// ── The boot sector ──

/// A two-byte field, least significant byte first.
pub open spec fn field16(b: Seq<u8>, at: int) -> int {
    b[at] + 256 * b[at + 1]
}

/// A four-byte field, least significant byte first.
pub open spec fn field32(b: Seq<u8>, at: int) -> int {
    b[at] + 256 * b[at + 1] + 65536 * b[at + 2] + 16777216 * b[at + 3]
}

proof fn lemma_fields(b: Seq<u8>, at: int)
    ensures
        bytes::le_value(b, at, 2) == field16(b, at),
        bytes::le_value(b, at, 4) == field32(b, at),
{
    reveal_with_fuel(bytes::le_value, 5);
}

/// A boot sector describes a volume if it is signed, its sectors have 512 bytes,
/// and it has clusters, tables and a root directory. The tables follow the
/// reserved sectors, one behind the other, and the clusters follow the tables.
pub proof fn law_boot_sector_describes_the_volume(b: Seq<u8>)
    requires
        b.len() == 512,
        field16(b, 14) + b[16] * field32(b, 36) <= u32::MAX,
    ensures
        ({
            let sound = b[510] == 0x55 && b[511] == 0xAA && field16(b, 11) == 512
                && types::power_of_two(b[13]) && b[16] > 0 && field32(b, 36) > 0 && field32(b, 44)
                >= 2;
            match mount::boot_geometry(b) {
                Some(g) => {
                    &&& sound
                    &&& g.spc == b[13]
                    &&& g.fat_start == field16(b, 14)
                    &&& g.num_fats == b[16]
                    &&& g.fat_size == field32(b, 36)
                    &&& g.root_cluster == field32(b, 44)
                    &&& g.data_start == g.fat_start + g.num_fats * g.fat_size
                },
                None => !sound,
            }
        }),
{
    lemma_fields(b, 11);
    lemma_fields(b, 14);
    lemma_fields(b, 36);
    lemma_fields(b, 44);
    assert(b[16] * field32(b, 36) >= 0) by (nonlinear_arith)
        requires
            b[16] >= 0,
            field32(b, 36) >= 0,
    ;
}

/// Serial number and label stand behind the mark of the extended fields, which
/// is at byte 66, or on older volumes at byte 67.
pub proof fn law_serial_and_label_stand_behind_the_mark(b: Seq<u8>)
    requires
        b.len() == 512,
    ensures
        b[66] == 0x29 ==> mount::boot_serial(b) == Some(field32(b, 67) as u32) && mount::boot_label(
            b,
        ) == b.subrange(71, 82),
        b[66] != 0x29 && b[67] == 0x29 ==> mount::boot_serial(b) == Some(field32(b, 68) as u32)
            && mount::boot_label(b) == b.subrange(72, 83),
        b[66] != 0x29 && b[67] != 0x29 ==> mount::boot_serial(b) is None,
{
    lemma_fields(b, 67);
    lemma_fields(b, 68);
}

/// The label without the spaces behind it: those and nothing else are taken off.
pub proof fn law_label_loses_its_padding(l: Seq<u8>, n: nat)
    requires
        l.len() > 0 ==> l.last() != 32,
    ensures
        mount::trimmed(l + bytes::filled(32, n)) == l,
    decreases n,
{
    let p = l + bytes::filled(32, n);
    if n == 0 {
        assert(p =~= l);
    } else {
        assert(p.drop_last() =~= l + bytes::filled(32, (n - 1) as nat));
        law_label_loses_its_padding(l, (n - 1) as nat);
    }
}

// ── Clusters ──

/// Clusters lie one behind the other, from cluster 2 at the start of the data on,
/// each as long as the boot sector says.
pub proof fn law_clusters_follow_each_other(g: Geometry, c: u32)
    requires
        2 <= c < u32::MAX,
    ensures
        types::cluster_pos(g, 2) == g.data_start * 512,
        types::cluster_pos(g, (c + 1) as u32) == types::cluster_pos(g, c) + types::cluster_size(g),
        types::cluster_size(g) == 512 * g.spc,
{
    assert((c - 1) * g.spc == (c - 2) * g.spc + g.spc) by (nonlinear_arith);
    assert(types::cluster_index((c + 1) as u32) == c - 1);
    assert(0 * g.spc == 0);
}

/// The bytes of a file are those of its clusters, in the order of its chain: byte
/// `j` of the `k`th cluster is byte `j` behind the `k` clusters before it.
pub proof fn law_file_is_its_clusters_in_order(
    img: Image,
    g: Geometry,
    first: u32,
    k: nat,
    j: int,
    c: u32,
)
    requires
        types::nth_in(img, g, first, k) == Some(c),
        c >= 2,
        0 <= j < types::cluster_size(g),
    ensures
        file::file_byte(img, g, first, k * (512 * g.spc) + j) == block::byte_at(
            img,
            (g.data_start + (c - 2) * g.spc) * 512 + j,
        ),
{
    let cs = types::cluster_size(g);
    let p = k * cs + j;
    assert(p / cs == k && p % cs == j) by (nonlinear_arith)
        requires
            p == k * cs + j,
            0 <= j < cs,
    ;
}

/// The cluster behind another is the one that the table names: 28 bits of its
/// entry in the first copy. Marks of the end and of bad clusters end the chain.
pub proof fn law_table_names_the_next_cluster(img: Image, g: Geometry, c: u32)
    ensures
        ({
            let e = types::le32_at(img, g.fat_start * 512 + 4 * c) % 0x1000_0000;
            types::next_in(img, g, c) == if e >= 0x0FFF_FFF7 {
                None
            } else {
                Some(e as u32)
            }
        }),
{
    assert(0 * g.fat_size == 0);
}

proof fn lemma_copies(img: Image, g: Geometry, c: u32, v: u32, n: nat, f: int)
    requires
        types::sound_geometry(g),
        laws::tables_present(img, g),
        c < g.fat_size * 128,
        n <= g.num_fats,
        0 <= f < g.num_fats,
    ensures
        types::le32_at(types::with_entry_in(img, g, c, v, n), types::fat_pos(g, f, c)) == (if f
            < n {
            types::merged(types::le32_at(img, types::fat_pos(g, f, c)), v)
        } else {
            types::le32_at(img, types::fat_pos(g, f, c))
        }),
    decreases n,
{
    if n > 0 {
        let m = types::with_entry_in(img, g, c, v, (n - 1) as nat);
        let p = types::fat_pos(g, n - 1, c);
        let q = types::fat_pos(g, f, c);
        lemma_copies(img, g, c, v, (n - 1) as nat, f);
        lemma_copies(img, g, c, v, (n - 1) as nat, n - 1);
        laws::lemma_with_entry_in(img, g, c, v, c, (n - 1) as nat);
        laws::lemma_le32_range(m, p);
        laws::lemma_merged(types::le32_at(m, p), v);
        let x = types::merged(types::le32_at(m, p), v) as nat;
        let d = bytes::le_bytes(x, 4);
        bytes::lemma_le_bytes_len(x, 4);
        laws::lemma_entry_present(img, g, n - 1, c);
        laws::lemma_entry_present(img, g, f, c);
        if f == n - 1 {
            laws::lemma_le32_put(m, p, x);
        } else {
            assert(p + 4 <= q || q + 4 <= p) by {
                if f < n - 1 {
                    assert((f + 1) * g.fat_size <= (n - 1) * g.fat_size) by (nonlinear_arith)
                        requires
                            f + 1 <= n - 1,
                            g.fat_size >= 0,
                    ;
                } else {
                    assert(n * g.fat_size <= f * g.fat_size) by (nonlinear_arith)
                        requires
                            n <= f,
                            g.fat_size >= 0,
                    ;
                }
            }
            laws::lemma_le32_kept(m, p, d, q);
        }
    }
}

/// An entry that is set is set in every copy of the table, and its upper four
/// bits stay what they were in each.
pub proof fn law_every_copy_is_set(img: Image, g: Geometry, c: u32, v: u32, f: int)
    requires
        types::sound_geometry(g),
        laws::tables_present(img, g),
        c < g.fat_size * 128,
        0 <= f < g.num_fats,
    ensures
        ({
            let p = (g.fat_start + f * g.fat_size) * 512 + 4 * c;
            let was = types::le32_at(img, p);
            let is = types::le32_at(types::with_entry(img, g, c, v), p);
            is % 0x1000_0000 == v % 0x1000_0000 && is / 0x1000_0000 == was / 0x1000_0000
        }),
{
    let p = types::fat_pos(g, f, c);
    lemma_copies(img, g, c, v, g.num_fats as nat, f);
    laws::lemma_le32_range(img, p);
    laws::lemma_merged(types::le32_at(img, p), v);
}

// ── The count of free clusters ──

/// The count of free clusters, at byte 488 of sector 1, moves by as many as were taken or given back, and
/// never below zero; the hint is the one that was given. A volume without that
/// sector stays as it is.
pub proof fn law_free_count_moves(img: Image, delta: int, hint: u32)
    requires
        img.dom().contains(1),
    ensures
        ({
            let img2 = types::with_fsinfo(img, delta, hint);
            let was = types::le32_at(img, 1000);
            let want = was + delta;
            &&& types::has_fsinfo(img) && 0 <= want <= u32::MAX ==> types::le32_at(
                img2,
                1000,
            ) == want
            &&& types::has_fsinfo(img) && want < 0 ==> types::le32_at(img2, 1000) == 0
            &&& types::has_fsinfo(img) ==> types::le32_at(img2, 1004) == hint
            &&& types::has_fsinfo(img) ==> types::has_fsinfo(img2)
            &&& !types::has_fsinfo(img) ==> img2 == img
        }),
{
    if types::has_fsinfo(img) {
        let free = types::le32_at(img, 1000) + delta;
        let x = if free < 0 {
            0
        } else {
            free % 0x1_0000_0000
        };
        let a = bytes::le_bytes(x as nat, 4);
        let b = bytes::le_bytes(hint as nat, 4);
        bytes::lemma_le_bytes_len(x as nat, 4);
        bytes::lemma_le_bytes_len(hint as nat, 4);
        let m = block::patched(img, 1000, a);
        block::lemma_patch_join(img, 1000, a, b);
        laws::lemma_patch_dom(img, 1000, a);
        assert forall|k: int| 1000 <= k < 1008 implies #[trigger] img.dom().contains(
            (k / 512) as u64,
        ) by {}
        laws::lemma_le32_put(img, 1000, x as nat);
        laws::lemma_le32_put(m, 1004, hint as nat);
        assert forall|k: int| 512 <= k < 1024 implies #[trigger] m.dom().contains(
            (k / 512) as u64,
        ) by {}
        laws::lemma_le32_kept(m, 1004, b, 1000);
        laws::lemma_le32_kept(img, 1000, a, 512);
        laws::lemma_le32_kept(m, 1004, b, 512);
        laws::lemma_le32_kept(img, 1000, a, 996);
        laws::lemma_le32_kept(m, 1004, b, 996);
        laws::lemma_byte_kept(img, 1000, a, 1022);
        laws::lemma_byte_kept(m, 1004, b, 1022);
        laws::lemma_byte_kept(img, 1000, a, 1023);
        laws::lemma_byte_kept(m, 1004, b, 1023);
    }
}

// ── Reads, and what is known of a file ──

/// A read gives what was asked for, up to the end of the file: never more, and
/// not less where the chain is as long as the file.
pub proof fn law_read_goes_up_to_the_end(
    img: Image,
    g: Geometry,
    info: FileInfo,
    offset: int,
    count: int,
    n: nat,
)
    requires
        0 <= offset,
        0 <= count,
        g.spc > 0,
        types::nth_in(img, g, info.first_cluster, n) is Some,
        info.size <= (n + 1) * types::cluster_size(g),
        forall|k: nat|
            k <= n ==> (#[trigger] types::nth_in(img, g, info.first_cluster, k)) is Some,
    ensures
        file::read_len(img, g, info, offset, count) == (if offset >= info.size {
            0
        } else if count <= info.size - offset {
            count
        } else {
            info.size - offset
        }),
{
    let cs = types::cluster_size(g);
    if offset < info.size && count > 0 {
        let len = file::min(count, info.size - offset);
        let last = (offset + len - 1) / cs;
        assert(last <= n) by (nonlinear_arith)
            requires
                last == (offset + len - 1) / cs,
                offset + len - 1 < (n + 1) * cs,
                cs > 0,
        ;
        assert(last >= 0) by (nonlinear_arith)
            requires
                last == (offset + len - 1) / cs,
                offset + len - 1 >= 0,
                cs > 0,
        ;
        file::lemma_chain_len(img, g, info.first_cluster, last as nat, (last + 1) as nat);
        let have = file::chain_len(img, g, info.first_cluster, (last + 1) as nat);
        assert(types::nth_in(img, g, info.first_cluster, last as nat) is Some);
        assert(have >= last + 1);
        assert(have * cs >= offset + len) by (nonlinear_arith)
            requires
                have >= last + 1,
                last == (offset + len - 1) / cs,
                cs > 0,
        ;
    }
}

/// What is known of a path is what is found there: its size, and whether it is a
/// directory; of what is not there nothing is known.
pub proof fn law_stat_tells_what_is_found(img: Image, g: Geometry, path: Seq<u8>)
    ensures
        match dir::found(img, g, path) {
            Some(info) => {
                &&& local::fat_meta(img, g, path) matches Ok(m)
                &&& m.size == info.size
                &&& m.kind == (if info.is_dir {
                    1u8
                } else {
                    0u8
                })
                &&& !m.readonly
            },
            None => local::fat_meta(img, g, path) == Err::<crate::fs::provider::Meta, u64>(
                ERR_NOTFOUND,
            ),
        },
{
}

/// Opening does no more than it is asked for: without the flag to create nothing
/// comes to be, without the flag to empty nothing is lost, and a directory is
/// not opened.
pub proof fn law_open_does_what_it_is_asked(img: Image, g: Geometry, path: Seq<u8>, flags: u32)
    requires
        dir::stripped(path) == path,
        path.len() > 0,
    ensures
        dir::found(img, g, path) is None && flags & O_CREAT == 0 ==> local::fat_opened(
            img,
            g,
            path,
            flags,
        ) == (img, Err::<FileInfo, u64>(ERR_NOTFOUND)),
        dir::found(img, g, path) matches Some(info) ==> {
            &&& info.is_dir ==> local::fat_opened(img, g, path, flags) == (
                img,
                Err::<FileInfo, u64>(ERR_ISDIR),
            )
            &&& !info.is_dir && flags & O_TRUNC == 0 ==> local::fat_opened(img, g, path, flags)
                == (img, Ok::<FileInfo, u64>(info))
            &&& !info.is_dir && flags & O_TRUNC != 0 ==> local::fat_opened(
                img,
                g,
                path,
                flags,
            ).0 == create::truncated(img, g, info).0
        },
{
}

/// A cluster has a power of two of sectors: their number divides 128.
pub proof fn law_cluster_is_a_power_of_two(n: u8)
    ensures
        types::power_of_two(n) <==> n > 0 && 128u8 % n == 0,
{
    assert((n == 1 || n == 2 || n == 4 || n == 8 || n == 16 || n == 32 || n == 64 || n == 128) == (
    n > 0 && 128u8 % n == 0)) by (bit_vector);
}

} // verus!
