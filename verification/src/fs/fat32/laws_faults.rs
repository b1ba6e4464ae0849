//! What holds of a file whose write was broken off by a failed transfer.
use vstd::prelude::*;

use super::faults;
use super::file;
use super::laws;
use super::types;
use super::types::{FileInfo, Geometry};
use crate::fs::block;
use crate::fs::block::Image;

verus! {

/// A byte of a sector that has not changed is kept.
proof fn lemma_byte_same(img: Image, img2: Image, a: int, n: int, q: int)
    requires
        block::same_outside(img, img2, a, n),
        0 <= q < 512 * u64::MAX,
        !block::touched((q / 512) as u64, a, n),
        img.dom().contains((q / 512) as u64),
    ensures
        block::byte_at(img2, q) == block::byte_at(img, q),
{
    assert(block::same_sector(img, img2, (q / 512) as u64));
}

/// A sector with a byte outside a cluster holds none of the cluster's bytes.
proof fn lemma_not_touched(g: Geometry, c: u32, rel: int, n: int, q: int)
    requires
        0 <= rel,
        rel + n <= types::cluster_size(g),
        0 <= q < 512 * u64::MAX,
        q < types::cluster_pos(g, c) || types::cluster_pos(g, c) + types::cluster_size(g) <= q,
    ensures
        !block::touched((q / 512) as u64, types::cluster_pos(g, c) + rel, n),
{
    let l = (q / 512) as u64;
    assert(l == q / 512);
    assert(types::cluster_pos(g, c) == types::cluster_lba(g, c) * 512);
    assert(types::cluster_size(g) == g.spc * 512);
}

/// Sectors of a cluster whose write failed are none of the table: its entries
/// are kept.
proof fn lemma_fault_keeps_entries(
    img: Image,
    img2: Image,
    g: Geometry,
    c: u32,
    rel: int,
    n: int,
    other: u32,
)
    requires
        laws::sound_layout(g),
        laws::tables_present(img, g),
        laws::real_cluster(g, c),
        0 <= rel,
        rel + n <= types::cluster_size(g),
        block::same_outside(img, img2, types::cluster_pos(g, c) + rel, n),
        other < g.fat_size * 128,
    ensures
        types::fat_value(img2, g, other) == types::fat_value(img, g, other),
{
    let a = types::cluster_pos(g, c) + rel;
    let p = types::fat_pos(g, 0, other);
    laws::lemma_cluster_behind(g, c);
    laws::lemma_entry_present(img, g, 0, other);
    assert forall|k: int| p <= k < p + 4 implies #[trigger] block::byte_at(img2, k)
        == block::byte_at(img, k) by {
        assert(img.dom().contains((k / 512) as u64));
        lemma_not_touched(g, c, rel, n, k);
        lemma_byte_same(img, img2, a, n, k);
    }
    assert(block::byte_at(img2, p + 1) == block::byte_at(img, p + 1));
    assert(block::byte_at(img2, p + 2) == block::byte_at(img, p + 2));
    assert(block::byte_at(img2, p + 3) == block::byte_at(img, p + 3));
}

/// A failed write into a cluster keeps the chain as it is.
proof fn lemma_fault_keeps_nth(
    img: Image,
    img2: Image,
    g: Geometry,
    c: u32,
    rel: int,
    len: int,
    first: u32,
    n: nat,
    k: nat,
)
    requires
        laws::sound_layout(g),
        laws::tables_present(img, g),
        laws::real_cluster(g, c),
        0 <= rel,
        rel + len <= types::cluster_size(g),
        block::same_outside(img, img2, types::cluster_pos(g, c) + rel, len),
        laws::sound_chain(img, g, first, n),
        k < n,
    ensures
        types::nth_in(img2, g, first, k) == types::nth_in(img, g, first, k),
    decreases k,
{
    if k > 0 {
        lemma_fault_keeps_nth(img, img2, g, c, rel, len, first, n, (k - 1) as nat);
        assert(types::nth_in(img, g, first, (k - 1) as nat) is Some);
        let m = types::nth_in(img, g, first, (k - 1) as nat)->0;
        lemma_fault_keeps_entries(img, img2, g, c, rel, len, m);
    }
}

/// A failed write into cluster `i` of a file keeps the bytes of all its other
/// clusters.
proof fn lemma_fault_keeps_byte(
    img: Image,
    img2: Image,
    g: Geometry,
    first: u32,
    n: nat,
    i: nat,
    rel: int,
    len: int,
    p: int,
)
    requires
        laws::sound_layout(g),
        laws::tables_present(img, g),
        laws::sound_chain(img, g, first, n),
        i < n,
        0 <= rel,
        rel + len <= types::cluster_size(g),
        block::same_outside(
            img,
            img2,
            types::cluster_pos(g, types::nth_in(img, g, first, i)->0) + rel,
            len,
        ),
        0 <= p < n * types::cluster_size(g),
        p / types::cluster_size(g) != i,
    ensures
        file::file_byte(img2, g, first, p) == file::file_byte(img, g, first, p),
{
    let c = types::nth_in(img, g, first, i)->0;
    assert(types::nth_in(img, g, first, i) is Some);
    laws::lemma_file_byte_present(img, g, first, n, p);
    let j = (p / types::cluster_size(g)) as nat;
    let cj = types::nth_in(img, g, first, j)->0;
    let q = file::file_pos(img, g, first, p);
    lemma_fault_keeps_nth(img, img2, g, c, rel, len, first, n, j);
    if j < i {
        assert(types::nth_in(img, g, first, j) != types::nth_in(img, g, first, i));
    } else {
        assert(types::nth_in(img, g, first, i) != types::nth_in(img, g, first, j));
    }
    laws::lemma_clusters_apart(g, c, cj);
    lemma_not_touched(g, c, rel, len, q);
    lemma_byte_same(img, img2, types::cluster_pos(g, c) + rel, len, q);
}

/// What pouring data into a sound chain, from byte `rel` of its cluster `i` on,
/// does to the bytes of the file where a transfer fails.
proof fn lemma_part_bytes(
    img: Image,
    g: Geometry,
    first: u32,
    n: nat,
    i: nat,
    rel: int,
    d: Seq<u8>,
    r: int,
    img2: Image,
)
    requires
        laws::sound_layout(g),
        laws::tables_present(img, g),
        laws::sound_chain(img, g, first, n),
        i < n,
        0 <= rel < types::cluster_size(g),
        i * types::cluster_size(g) + rel + d.len() <= n * types::cluster_size(g),
        faults::poured_part(img, g, types::nth_in(img, g, first, i)->0, rel, d, r, img2),
    ensures
        ({
            let cs = types::cluster_size(g);
            let start = i * cs + rel;
            &&& 0 <= r < d.len()
            &&& r > 0 ==> (start + r) % cs == 0
            &&& forall|k: nat|
                k < n ==> #[trigger] types::nth_in(img2, g, first, k) == types::nth_in(
                    img,
                    g,
                    first,
                    k,
                )
            &&& forall|p: int|
                0 <= p < n * cs && p / cs != (start + r) / cs ==> #[trigger] file::file_byte(
                    img2,
                    g,
                    first,
                    p,
                ) == (if start <= p < start + r {
                    d[p - start]
                } else {
                    file::file_byte(img, g, first, p)
                })
        }),
    decreases d.len(),
{
    let cs = types::cluster_size(g);
    assert(types::nth_in(img, g, first, i) is Some);
    let c = types::nth_in(img, g, first, i)->0;
    let start = i * cs + rel;
    let k = file::min(cs - rel, d.len() as int);
    faults::lemma_part_is_short(img, g, c, rel, d, r, img2);
    if r == 0 {
        vstd::arithmetic::div_mod::lemma_fundamental_div_mod_converse(start, cs, i as int, rel);
        assert forall|m: nat| m < n implies #[trigger] types::nth_in(img2, g, first, m)
            == types::nth_in(img, g, first, m) by {
            lemma_fault_keeps_nth(img, img2, g, c, rel, k, first, n, m);
        }
        assert forall|p: int|
            0 <= p < n * cs && p / cs != (start + r) / cs implies #[trigger] file::file_byte(
            img2,
            g,
            first,
            p,
        ) == file::file_byte(img, g, first, p) by {
            lemma_fault_keeps_byte(img, img2, g, first, n, i, rel, k, p);
        }
    } else {
        let part = d.take(k);
        let img1 = block::patched(img, types::cluster_pos(g, c) + rel, part);
        laws::lemma_patch_keeps_chain(img, g, c, rel, part, first, n);
        assert forall|p: int| 0 <= p < n * cs implies #[trigger] file::file_byte(img1, g, first, p)
            == (if start <= p < start + k {
            d[p - start]
        } else {
            file::file_byte(img, g, first, p)
        }) by {
            laws::lemma_one_patch(img, g, first, n, i, rel, part, p);
        }
        assert(i + 1 < n) by {
            assert((i + 1) * cs < n * cs) by (nonlinear_arith)
                requires
                    i * cs + rel + d.len() <= n * cs,
                    cs - rel < d.len(),
            ;
            assert(i + 1 < n) by (nonlinear_arith)
                requires
                    (i + 1) * cs < n * cs,
                    cs > 0,
            ;
        }
        assert(types::nth_in(img1, g, first, i + 1) == types::nth_in(img, g, first, i + 1));
        assert(types::nth_in(img, g, first, i + 1) is Some);
        assert(types::nth_in(img1, g, first, i) == Some(c));
        let c1 = types::nth_in(img1, g, first, i + 1)->0;
        assert(types::next_in(img1, g, c) == Some(c1));
        assert((i + 1) * cs == i * cs + cs) by (nonlinear_arith);
        let rest = d.skip(k);
        lemma_part_bytes(img1, g, first, n, i + 1, 0, rest, r - k, img2);
        if r == k {
            vstd::arithmetic::div_mod::lemma_fundamental_div_mod_converse(
                start + r,
                cs,
                (i + 1) as int,
                0,
            );
        }
        assert forall|p: int|
            0 <= p < n * cs && p / cs != (start + r) / cs implies #[trigger] file::file_byte(
            img2,
            g,
            first,
            p,
        ) == (if start <= p < start + r {
            d[p - start]
        } else {
            file::file_byte(img, g, first, p)
        }) by {
            assert(file::file_byte(img1, g, first, p) == (if start <= p < start + k {
                d[p - start]
            } else {
                file::file_byte(img, g, first, p)
            }));
        }
    }
}

/// What a broken-off write reports has been written: those bytes of the file are
/// the data. It reports whole clusters, and of the cluster that could not be
/// written nothing is said; every other byte of the file is kept, and its chain
/// is the same.
pub proof fn law_reported_bytes_are_written(
    img: Image,
    g: Geometry,
    info: FileInfo,
    n: nat,
    offset: int,
    data: Seq<u8>,
    r: int,
    img2: Image,
)
    requires
        laws::sound_layout(g),
        laws::tables_present(img, g),
        laws::sound_chain(img, g, info.first_cluster, n),
        info.size <= n * types::cluster_size(g),
        0 <= offset < info.size,
        faults::overwritten_part(img, g, info, offset, data, r, img2),
    ensures
        0 <= r < file::min(data.len() as int, info.size - offset),
        r > 0 ==> (offset + r) % types::cluster_size(g) == 0,
        forall|k: nat|
            k < n ==> #[trigger] types::nth_in(img2, g, info.first_cluster, k) == types::nth_in(
                img,
                g,
                info.first_cluster,
                k,
            ),
        forall|p: int|
            offset <= p < offset + r ==> #[trigger] file::file_byte(img2, g, info.first_cluster, p)
                == data[p - offset],
        forall|p: int|
            0 <= p < n * types::cluster_size(g) && !(offset <= p < offset + r) && p
                / types::cluster_size(g) != (offset + r) / types::cluster_size(g)
                ==> #[trigger] file::file_byte(img2, g, info.first_cluster, p) == file::file_byte(
                img,
                g,
                info.first_cluster,
                p,
            ),
{
    let cs = types::cluster_size(g);
    let first = info.first_cluster;
    let m = file::min(data.len() as int, info.size - offset);
    let d = data.take(m);
    laws::lemma_file_byte_present(img, g, first, n, offset);
    let i = (offset / cs) as nat;
    vstd::arithmetic::div_mod::lemma_fundamental_div_mod(offset, cs);
    assert(cs * i == i * cs) by (nonlinear_arith);
    lemma_part_bytes(img, g, first, n, i, offset % cs, d, r, img2);
    assert forall|p: int| offset <= p < offset + r implies #[trigger] file::file_byte(
        img2,
        g,
        first,
        p,
    ) == data[p - offset] by {
        assert(p / cs != (offset + r) / cs) by (nonlinear_arith)
            requires
                cs > 0,
                p < offset + r,
                (offset + r) % cs == 0,
        ;
    }
}

} // verus!
