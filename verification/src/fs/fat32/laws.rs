//! What holds of volumes across operations.
use vstd::prelude::*;

use super::dir;
use super::fat;
use super::file;
use super::types;
use super::types::{FileInfo, Geometry};
use crate::bytes;
use crate::fs::block;
use crate::fs::block::Image;

verus! {

/// The data area lies behind all copies of the table.
pub open spec fn sound_layout(g: Geometry) -> bool {
    types::sound_geometry(g) && g.fat_start + g.num_fats * g.fat_size <= g.data_start
}

/// A cluster with an entry of its own in the table.
pub open spec fn real_cluster(g: Geometry, c: u32) -> bool {
    2 <= c && c < g.fat_size * 128
}

/// Every sector of the tables is there.
pub open spec fn tables_present(img: Image, g: Geometry) -> bool {
    forall|l: u64|
        g.fat_start <= l < g.fat_start + g.num_fats * g.fat_size ==> #[trigger] img.dom().contains(l)
}

/// Every sector of a cluster is there.
pub open spec fn cluster_present(img: Image, g: Geometry, c: u32) -> bool {
    forall|l: u64|
        types::cluster_lba(g, c) <= l < types::cluster_lba(g, c) + g.spc
            ==> #[trigger] img.dom().contains(l)
}

pub proof fn lemma_copy_order(g: Geometry, f: int)
    requires
        1 <= f,
        g.fat_size >= 0,
    ensures
        f * g.fat_size >= g.fat_size,
{
    assert(f * g.fat_size >= g.fat_size) by (nonlinear_arith)
        requires
            1 <= f,
            g.fat_size >= 0,
    ;
}

/// The bytes of a field that lies wholly outside a patch are kept.
pub proof fn lemma_le32_kept(img: Image, a: int, d: Seq<u8>, p: int)
    requires
        0 <= a,
        0 <= p,
        p + 4 <= 512 * u64::MAX,
        p + 4 <= a || a + d.len() <= p,
        forall|k: int| p <= k < p + 4 ==> #[trigger] img.dom().contains((k / 512) as u64),
    ensures
        types::le32_at(block::patched(img, a, d), p) == types::le32_at(img, p),
{
    lemma_byte_kept(img, a, d, p);
    lemma_byte_kept(img, a, d, p + 1);
    lemma_byte_kept(img, a, d, p + 2);
    lemma_byte_kept(img, a, d, p + 3);
}

/// A byte outside a patch is kept.
pub proof fn lemma_byte_kept(img: Image, a: int, d: Seq<u8>, p: int)
    requires
        0 <= p < 512 * u64::MAX,
        p < a || a + d.len() <= p,
        img.dom().contains((p / 512) as u64),
    ensures
        block::byte_at(block::patched(img, a, d), p) == block::byte_at(img, p),
{
    let l = (p / 512) as u64;
    assert(l == p / 512);
}

/// A byte inside a patch is the byte that was put there.
pub proof fn lemma_byte_put(img: Image, a: int, d: Seq<u8>, p: int)
    requires
        0 <= p < 512 * u64::MAX,
        a <= p < a + d.len(),
        img.dom().contains((p / 512) as u64),
    ensures
        block::byte_at(block::patched(img, a, d), p) == d[p - a],
{
    let l = (p / 512) as u64;
    assert(l == p / 512);
    assert(block::touched(l, a, d.len() as int));
}

/// The sectors of an entry of the table are there.
pub proof fn lemma_entry_present(img: Image, g: Geometry, f: int, c: u32)
    requires
        tables_present(img, g),
        0 <= f < g.num_fats,
        c < g.fat_size * 128,
    ensures
        0 <= types::fat_pos(g, f, c),
        types::fat_pos(g, f, c) + 4 <= (g.fat_start + g.num_fats * g.fat_size) * 512,
        types::fat_pos(g, f, c) + 4 <= (g.fat_start + (f + 1) * g.fat_size) * 512,
        (g.fat_start + f * g.fat_size) * 512 <= types::fat_pos(g, f, c),
        g.num_fats * g.fat_size <= 255 * 0xFFFF_FFFF,
        forall|k: int|
            types::fat_pos(g, f, c) <= k < types::fat_pos(g, f, c) + 4
                ==> #[trigger] img.dom().contains((k / 512) as u64),
{
    assert(0 <= f * g.fat_size) by (nonlinear_arith)
        requires
            0 <= f,
            0 <= g.fat_size,
    ;
    assert((f + 1) * g.fat_size == f * g.fat_size + g.fat_size) by (nonlinear_arith);
    assert((f + 1) * g.fat_size <= g.num_fats * g.fat_size) by (nonlinear_arith)
        requires
            f + 1 <= g.num_fats,
            0 <= g.fat_size,
    ;
    assert(g.num_fats * g.fat_size <= 255 * 0xFFFF_FFFF) by (nonlinear_arith)
        requires
            0 <= g.num_fats <= 255,
            0 <= g.fat_size <= 0xFFFF_FFFF,
    ;
    let p = types::fat_pos(g, f, c);
    assert forall|k: int| p <= k < p + 4 implies #[trigger] img.dom().contains(
        (k / 512) as u64,
    ) by {
        assert(k / 512 >= g.fat_start + f * g.fat_size);
        assert(k / 512 < g.fat_start + (f + 1) * g.fat_size);
    }
}

/// A number is the sum of its four digits to the base 256.
proof fn lemma_four_digits(x: nat)
    requires
        x < 0x1_0000_0000,
    ensures
        x == x % 256 + 256 * (x / 256 % 256) + 65536 * (x / 65536 % 256) + 16777216 * (x / 16777216
            % 256),
{
    let x1 = x / 256;
    let x2 = x1 / 256;
    let x3 = x2 / 256;
    assert(x == 256 * x1 + x % 256);
    assert(x1 == 256 * x2 + x1 % 256);
    assert(x2 == 256 * x3 + x2 % 256);
    assert(x2 == x / 65536);
    assert(x3 == x / 16777216);
    assert(x3 < 256);
}

/// The field that a little-endian patch holds.
pub proof fn lemma_le32_put(img: Image, p: int, x: nat)
    requires
        0 <= p,
        p + 4 <= 512 * u64::MAX,
        x < 0x1_0000_0000,
        forall|k: int| p <= k < p + 4 ==> #[trigger] img.dom().contains((k / 512) as u64),
    ensures
        types::le32_at(block::patched(img, p, bytes::le_bytes(x, 4)), p) == x,
{
    let d = bytes::le_bytes(x, 4);
    fat::lemma_le4(x);
    lemma_byte_put(img, p, d, p);
    lemma_byte_put(img, p, d, p + 1);
    lemma_byte_put(img, p, d, p + 2);
    lemma_byte_put(img, p, d, p + 3);
    lemma_four_digits(x);
}

pub proof fn lemma_le32_range(img: Image, p: int)
    ensures
        0 <= types::le32_at(img, p) < 0x1_0000_0000,
{
}

pub proof fn lemma_patch_dom(img: Image, a: int, d: Seq<u8>)
    ensures
        block::patched(img, a, d).dom() == img.dom(),
{
    assert(block::patched(img, a, d).dom() =~= img.dom());
}

/// Setting 28 bits keeps a 32-bit value in range and gives those bits back.
pub proof fn lemma_merged(cur: int, v: u32)
    requires
        0 <= cur < 0x1_0000_0000,
    ensures
        0 <= types::merged(cur, v) < 0x1_0000_0000,
        types::merged(cur, v) % 0x1000_0000 == v % 0x1000_0000,
{
}

/// The entry of `c2` in the first copy, once that of `c` was set in copy `f`.
proof fn lemma_set_copy(m: Image, g: Geometry, c: u32, v: u32, c2: u32, f: int)
    requires
        types::sound_geometry(g),
        tables_present(m, g),
        c < g.fat_size * 128,
        c2 < g.fat_size * 128,
        0 <= f < g.num_fats,
    ensures
        ({
            let p = types::fat_pos(g, f, c);
            let r = block::patched(
                m,
                p,
                bytes::le_bytes(types::merged(types::le32_at(m, p), v) as nat, 4),
            );
            &&& r.dom() == m.dom()
            &&& types::fat_value(r, g, c2) == (if c2 == c && f == 0 {
                (v % 0x1000_0000) as u32
            } else {
                types::fat_value(m, g, c2)
            })
        }),
{
    let p = types::fat_pos(g, f, c);
    let q = types::fat_pos(g, 0, c2);
    let x = types::merged(types::le32_at(m, p), v) as nat;
    lemma_le32_range(m, p);
    lemma_merged(types::le32_at(m, p), v);
    lemma_entry_present(m, g, f, c);
    lemma_entry_present(m, g, 0, c2);
    bytes::lemma_le_bytes_len(x, 4);
    lemma_patch_dom(m, p, bytes::le_bytes(x, 4));
    if f == 0 && c2 == c {
        lemma_le32_put(m, p, x);
    } else {
        if f > 0 {
            lemma_copy_order(g, f);
        }
        lemma_le32_kept(m, p, bytes::le_bytes(x, 4), q);
    }
}

pub proof fn lemma_with_entry_in(img: Image, g: Geometry, c: u32, v: u32, c2: u32, n: nat)
    requires
        types::sound_geometry(g),
        tables_present(img, g),
        c < g.fat_size * 128,
        c2 < g.fat_size * 128,
        n <= g.num_fats,
    ensures
        types::with_entry_in(img, g, c, v, n).dom() == img.dom(),
        types::fat_value(types::with_entry_in(img, g, c, v, n), g, c2) == (if c2 == c && n > 0 {
            (v % 0x1000_0000) as u32
        } else {
            types::fat_value(img, g, c2)
        }),
    decreases n,
{
    if n > 0 {
        let m = types::with_entry_in(img, g, c, v, (n - 1) as nat);
        lemma_with_entry_in(img, g, c, v, c2, (n - 1) as nat);
        assert(tables_present(m, g));
        lemma_set_copy(m, g, c, v, c2, n - 1);
    }
}

/// An entry of the table that has been set reads back, and every other entry
/// is kept.
pub proof fn law_entry_reads_back(img: Image, g: Geometry, c: u32, v: u32, other: u32)
    requires
        types::sound_geometry(g),
        tables_present(img, g),
        c < g.fat_size * 128,
        other < g.fat_size * 128,
    ensures
        types::fat_value(types::with_entry(img, g, c, v), g, other) == (if other == c {
            (v % 0x1000_0000) as u32
        } else {
            types::fat_value(img, g, other)
        }),
{
    lemma_with_entry_in(img, g, c, v, other, g.num_fats as nat);
}

/// The cluster that allocation picks is free, and no lower one is.
pub proof fn law_allocation_picks_lowest(img: Image, g: Geometry, from: u32)
    ensures
        types::first_free(img, g, from) matches Some(c) ==> types::fat_value(img, g, c) == 0 && from
            <= c < types::cluster_limit(g) && forall|k: u32|
            from <= k < c ==> types::fat_value(img, g, k) != 0,
        types::first_free(img, g, from) is None ==> forall|k: u32|
            from <= k < types::cluster_limit(g) ==> types::fat_value(img, g, k) != 0,
    decreases types::cluster_limit(g) - from,
{
    if from < types::cluster_limit(g) && types::fat_value(img, g, from) != 0 {
        law_allocation_picks_lowest(img, g, (from + 1) as u32);
    }
}

/// The first `n` clusters of a chain are there, have entries of their own and
/// are all different, and their sectors are there.
pub open spec fn sound_chain(img: Image, g: Geometry, first: u32, n: nat) -> bool {
    &&& forall|k: nat|
        k < n ==> (#[trigger] types::nth_in(img, g, first, k) matches Some(c) && real_cluster(g, c)
            && cluster_present(img, g, c))
    &&& forall|j: nat, k: nat|
        j < k < n ==> #[trigger] types::nth_in(img, g, first, j) != #[trigger] types::nth_in(
            img,
            g,
            first,
            k,
        )
}

/// A cluster lies behind the tables.
pub proof fn lemma_cluster_behind(g: Geometry, c: u32)
    requires
        sound_layout(g),
        real_cluster(g, c),
    ensures
        (g.fat_start + g.num_fats * g.fat_size) * 512 <= types::cluster_pos(g, c),
        types::cluster_pos(g, c) + types::cluster_size(g) <= 512 * u64::MAX,
{
    dir::lemma_cluster_lba(g, c);
    assert((c - 2) * g.spc >= 0) by (nonlinear_arith)
        requires
            c - 2 >= 0,
            g.spc >= 0,
    ;
}

/// Different clusters have no byte in common.
pub proof fn lemma_clusters_apart(g: Geometry, a: u32, b: u32)
    requires
        2 <= a,
        2 <= b,
        a != b,
    ensures
        types::cluster_pos(g, a) + types::cluster_size(g) <= types::cluster_pos(g, b)
            || types::cluster_pos(g, b) + types::cluster_size(g) <= types::cluster_pos(g, a),
{
    let x = a - 2;
    let y = b - 2;
    if a < b {
        assert(x * g.spc + g.spc <= y * g.spc) by (nonlinear_arith)
            requires
                x + 1 <= y,
                g.spc >= 0,
        ;
    } else {
        assert(y * g.spc + g.spc <= x * g.spc) by (nonlinear_arith)
            requires
                y + 1 <= x,
                g.spc >= 0,
        ;
    }
}

/// A patch inside a cluster keeps every entry of the table.
pub proof fn lemma_patch_keeps_entries(
    img: Image,
    g: Geometry,
    c: u32,
    rel: int,
    d: Seq<u8>,
    other: u32,
)
    requires
        sound_layout(g),
        tables_present(img, g),
        real_cluster(g, c),
        0 <= rel,
        rel + d.len() <= types::cluster_size(g),
        other < g.fat_size * 128,
    ensures
        types::fat_value(block::patched(img, types::cluster_pos(g, c) + rel, d), g, other)
            == types::fat_value(img, g, other),
{
    lemma_cluster_behind(g, c);
    lemma_entry_present(img, g, 0, other);
    lemma_le32_kept(img, types::cluster_pos(g, c) + rel, d, types::fat_pos(g, 0, other));
}

/// A patch inside a cluster keeps a sound chain as it is.
pub proof fn lemma_patch_keeps_chain(
    img: Image,
    g: Geometry,
    c: u32,
    rel: int,
    d: Seq<u8>,
    first: u32,
    n: nat,
)
    requires
        sound_layout(g),
        tables_present(img, g),
        real_cluster(g, c),
        0 <= rel,
        rel + d.len() <= types::cluster_size(g),
        sound_chain(img, g, first, n),
    ensures
        tables_present(block::patched(img, types::cluster_pos(g, c) + rel, d), g),
        sound_chain(block::patched(img, types::cluster_pos(g, c) + rel, d), g, first, n),
        forall|k: nat|
            k < n ==> #[trigger] types::nth_in(
                block::patched(img, types::cluster_pos(g, c) + rel, d),
                g,
                first,
                k,
            ) == types::nth_in(img, g, first, k),
{
    let img1 = block::patched(img, types::cluster_pos(g, c) + rel, d);
    lemma_patch_dom(img, types::cluster_pos(g, c) + rel, d);
    assert forall|k: nat| k < n implies #[trigger] types::nth_in(img1, g, first, k)
        == types::nth_in(img, g, first, k) by {
        lemma_nth_kept(img, g, c, rel, d, first, n, k);
    }
    assert forall|k: nat| k < n implies (#[trigger] types::nth_in(img1, g, first, k) matches Some(
        x,
    ) && real_cluster(g, x) && cluster_present(img1, g, x)) by {
        assert(types::nth_in(img, g, first, k) is Some);
    }
    assert forall|j: nat, k: nat| j < k < n implies #[trigger] types::nth_in(img1, g, first, j)
        != #[trigger] types::nth_in(img1, g, first, k) by {
        assert(types::nth_in(img, g, first, j) != types::nth_in(img, g, first, k));
    }
}

pub proof fn lemma_nth_kept(
    img: Image,
    g: Geometry,
    c: u32,
    rel: int,
    d: Seq<u8>,
    first: u32,
    n: nat,
    k: nat,
)
    requires
        sound_layout(g),
        tables_present(img, g),
        real_cluster(g, c),
        0 <= rel,
        rel + d.len() <= types::cluster_size(g),
        sound_chain(img, g, first, n),
        k < n,
    ensures
        types::nth_in(block::patched(img, types::cluster_pos(g, c) + rel, d), g, first, k)
            == types::nth_in(img, g, first, k),
    decreases k,
{
    if k > 0 {
        lemma_nth_kept(img, g, c, rel, d, first, n, (k - 1) as nat);
        assert(types::nth_in(img, g, first, (k - 1) as nat) is Some);
        let m = types::nth_in(img, g, first, (k - 1) as nat)->0;
        lemma_patch_keeps_entries(img, g, c, rel, d, m);
    }
}

/// Byte `p` of a file lies in a sector that is there.
pub proof fn lemma_file_byte_present(img: Image, g: Geometry, first: u32, n: nat, p: int)
    requires
        sound_layout(g),
        sound_chain(img, g, first, n),
        0 <= p < n * types::cluster_size(g),
    ensures
        ({
            let k = (p / types::cluster_size(g)) as nat;
            let c = types::nth_in(img, g, first, k)->0;
            let q = file::file_pos(img, g, first, p);
            &&& k < n
            &&& types::nth_in(img, g, first, k) == Some(c)
            &&& real_cluster(g, c)
            &&& types::cluster_pos(g, c) <= q < types::cluster_pos(g, c) + types::cluster_size(g)
            &&& 0 <= q < 512 * u64::MAX
            &&& img.dom().contains((q / 512) as u64)
        }),
{
    let cs = types::cluster_size(g);
    let k = (p / cs) as nat;
    vstd::arithmetic::div_mod::lemma_fundamental_div_mod(p, cs);
    vstd::arithmetic::div_mod::lemma_div_pos_is_pos(p, cs);
    assert(k < n) by (nonlinear_arith)
        requires
            cs * k <= p,
            p < n * cs,
            cs > 0,
    ;
    assert(types::nth_in(img, g, first, k) is Some);
    let c = types::nth_in(img, g, first, k)->0;
    lemma_cluster_behind(g, c);
    let q = file::file_pos(img, g, first, p);
    dir::lemma_cluster_lba(g, c);
    assert(0 <= p % cs < cs);
    let l = (q / 512) as u64;
    assert(types::cluster_lba(g, c) <= q / 512 < types::cluster_lba(g, c) + g.spc);
    assert(img.dom().contains(l));
}

/// What pouring data into a sound chain, from byte `rel` of its cluster `i`
/// on, does to the bytes of the file.
pub proof fn lemma_pour_bytes(
    img: Image,
    g: Geometry,
    first: u32,
    n: nat,
    i: nat,
    rel: int,
    d: Seq<u8>,
)
    requires
        sound_layout(g),
        tables_present(img, g),
        sound_chain(img, g, first, n),
        i < n,
        0 <= rel < types::cluster_size(g),
        i * types::cluster_size(g) + rel + d.len() <= n * types::cluster_size(g),
    ensures
        ({
            let c = types::nth_in(img, g, first, i)->0;
            let (img2, m) = file::poured(img, g, c, rel, d);
            let start = i * types::cluster_size(g) + rel;
            &&& m == d.len()
            &&& tables_present(img2, g)
            &&& sound_chain(img2, g, first, n)
            &&& forall|k: nat|
                k < n ==> #[trigger] types::nth_in(img2, g, first, k) == types::nth_in(
                    img,
                    g,
                    first,
                    k,
                )
            &&& forall|p: int|
                0 <= p < n * types::cluster_size(g) ==> #[trigger] file::file_byte(
                    img2,
                    g,
                    first,
                    p,
                ) == (if start <= p < start + d.len() {
                    d[p - start]
                } else {
                    file::file_byte(img, g, first, p)
                })
        }),
    decreases d.len(),
{
    let cs = types::cluster_size(g);
    assert(types::nth_in(img, g, first, i) is Some);
    let c = types::nth_in(img, g, first, i)->0;
    let start = i * cs + rel;
    if d.len() > 0 {
        let k = file::min(cs - rel, d.len() as int);
        let part = d.take(k);
        let img1 = block::patched(img, types::cluster_pos(g, c) + rel, part);
        lemma_patch_keeps_chain(img, g, c, rel, part, first, n);
        assert forall|p: int| 0 <= p < n * cs implies #[trigger] file::file_byte(img1, g, first, p)
            == (if start <= p < start + k {
            d[p - start]
        } else {
            file::file_byte(img, g, first, p)
        }) by {
            lemma_one_patch(img, g, first, n, i, rel, part, p);
        }
        if k < d.len() {
            // The next cluster of the chain is there.
            assert(i + 1 < n) by {
                assert((i + 1) * cs < n * cs) by (nonlinear_arith)
                    requires
                        i * cs + rel + d.len() <= n * cs,
                        cs - rel < d.len(),
                ;
                assert(i + 1 < n) by (nonlinear_arith)
                    requires
                        (i + 1) * cs < n * cs,
                        cs > 0,
                ;
            }
            assert(types::nth_in(img1, g, first, i + 1) == types::nth_in(img, g, first, i + 1));
            assert(types::nth_in(img, g, first, i + 1) is Some);
            assert(types::nth_in(img1, g, first, i) == Some(c));
            let c1 = types::nth_in(img1, g, first, i + 1)->0;
            assert(types::next_in(img1, g, c) == Some(c1));
            assert((i + 1) * cs == i * cs + cs) by (nonlinear_arith);
            let rest = d.skip(k);
            lemma_pour_bytes(img1, g, first, n, i + 1, 0, rest);
            let (img2, m) = file::poured(img1, g, c1, 0, rest);
            assert(file::poured(img, g, c, rel, d) == (img2, k + m));
            assert forall|p: int| 0 <= p < n * cs implies #[trigger] file::file_byte(
                img2,
                g,
                first,
                p,
            ) == (if start <= p < start + d.len() {
                d[p - start]
            } else {
                file::file_byte(img, g, first, p)
            }) by {
                assert(file::file_byte(img1, g, first, p) == (if start <= p < start + k {
                    d[p - start]
                } else {
                    file::file_byte(img, g, first, p)
                }));
            }
        } else {
            assert(part =~= d);
        }
    }
}

/// One patch inside cluster `i` of a sound chain changes the bytes of the file
/// that lie in it, and no others.
pub proof fn lemma_one_patch(
    img: Image,
    g: Geometry,
    first: u32,
    n: nat,
    i: nat,
    rel: int,
    d: Seq<u8>,
    p: int,
)
    requires
        sound_layout(g),
        tables_present(img, g),
        sound_chain(img, g, first, n),
        i < n,
        0 <= rel,
        rel + d.len() <= types::cluster_size(g),
        0 <= p < n * types::cluster_size(g),
    ensures
        ({
            let c = types::nth_in(img, g, first, i)->0;
            let img1 = block::patched(img, types::cluster_pos(g, c) + rel, d);
            let start = i * types::cluster_size(g) + rel;
            file::file_byte(img1, g, first, p) == (if start <= p < start + d.len() {
                d[p - start]
            } else {
                file::file_byte(img, g, first, p)
            })
        }),
{
    let cs = types::cluster_size(g);
    assert(types::nth_in(img, g, first, i) is Some);
    let c = types::nth_in(img, g, first, i)->0;
    let a = types::cluster_pos(g, c) + rel;
    let img1 = block::patched(img, a, d);
    let start = i * cs + rel;
    lemma_patch_keeps_chain(img, g, c, rel, d, first, n);
    lemma_file_byte_present(img, g, first, n, p);
    let j = (p / cs) as nat;
    let cj = types::nth_in(img, g, first, j)->0;
    let q = file::file_pos(img, g, first, p);
    vstd::arithmetic::div_mod::lemma_fundamental_div_mod(p, cs);
    assert(types::nth_in(img1, g, first, j) == types::nth_in(img, g, first, j));
    assert(file::file_pos(img1, g, first, p) == q);
    if j == i {
        assert(cs * j == i * cs) by (nonlinear_arith)
            requires
                j == i,
        ;
        if start <= p < start + d.len() {
            lemma_byte_put(img, a, d, q);
        } else {
            lemma_byte_kept(img, a, d, q);
        }
    } else {
        assert(cj != c) by {
            if j < i {
                assert(types::nth_in(img, g, first, j) != types::nth_in(img, g, first, i));
            } else {
                assert(types::nth_in(img, g, first, i) != types::nth_in(img, g, first, j));
            }
        }
        lemma_clusters_apart(g, c, cj);
        lemma_byte_kept(img, a, d, q);
        // `p` lies in another cluster of the file.
        if j < i {
            assert(cs * j + cs <= i * cs) by (nonlinear_arith)
                requires
                    j + 1 <= i,
                    cs > 0,
            ;
        } else {
            assert(i * cs + cs <= cs * j) by (nonlinear_arith)
                requires
                    i + 1 <= j,
                    cs > 0,
            ;
        }
    }
}

/// What is written into a file reads back: on a sound volume all of the data
/// up to the end of the file is written, those bytes of the file are the data,
/// and every other byte of the file is kept.
pub proof fn law_write_reads_back(
    img: Image,
    g: Geometry,
    info: FileInfo,
    n: nat,
    offset: int,
    data: Seq<u8>,
)
    requires
        sound_layout(g),
        tables_present(img, g),
        sound_chain(img, g, info.first_cluster, n),
        info.size <= n * types::cluster_size(g),
        0 <= offset < info.size,
        data.len() > 0,
    ensures
        ({
            let (img2, m) = file::overwritten(img, g, info, offset, data);
            &&& m == file::min(data.len() as int, info.size - offset)
            &&& sound_chain(img2, g, info.first_cluster, n)
            &&& forall|p: int|
                0 <= p < n * types::cluster_size(g) ==> #[trigger] file::file_byte(
                    img2,
                    g,
                    info.first_cluster,
                    p,
                ) == (if offset <= p < offset + m {
                    data[p - offset]
                } else {
                    file::file_byte(img, g, info.first_cluster, p)
                })
        }),
{
    let cs = types::cluster_size(g);
    let first = info.first_cluster;
    let m = file::min(data.len() as int, info.size - offset);
    let d = data.take(m);
    lemma_file_byte_present(img, g, first, n, offset);
    assert(n > 0);
    assert(types::nth_in(img, g, first, 0) is Some);
    assert(types::nth_in(img, g, first, 0) == Some(first));
    let i = (offset / cs) as nat;
    let rel = offset % cs;
    vstd::arithmetic::div_mod::lemma_fundamental_div_mod(offset, cs);
    assert(cs * i == i * cs) by (nonlinear_arith);
    lemma_pour_bytes(img, g, first, n, i, rel, d);
}

} // verus!
