//! What holds of volumes across writes: the other files keep their bytes.
use vstd::prelude::*;

use super::file;
use super::file::Chain;
use super::laws;
use super::laws_create;
use super::laws_grow;
use super::types;
use super::types::{FileInfo, Geometry};
use crate::bytes;
use crate::fs::block;
use crate::fs::block::Image;

verus! {

/// None of the first `no` clusters of the chain from `other` is among the first
/// `n` of the chain from `first`.
pub open spec fn share_nothing(
    img: Image,
    g: Geometry,
    first: u32,
    n: nat,
    other: u32,
    no: nat,
) -> bool {
    forall|j: nat|
        j < no ==> !laws_grow::in_chain(
            img,
            g,
            first,
            n,
            (#[trigger] types::nth_in(img, g, other, j))->0,
        )
}

/// A position lies in a cluster, in a sector that is there.
pub open spec fn lies_in(img: Image, g: Geometry, x: u32, q: int) -> bool {
    &&& laws::real_cluster(g, x)
    &&& types::cluster_pos(g, x) <= q < types::cluster_pos(g, x) + types::cluster_size(g)
    &&& 0 <= q < 512 * u64::MAX
    &&& img.dom().contains((q / 512) as u64)
}

/// Pouring data into a chain keeps the bytes of a cluster that is not in it.
proof fn lemma_pour_elsewhere(
    img: Image,
    g: Geometry,
    first: u32,
    n: nat,
    i: nat,
    rel: int,
    d: Seq<u8>,
    x: u32,
    q: int,
)
    requires
        laws::sound_layout(g),
        laws::tables_present(img, g),
        laws::sound_chain(img, g, first, n),
        i < n,
        0 <= rel < types::cluster_size(g),
        i * types::cluster_size(g) + rel + d.len() <= n * types::cluster_size(g),
        lies_in(img, g, x, q),
        !laws_grow::in_chain(img, g, first, n, x),
    ensures
        block::byte_at(file::poured(img, g, types::nth_in(img, g, first, i)->0, rel, d).0, q)
            == block::byte_at(img, q),
    decreases d.len(),
{
    let cs = types::cluster_size(g);
    assert(types::nth_in(img, g, first, i) is Some);
    let c = types::nth_in(img, g, first, i)->0;
    if d.len() > 0 {
        let k = file::min(cs - rel, d.len() as int);
        let part = d.take(k);
        let a = types::cluster_pos(g, c) + rel;
        let img1 = block::patched(img, a, part);
        assert(c != x);
        laws::lemma_clusters_apart(g, c, x);
        laws::lemma_byte_kept(img, a, part, q);
        laws::lemma_patch_keeps_chain(img, g, c, rel, part, first, n);
        laws::lemma_patch_dom(img, a, part);
        if k < d.len() {
            assert(i + 1 < n) by {
                assert((i + 1) * cs < n * cs) by (nonlinear_arith)
                    requires
                        i * cs + rel + d.len() <= n * cs,
                        cs - rel < d.len(),
                ;
                assert(i + 1 < n) by (nonlinear_arith)
                    requires
                        (i + 1) * cs < n * cs,
                        cs > 0,
                ;
            }
            assert(types::nth_in(img1, g, first, i + 1) == types::nth_in(img, g, first, i + 1));
            assert(types::nth_in(img, g, first, i + 1) is Some);
            assert(types::nth_in(img1, g, first, i) == Some(c));
            let c1 = types::nth_in(img1, g, first, i + 1)->0;
            assert(types::next_in(img1, g, c) == Some(c1));
            assert((i + 1) * cs == i * cs + cs) by (nonlinear_arith);
            lemma_not_in_kept(img, img1, g, first, n, x);
            let rest = d.skip(k);
            lemma_pour_elsewhere(img1, g, first, n, i + 1, 0, rest, x, q);
            assert(file::poured(img, g, c, rel, d).0 == file::poured(img1, g, c1, 0, rest).0);
        }
    }
}

/// Where the clusters of a chain are the same, a cluster outside stays outside.
proof fn lemma_not_in_kept(img: Image, img2: Image, g: Geometry, first: u32, n: nat, x: u32)
    requires
        !laws_grow::in_chain(img, g, first, n, x),
        forall|k: nat|
            k < n ==> #[trigger] types::nth_in(img2, g, first, k) == types::nth_in(
                img,
                g,
                first,
                k,
            ),
    ensures
        !laws_grow::in_chain(img2, g, first, n, x),
{
    if laws_grow::in_chain(img2, g, first, n, x) {
        let k = choose|k: nat| k < n && #[trigger] types::nth_in(img2, g, first, k) == Some(x);
        assert(types::nth_in(img, g, first, k) == Some(x));
    }
}

/// Overwriting part of a file keeps every byte of a cluster that is not the
/// file's, and the table.
pub proof fn lemma_overwrite_elsewhere(
    img: Image,
    g: Geometry,
    info: FileInfo,
    n: nat,
    offset: int,
    data: Seq<u8>,
    x: u32,
    q: int,
)
    requires
        laws::sound_layout(g),
        laws::tables_present(img, g),
        laws::sound_chain(img, g, info.first_cluster, n),
        info.size <= n * types::cluster_size(g),
        0 <= offset < info.size,
        data.len() > 0,
        lies_in(img, g, x, q),
        !laws_grow::in_chain(img, g, info.first_cluster, n, x),
    ensures
        ({
            let img2 = file::overwritten(img, g, info, offset, data).0;
            &&& laws_grow::table_kept(img, img2, g)
            &&& block::byte_at(img2, q) == block::byte_at(img, q)
        }),
{
    let cs = types::cluster_size(g);
    let first = info.first_cluster;
    let d = data.take(file::min(data.len() as int, info.size - offset));
    laws::lemma_file_byte_present(img, g, first, n, offset);
    assert(types::nth_in(img, g, first, 0) is Some);
    assert(types::nth_in(img, g, first, 0) == Some(first));
    let i = (offset / cs) as nat;
    let rel = offset % cs;
    vstd::arithmetic::div_mod::lemma_fundamental_div_mod(offset, cs);
    assert(cs * i == i * cs) by (nonlinear_arith);
    laws_grow::lemma_pour_keeps_table(img, g, first, n, i, rel, d);
    lemma_pour_elsewhere(img, g, first, n, i, rel, d, x, q);
}

/// A write within a file keeps every byte of a file that shares no cluster with
/// it.
pub proof fn law_write_keeps_other_files(
    img: Image,
    g: Geometry,
    info: FileInfo,
    n: nat,
    offset: int,
    data: Seq<u8>,
    other: u32,
    no: nat,
    p: int,
)
    requires
        laws::sound_layout(g),
        laws::tables_present(img, g),
        laws::sound_chain(img, g, info.first_cluster, n),
        info.size <= n * types::cluster_size(g),
        0 <= offset < info.size,
        data.len() > 0,
        laws::sound_chain(img, g, other, no),
        share_nothing(img, g, info.first_cluster, n, other, no),
        0 <= p < no * types::cluster_size(g),
    ensures
        file::file_byte(file::overwritten(img, g, info, offset, data).0, g, other, p)
            == file::file_byte(img, g, other, p),
{
    laws::lemma_file_byte_present(img, g, other, no, p);
    let k = (p / types::cluster_size(g)) as nat;
    let x = types::nth_in(img, g, other, k)->0;
    let q = file::file_pos(img, g, other, p);
    assert(lies_in(img, g, x, q));
    lemma_overwrite_elsewhere(img, g, info, n, offset, data, x, q);
    laws_grow::lemma_file_byte_kept(
        img,
        file::overwritten(img, g, info, offset, data).0,
        g,
        other,
        no,
        p,
    );
}

/// Filling a lengthened chain keeps the bytes of a cluster that is not in it.
pub proof fn lemma_fill_elsewhere(
    t: Chain,
    g: Geometry,
    info: FileInfo,
    offset: int,
    data: Seq<u8>,
    end: int,
    x: u32,
    q: int,
)
    requires
        laws_create::usual_layout(g),
        laws_grow::chain_ok(t, g),
        t.have > 0,
        0 <= offset < end <= t.have * types::cluster_size(g),
        end <= offset + data.len(),
        end <= u32::MAX,
        lies_in(t.img, g, x, q),
        !laws_grow::in_chain(t.img, g, t.first, t.have as nat, x),
    ensures
        ({
            let old_end = file::min(info.size as int, end);
            let zi = file::zeroed(t.img, g, t.first, old_end, end).0;
            let wi = file::overwritten(
                zi,
                g,
                file::resized(info, t.first, end as u32),
                offset,
                data.take(file::min(end - offset, data.len() as int)),
            ).0;
            block::byte_at(wi, q) == block::byte_at(t.img, q)
        }),
{
    let cs = types::cluster_size(g);
    let n = t.have as nat;
    let old_end = file::min(info.size as int, end);
    let zi = file::zeroed(t.img, g, t.first, old_end, end).0;
    assert(types::nth_in(t.img, g, t.first, 0) is Some);
    assert(types::nth_in(t.img, g, t.first, 0) == Some(t.first));
    if old_end < end {
        let zeros = bytes::filled(0, (end - old_end) as nat);
        let i = (old_end / cs) as nat;
        let rel = old_end % cs;
        vstd::arithmetic::div_mod::lemma_fundamental_div_mod(old_end, cs);
        laws::lemma_file_byte_present(t.img, g, t.first, n, old_end);
        assert(cs * i == i * cs) by (nonlinear_arith);
        laws::lemma_pour_bytes(t.img, g, t.first, n, i, rel, zeros);
        laws_grow::lemma_pour_keeps_table(t.img, g, t.first, n, i, rel, zeros);
        lemma_pour_elsewhere(t.img, g, t.first, n, i, rel, zeros, x, q);
        lemma_not_in_kept(t.img, zi, g, t.first, n, x);
    }
    let d = data.take(file::min(end - offset, data.len() as int));
    let ri = file::resized(info, t.first, end as u32);
    lemma_overwrite_elsewhere(zi, g, ri, n, offset, d, x, q);
}

/// Clusters in use that are not in a chain are not in the chain that it grows
/// into.
pub proof fn lemma_still_outside(s: Chain, t: Chain, g: Geometry, x: u32)
    requires
        laws_grow::lengthens(s, t, g),
        laws::real_cluster(g, x),
        types::fat_value(s.img, g, x) != 0,
        !laws_grow::in_chain(s.img, g, s.first, s.have as nat, x),
    ensures
        !laws_grow::in_chain(t.img, g, t.first, t.have as nat, x),
{
}

/// A write that makes a file longer keeps every byte of a file that shares no
/// cluster with it or with its directory.
pub proof fn law_growth_keeps_other_files(
    img: Image,
    g: Geometry,
    info: FileInfo,
    n: nat,
    nd: nat,
    offset: int,
    data: Seq<u8>,
    other: u32,
    no: nat,
    p: int,
)
    requires
        laws_create::usual_layout(g),
        laws::tables_present(img, g),
        laws_create::clusters_present(img, g),
        laws_grow::good_chain(img, g, info.first_cluster, n),
        n <= g.fat_size * 128,
        laws_grow::apart_from_directory(img, g, info, n, nd),
        !info.is_dir,
        data.len() > 0,
        0 <= offset,
        info.size < offset + data.len() <= u32::MAX,
        laws_create::whole_chain(img, g, other, no),
        share_nothing(img, g, info.first_cluster, n, other, no),
        share_nothing(img, g, info.dir_cluster, nd, other, no),
        0 <= p < no * types::cluster_size(g),
    ensures
        file::file_byte(file::grown(img, g, info, offset, data).0, g, other, p)
            == file::file_byte(img, g, other, p),
{
    let cs = types::cluster_size(g);
    let s = laws_grow::chain_of(img, g, info.first_cluster, n);
    let t = laws_grow::chain_for(img, g, info, n, offset + data.len());
    laws_grow::lemma_chain_for(img, g, info, n, offset + data.len());
    let end = file::min(offset + data.len(), t.have * cs);
    assert(file::grown(img, g, info, offset, data) == file::grown_into(t, g, info, offset, data));
    // The cluster that holds the byte.
    laws::lemma_file_byte_present(img, g, other, no, p);
    let k = (p / cs) as nat;
    let x = types::nth_in(img, g, other, k)->0;
    let q = file::file_pos(img, g, other, p);
    assert(lies_in(img, g, x, q));
    laws_create::lemma_chain_not_free(img, g, other, no, k);
    laws::lemma_cluster_behind(g, x);
    assert(block::byte_at(t.img, q) == block::byte_at(img, q));
    laws_grow::lemma_other_chain(s, t, g, other, no, k);
    assert(types::nth_in(t.img, g, other, k) == Some(x));
    lemma_still_outside(s, t, g, x);
    if end > offset {
        lemma_written_elsewhere(s, t, g, info, n, nd, offset, data, end, other, no, p);
    }
}

/// The chain of another file in the image of the lengthened chain.
pub proof fn lemma_other_sound(s: Chain, t: Chain, g: Geometry, other: u32, no: nat)
    requires
        laws_grow::lengthens(s, t, g),
        laws_create::whole_chain(s.img, g, other, no),
        share_nothing(s.img, g, s.first, s.have as nat, other, no),
    ensures
        laws::sound_chain(t.img, g, other, no),
        forall|j: nat|
            j < no ==> #[trigger] types::nth_in(t.img, g, other, j) == types::nth_in(
                s.img,
                g,
                other,
                j,
            ),
{
    assert forall|j: nat| j < no implies #[trigger] types::nth_in(t.img, g, other, j)
        == types::nth_in(s.img, g, other, j) by {
        laws_grow::lemma_other_chain(s, t, g, other, no, j);
    }
    assert forall|k: nat| k < no implies (#[trigger] types::nth_in(t.img, g, other, k) matches Some(
        c,
    ) && laws::real_cluster(g, c) && laws::cluster_present(t.img, g, c)) by {
        assert(types::nth_in(s.img, g, other, k) is Some);
        let c = types::nth_in(s.img, g, other, k)->0;
        assert(laws::cluster_present(s.img, g, c));
    }
    assert forall|j: nat, k: nat| j < k < no implies #[trigger] types::nth_in(t.img, g, other, j)
        != #[trigger] types::nth_in(t.img, g, other, k) by {
        assert(types::nth_in(s.img, g, other, j) != types::nth_in(s.img, g, other, k));
    }
}

/// The data, the directory entry and the count of free clusters lie elsewhere.
proof fn lemma_written_elsewhere(
    s: Chain,
    t: Chain,
    g: Geometry,
    info: FileInfo,
    n: nat,
    nd: nat,
    offset: int,
    data: Seq<u8>,
    end: int,
    other: u32,
    no: nat,
    p: int,
)
    requires
        laws_create::usual_layout(g),
        laws_grow::lengthens(s, t, g),
        laws_grow::chain_ok(s, g),
        s.have == n,
        s.first == info.first_cluster,
        laws_grow::apart_from_directory(s.img, g, info, n, nd),
        end == file::min(offset + data.len(), t.have * types::cluster_size(g)),
        0 <= offset < end <= u32::MAX,
        laws_create::whole_chain(s.img, g, other, no),
        share_nothing(s.img, g, s.first, n, other, no),
        share_nothing(s.img, g, info.dir_cluster, nd, other, no),
        0 <= p < no * types::cluster_size(g),
        file::file_byte(t.img, g, other, p) == file::file_byte(s.img, g, other, p),
    ensures
        file::file_byte(file::grown_into(t, g, info, offset, data).0, g, other, p)
            == file::file_byte(s.img, g, other, p),
{
    let cs = types::cluster_size(g);
    assert(t.have > 0) by {
        if t.have == 0 {
            assert(t.have * cs == 0) by (nonlinear_arith)
                requires
                    t.have == 0,
            ;
        }
    }
    let old_end = file::min(info.size as int, end);
    laws_grow::lemma_filled_in(t, g, info, offset, data, end);
    lemma_other_sound(s, t, g, other, no);
    laws::lemma_file_byte_present(t.img, g, other, no, p);
    let k = (p / cs) as nat;
    let x = types::nth_in(t.img, g, other, k)->0;
    let q = file::file_pos(t.img, g, other, p);
    assert(types::nth_in(s.img, g, other, k) == Some(x));
    laws_create::lemma_chain_not_free(s.img, g, other, no, k);
    lemma_still_outside(s, t, g, x);
    assert(lies_in(t.img, g, x, q));
    lemma_fill_elsewhere(t, g, info, offset, data, end, x, q);
    let zi = file::zeroed(t.img, g, t.first, old_end, end).0;
    let (wi, m) = file::overwritten(
        zi,
        g,
        file::resized(info, t.first, end as u32),
        offset,
        data.take(file::min(end - offset, data.len() as int)),
    );
    laws_grow::lemma_file_byte_kept(t.img, wi, g, other, no, p);
    // The directory entry, in a cluster of the directory.
    let kd = (info.entry_off as int / cs) as nat;
    let rel = info.entry_off as int % cs;
    vstd::arithmetic::div_mod::lemma_div_pos_is_pos(info.entry_off as int, cs);
    laws_grow::lemma_entry_place(g, info.entry_off);
    lemma_other_sound(s, t, g, info.dir_cluster, nd);
    laws_grow::lemma_table_nth(t.img, wi, g, info.dir_cluster, nd, kd);
    assert(types::nth_in(s.img, g, info.dir_cluster, kd) is Some);
    let cd = types::nth_in(s.img, g, info.dir_cluster, kd)->0;
    assert(laws::real_cluster(g, cd));
    let pos = types::cluster_pos(g, cd) + rel;
    let fields = file::entry_fields(t.first, block::bytes_at(wi, pos + 22, 4), end as u32);
    bytes::lemma_le_bytes_len((t.first / 65536) as nat, 2);
    bytes::lemma_le_bytes_len((t.first % 65536) as nat, 2);
    bytes::lemma_le_bytes_len(end as u32 as nat, 4);
    assert(fields.len() == 12);
    let pi = block::patched(wi, pos + 20, fields);
    assert(pos + 20 == types::cluster_pos(g, cd) + (rel + 20));
    lemma_other_kept_sound(t.img, wi, g, other, no);
    lemma_dir_not_shared(s.img, wi, g, info.dir_cluster, nd, kd, other, no);
    laws_grow::lemma_patch_elsewhere(wi, g, other, no, cd, rel + 20, fields, p);
    laws::lemma_patch_keeps_chain(wi, g, cd, rel + 20, fields, other, no);
    laws::lemma_patch_dom(wi, pos + 20, fields);
    let img2 = types::with_fsinfo(pi, -t.allocated, file::after(t.last));
    assert(file::grown_into(t, g, info, offset, data).0 == img2);
    laws_grow::lemma_count_elsewhere(pi, g, other, no, -t.allocated, file::after(t.last), p);
}

/// A sound chain stays sound where the table is kept.
pub proof fn lemma_other_kept_sound(img: Image, img2: Image, g: Geometry, other: u32, no: nat)
    requires
        laws::sound_chain(img, g, other, no),
        laws_grow::table_kept(img, img2, g),
    ensures
        laws::sound_chain(img2, g, other, no),
        forall|j: nat|
            j < no ==> #[trigger] types::nth_in(img2, g, other, j) == types::nth_in(
                img,
                g,
                other,
                j,
            ),
{
    assert forall|j: nat| j < no implies #[trigger] types::nth_in(img2, g, other, j)
        == types::nth_in(img, g, other, j) by {
        laws_grow::lemma_table_nth(img, img2, g, other, no, j);
    }
    assert forall|k: nat| k < no implies (#[trigger] types::nth_in(img2, g, other, k) matches Some(
        c,
    ) && laws::real_cluster(g, c) && laws::cluster_present(img2, g, c)) by {
        assert(types::nth_in(img, g, other, k) is Some);
        let c = types::nth_in(img, g, other, k)->0;
        assert(laws::cluster_present(img, g, c));
    }
    assert forall|j: nat, k: nat| j < k < no implies #[trigger] types::nth_in(img2, g, other, j)
        != #[trigger] types::nth_in(img2, g, other, k) by {
        assert(types::nth_in(img, g, other, j) != types::nth_in(img, g, other, k));
    }
}

/// A cluster of the directory is none of the other file's.
proof fn lemma_dir_not_shared(
    img: Image,
    img2: Image,
    g: Geometry,
    d: u32,
    nd: nat,
    kd: nat,
    other: u32,
    no: nat,
)
    requires
        share_nothing(img, g, d, nd, other, no),
        kd < nd,
        types::nth_in(img, g, d, kd) is Some,
        forall|j: nat|
            j < no ==> #[trigger] types::nth_in(img2, g, other, j) == types::nth_in(
                img,
                g,
                other,
                j,
            ),
    ensures
        !laws_grow::in_chain(img2, g, other, no, types::nth_in(img, g, d, kd)->0),
{
    let cd = types::nth_in(img, g, d, kd)->0;
    if laws_grow::in_chain(img2, g, other, no, cd) {
        let j = choose|j: nat| j < no && #[trigger] types::nth_in(img2, g, other, j) == Some(cd);
        assert(types::nth_in(img, g, other, j) == Some(cd));
        assert(types::nth_in(img, g, d, kd) == Some(cd));
        assert(laws_grow::in_chain(img, g, d, nd, types::nth_in(img, g, other, j)->0));
    }
}

} // verus!
