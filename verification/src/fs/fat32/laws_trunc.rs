//! What holds of volumes across the truncation of a file: it is found empty,
//! and its clusters are free.
use vstd::prelude::*;

use super::create;
use super::dir;
use super::file;
use super::laws;
use super::laws_apart;
use super::laws_create;
use super::laws_found;
use super::laws_grow;
use super::types;
use super::types::{FileInfo, Geometry, MAX_WALK};
use crate::bytes;
use crate::fs::block;
use crate::fs::block::Image;
use crate::shell::cwd;

verus! {

/// The first `i` clusters of a chain of `base` are free, all other entries of
/// the table and the data are kept.
pub open spec fn first_freed(
    base: Image,
    img: Image,
    g: Geometry,
    first: u32,
    i: nat,
) -> bool {
    &&& laws_grow::data_kept(base, img, g)
    &&& forall|x: u32|
        laws::real_cluster(g, x) ==> #[trigger] types::fat_value(img, g, x) == (
        if laws_grow::in_chain(base, g, first, i, x) {
            0
        } else {
            types::fat_value(base, g, x)
        })
}

/// Setting the rest of a chain free.
proof fn lemma_freed(base: Image, img: Image, g: Geometry, first: u32, n: nat, i: nat, fuel: nat)
    requires
        laws_create::usual_layout(g),
        laws::tables_present(base, g),
        laws_create::whole_chain(base, g, first, n),
        i < n,
        n - i <= fuel,
        first_freed(base, img, g, first, i),
    ensures
        ({
            let (img2, k) = create::freed(img, g, types::nth_in(base, g, first, i)->0, fuel);
            k == n - i && first_freed(base, img2, g, first, n)
        }),
    decreases fuel,
{
    assert(types::nth_in(base, g, first, i) is Some);
    let c = types::nth_in(base, g, first, i)->0;
    let img1 = types::with_entry(img, g, c, 0);
    assert(laws::tables_present(img, g));
    assert(!laws_grow::in_chain(base, g, first, i, c)) by {
        if laws_grow::in_chain(base, g, first, i, c) {
            let m = choose|m: nat| m < i && #[trigger] types::nth_in(base, g, first, m) == Some(c);
            assert(types::nth_in(base, g, first, m) != types::nth_in(base, g, first, i));
        }
    }
    assert(types::next_in(img, g, c) == types::next_in(base, g, c));
    laws_grow::lemma_entry_keeps_all(img, g, c, 0);
    assert(first_freed(base, img1, g, first, i + 1)) by {
        assert forall|x: u32| laws::real_cluster(g, x) implies #[trigger] types::fat_value(
            img1,
            g,
            x,
        ) == (if laws_grow::in_chain(base, g, first, i + 1, x) {
            0
        } else {
            types::fat_value(base, g, x)
        }) by {
            laws::law_entry_reads_back(img, g, c, 0, x);
            if x == c {
                assert(types::nth_in(base, g, first, i) == Some(x));
            } else if laws_grow::in_chain(base, g, first, i, x) {
                let m = choose|m: nat|
                    m < i && #[trigger] types::nth_in(base, g, first, m) == Some(x);
                assert(m < i + 1 && types::nth_in(base, g, first, m) == Some(x));
            } else if laws_grow::in_chain(base, g, first, i + 1, x) {
                let m = choose|m: nat|
                    m < i + 1 && #[trigger] types::nth_in(base, g, first, m) == Some(x);
                assert(m < i);
            }
        }
        assert forall|p: int|
            (g.fat_start + g.num_fats * g.fat_size) * 512 <= p < 512 * u64::MAX
                && base.dom().contains((p / 512) as u64) implies #[trigger] block::byte_at(img1, p)
            == block::byte_at(base, p) by {
            assert(block::byte_at(img, p) == block::byte_at(base, p));
        }
    }
    assert(types::nth_in(base, g, first, i + 1) == types::next_in(base, g, c));
    if i + 1 < n {
        assert(types::nth_in(base, g, first, i + 1) is Some);
        lemma_freed(base, img1, g, first, n, i + 1, (fuel - 1) as nat);
    }
}

/// The image in which the entry of a file says that it is empty.
proof fn lemma_entry_emptied(
    img: Image,
    g: Geometry,
    info: FileInfo,
    n: nat,
    nd: nat,
)
    requires
        laws_found::sound_file(img, g, info, n, nd),
    ensures
        ({
            let at = file::entry_pos(img, g, info.dir_cluster, info.entry_off as int);
            let (img1, ok) = file::entry_patched(
                img,
                g,
                info.dir_cluster,
                info.entry_off as int,
                0,
                0,
            );
            &&& ok
            &&& laws_grow::table_kept(img, img1, g)
            &&& laws::tables_present(img1, g)
            &&& laws_grow::good_chain(img1, g, info.first_cluster, n)
            &&& forall|k: nat|
                k < n ==> #[trigger] types::nth_in(img1, g, info.first_cluster, k) == types::nth_in(
                    img,
                    g,
                    info.first_cluster,
                    k,
                )
            &&& forall|q: int|
                0 <= q < 512 * u64::MAX && img.dom().contains((q / 512) as u64) && (q < at->0 + 20
                    || at->0 + 32 <= q) ==> #[trigger] block::byte_at(img1, q) == block::byte_at(
                    img,
                    q,
                )
            &&& laws_grow::entry_names(img1, g, info, at, 0, 0)
        }),
{
    let cs = types::cluster_size(g);
    let first = info.first_cluster;
    let cd = laws_found::lemma_entry_cluster(img, g, info, n, nd);
    let rel = info.entry_off as int % cs;
    let pos = types::cluster_pos(g, cd) + rel;
    let fields = file::entry_fields(0, block::bytes_at(img, pos + 22, 4), 0);
    bytes::lemma_le_bytes_len(0, 2);
    bytes::lemma_le_bytes_len(0, 4);
    assert(0u32 / 65536 == 0 && 0u32 % 65536 == 0);
    assert(fields.len() == 12);
    let img1 = block::patched(img, pos + 20, fields);
    assert(pos + 20 == types::cluster_pos(g, cd) + (rel + 20));
    laws::lemma_patch_dom(img, pos + 20, fields);
    assert forall|x: u32| laws::real_cluster(g, x) implies #[trigger] types::fat_value(img1, g, x)
        == types::fat_value(img, g, x) by {
        laws::lemma_patch_keeps_entries(img, g, cd, rel + 20, fields, x);
    }
    if n > 0 {
        laws_apart::lemma_other_kept_sound(img, img1, g, first, n);
        let last = (n - 1) as nat;
        assert(types::nth_in(img, g, first, last) is Some);
        let z = types::nth_in(img, g, first, last)->0;
        assert(types::nth_in(img1, g, first, last) == Some(z));
        assert(types::nth_in(img, g, first, n) == types::next_in(img, g, z));
        assert(types::nth_in(img1, g, first, n) == types::next_in(img1, g, z));
    }
    assert forall|q: int|
        0 <= q < 512 * u64::MAX && img.dom().contains((q / 512) as u64) && (q < pos + 20 || pos + 32
            <= q) implies #[trigger] block::byte_at(img1, q) == block::byte_at(img, q) by {
        laws::lemma_byte_kept(img, pos + 20, fields, q);
    }
    laws::lemma_cluster_behind(g, cd);
    assert(0 <= g.num_fats * g.fat_size) by (nonlinear_arith)
        requires
            0 <= g.num_fats,
            0 <= g.fat_size,
    ;
    assert forall|q: int| pos <= q < pos + 32 implies #[trigger] img.dom().contains(
        (q / 512) as u64,
    ) by {
    }
    laws_grow::lemma_entry_says(img, g, pos, 0, 0, info.entry_off as int);
}

/// The image after a truncation, by the image in which the entry was emptied.
proof fn lemma_truncated_image(img: Image, g: Geometry, info: FileInfo, n: nat, nd: nat)
    requires
        laws_found::sound_file(img, g, info, n, nd),
    ensures
        ({
            let (img2, ok) = create::truncated(img, g, info);
            let img1 = file::entry_patched(
                img,
                g,
                info.dir_cluster,
                info.entry_off as int,
                0,
                0,
            ).0;
            &&& ok
            &&& first_freed(img1, img2, g, info.first_cluster, n)
        }),
{
    let first = info.first_cluster;
    let img1 = file::entry_patched(img, g, info.dir_cluster, info.entry_off as int, 0, 0).0;
    lemma_entry_emptied(img, g, info, n, nd);
    assert(n <= MAX_WALK);
    let (r, k) = create::freed(img1, g, first, MAX_WALK as nat);
    if n > 0 {
        assert(types::nth_in(img1, g, first, 0) is Some);
        assert(types::nth_in(img1, g, first, 0) == Some(first));
        assert(first_freed(img1, img1, g, first, 0)) by {
            assert forall|x: u32| !laws_grow::in_chain(img1, g, first, 0, x) by {
            }
        }
        lemma_freed(img1, img1, g, first, n, 0, MAX_WALK as nat);
        assert(k == n);
        let img2 = types::with_fsinfo(r, k, first);
        assert(laws::tables_present(r, g));
        laws_create::lemma_count_keeps_entries(r, g, k, first, 0);
        assert forall|x: u32| laws::real_cluster(g, x) implies #[trigger] types::fat_value(
            img2,
            g,
            x,
        ) == (if laws_grow::in_chain(img1, g, first, n, x) {
            0
        } else {
            types::fat_value(img1, g, x)
        }) by {
            laws_create::lemma_count_keeps_entries(r, g, k, first, x);
            assert(types::fat_value(r, g, x) == (if laws_grow::in_chain(img1, g, first, n, x) {
                0
            } else {
                types::fat_value(img1, g, x)
            }));
        }
        assert forall|p: int|
            (g.fat_start + g.num_fats * g.fat_size) * 512 <= p < 512 * u64::MAX
                && img1.dom().contains((p / 512) as u64) implies #[trigger] block::byte_at(img2, p)
            == block::byte_at(img1, p) by {
            assert(0 <= g.num_fats * g.fat_size) by (nonlinear_arith)
                requires
                    0 <= g.num_fats,
                    0 <= g.fat_size,
            ;
            laws_create::lemma_count_keeps(r, g, k, first, p);
            assert(block::byte_at(r, p) == block::byte_at(img1, p));
        }
    } else {
        assert forall|x: u32| !laws_grow::in_chain(img1, g, first, 0, x) by {
        }
    }
}

/// A file that was truncated is found empty, all its clusters are free, and
/// the clusters that others use are still theirs. This holds on sound volumes:
/// the file, its directory and the directories on the way to it share no
/// clusters.
pub proof fn law_truncated_is_empty(
    img: Image,
    g: Geometry,
    path: Seq<u8>,
    info: FileInfo,
    n: nat,
    nd: nat,
)
    requires
        dir::found(img, g, path) == Some(info),
        laws_found::sound_file(img, g, info, n, nd),
        laws_found::way_apart(
            img,
            g,
            g.root_cluster,
            cwd::split_on(dir::stripped(path), 47),
            info,
            n,
            nd,
        ),
    ensures
        ({
            let (img2, ok) = create::truncated(img, g, info);
            &&& ok
            &&& dir::found(img2, g, path) == Some(file::resized(info, 0, 0))
            &&& forall|x: u32|
                laws::real_cluster(g, x) ==> #[trigger] types::fat_value(img2, g, x) == (
                if laws_grow::in_chain(img, g, info.first_cluster, n, x) {
                    0
                } else {
                    types::fat_value(img, g, x)
                })
        }),
{
    let first = info.first_cluster;
    let (img2, ok) = create::truncated(img, g, info);
    let at = file::entry_pos(img, g, info.dir_cluster, info.entry_off as int);
    let img1 = file::entry_patched(img, g, info.dir_cluster, info.entry_off as int, 0, 0).0;
    lemma_entry_emptied(img, g, info, n, nd);
    lemma_truncated_image(img, g, info, n, nd);
    assert forall|x: u32| laws_grow::in_chain(img1, g, first, n, x) == laws_grow::in_chain(
        img,
        g,
        first,
        n,
        x,
    ) by {
        if laws_grow::in_chain(img1, g, first, n, x) {
            let m = choose|m: nat| m < n && #[trigger] types::nth_in(img1, g, first, m) == Some(x);
            assert(types::nth_in(img, g, first, m) == Some(x));
        }
        if laws_grow::in_chain(img, g, first, n, x) {
            let m = choose|m: nat| m < n && #[trigger] types::nth_in(img, g, first, m) == Some(x);
            assert(types::nth_in(img1, g, first, m) == Some(x));
        }
    }
    assert forall|x: u32| laws::real_cluster(g, x) implies #[trigger] types::fat_value(img2, g, x)
        == (if laws_grow::in_chain(img, g, first, n, x) {
        0
    } else {
        types::fat_value(img, g, x)
    }) by {
        assert(types::fat_value(img1, g, x) == types::fat_value(img, g, x));
    }
    assert forall|x: u32, q: int| #[trigger]
        laws_apart::lies_in(img, g, x, q) && laws_found::used_elsewhere(img, g, first, n, x) && (q
            < at->0 + 20 || at->0 + 32 <= q) implies block::byte_at(img2, q) == block::byte_at(
        img,
        q,
    ) by {
        laws::lemma_cluster_behind(g, x);
        assert(block::byte_at(img1, q) == block::byte_at(img, q));
    }
    // The entry lies behind the tables.
    let cd = laws_found::lemma_entry_cluster(img, g, info, n, nd);
    laws::lemma_cluster_behind(g, cd);
    let pos = at->0;
    assert(block::bytes_at(img2, pos, 32) =~= block::bytes_at(img1, pos, 32)) by {
        assert forall|i: int| 0 <= i < 32 implies block::bytes_at(img2, pos, 32)[i]
            == block::bytes_at(img1, pos, 32)[i] by {
            let q = pos + i;
            let l = (q / 512) as u64;
            assert(types::cluster_lba(g, cd) <= q / 512 < types::cluster_lba(g, cd) + g.spc);
            assert(l == q / 512);
            assert(img.dom().contains(l));
            assert(block::byte_at(img2, q) == block::byte_at(img1, q));
        }
    }
    assert(laws_found::only_entry_changes(img, img2, g, info, n, 0, 0));
    laws_found::lemma_lookup_renewed(
        img,
        img2,
        g,
        info,
        n,
        nd,
        0,
        0,
        g.root_cluster,
        cwd::split_on(dir::stripped(path), 47),
    );
}

} // verus!
