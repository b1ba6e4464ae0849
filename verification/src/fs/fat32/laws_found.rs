//! What holds of volumes across writes: a file that was written to is found by
//! its path, and reads back.
use vstd::prelude::*;

use super::dir;
use super::file;
use super::laws;
use super::laws_apart;
use super::laws_create;
use super::laws_grow;
use super::types;
use super::types::{EntryView, FileInfo, Geometry, MAX_WALK};
use crate::bytes;
use crate::fs::block;
use crate::fs::block::Image;
use crate::shell::cwd;

verus! {

// ── Directories of which one entry changes ──

/// An entry with another start and size: the name and the attributes are kept.
pub open spec fn renewed_slot(e: Seq<u8>, e2: Seq<u8>, first: u32, size: u32) -> bool {
    &&& forall|i: int| 0 <= i < 20 ==> #[trigger] e2[i] == e[i]
    &&& dir::entry_of(e2, 0).first_cluster == first
    &&& dir::entry_of(e2, 0).size == size
}

/// An entry with another start and size, if it is the one at `off`.
pub open spec fn renewed(e: EntryView, off: int, first: u32, size: u32) -> EntryView {
    if e.entry_off == off {
        EntryView { first_cluster: first, size, ..e }
    } else {
        e
    }
}

/// Entries of which the one at `off` has another start and size.
pub open spec fn all_renewed(es: Seq<EntryView>, off: int, first: u32, size: u32) -> Seq<
    EntryView,
> {
    es.map_values(|e: EntryView| renewed(e, off, first, size))
}

/// The slots of a cluster, which stands at `base` in its directory, are kept
/// but for the one at `off`.
pub open spec fn slots_renewed(
    img: Image,
    img2: Image,
    g: Geometry,
    c: u32,
    base: int,
    off: int,
    first: u32,
    size: u32,
) -> bool {
    forall|k: int|
        0 <= k < dir::slots(g) ==> if base + 32 * k == off {
            renewed_slot(dir::slot(img, g, c, k), #[trigger] dir::slot(img2, g, c, k), first, size)
        } else {
            dir::slot(img2, g, c, k) == dir::slot(img, g, c, k)
        }
}

proof fn lemma_renewed_append(
    a: Seq<EntryView>,
    b: Seq<EntryView>,
    off: int,
    first: u32,
    size: u32,
)
    ensures
        all_renewed(a + b, off, first, size) == all_renewed(a, off, first, size) + all_renewed(
            b,
            off,
            first,
            size,
        ),
{
    assert(all_renewed(a + b, off, first, size) =~= all_renewed(a, off, first, size) + all_renewed(
        b,
        off,
        first,
        size,
    ));
}

/// What a slot with another start and size says.
proof fn lemma_slot_says(e: Seq<u8>, e2: Seq<u8>, off: int, first: u32, size: u32)
    requires
        e.len() == 32,
        e2.len() == 32,
        renewed_slot(e, e2, first, size),
    ensures
        e2[0] == e[0],
        dir::visible(e2) == dir::visible(e),
        dir::entry_of(e2, off) == renewed(dir::entry_of(e, off), off, first, size),
{
    assert(e2[0] == e[0] && e2[11] == e[11]);
    assert(e2.take(8) =~= e.take(8));
    assert(e2.subrange(8, 11) =~= e.subrange(8, 11));
}

proof fn lemma_cluster_renewed(
    img: Image,
    img2: Image,
    g: Geometry,
    c: u32,
    base: int,
    j: int,
    off: int,
    first: u32,
    size: u32,
)
    requires
        0 <= j,
        slots_renewed(img, img2, g, c, base, off, first, size),
    ensures
        ({
            let (es, end) = dir::cluster_entries(img, g, c, base, j);
            dir::cluster_entries(img2, g, c, base, j) == (all_renewed(es, off, first, size), end)
        }),
    decreases dir::slots(g) - j,
{
    if j < dir::slots(g) {
        let e = dir::slot(img, g, c, j);
        let e2 = dir::slot(img2, g, c, j);
        assert(e.len() == 32 && e2.len() == 32);
        let at = base + 32 * j;
        if at == off {
            lemma_slot_says(e, e2, off, first, size);
        }
        assert(e2[0] == e[0]);
        if e[0] == 0 {
            assert(all_renewed(Seq::empty(), off, first, size) =~= Seq::<EntryView>::empty());
        } else {
            lemma_cluster_renewed(img, img2, g, c, base, j + 1, off, first, size);
            let r = dir::cluster_entries(img, g, c, base, j + 1).0;
            let x = dir::entry_of(e, at);
            lemma_renewed_append(seq![x], r, off, first, size);
            assert(all_renewed(seq![x], off, first, size) =~= seq![renewed(x, off, first, size)]);
        }
    } else {
        assert(all_renewed(Seq::empty(), off, first, size) =~= Seq::<EntryView>::empty());
    }
}

/// The entries of a directory of which one slot changes, from cluster `i` on.
proof fn lemma_entries_renewed(
    img: Image,
    img2: Image,
    g: Geometry,
    d: u32,
    nd: nat,
    i: nat,
    fuel: nat,
    off: int,
    first: u32,
    size: u32,
)
    requires
        laws_create::whole_chain(img, g, d, nd),
        i < nd,
        forall|j: nat|
            j < nd ==> {
                let c = (#[trigger] types::nth_in(img, g, d, j))->0;
                &&& slots_renewed(
                    img,
                    img2,
                    g,
                    c,
                    j * types::cluster_size(g),
                    off,
                    first,
                    size,
                )
                &&& types::next_in(img2, g, c) == types::next_in(img, g, c)
            },
    ensures
        ({
            let c = types::nth_in(img, g, d, i)->0;
            let base = i * types::cluster_size(g);
            dir::entries_from(img2, g, c, base, fuel) == all_renewed(
                dir::entries_from(img, g, c, base, fuel),
                off,
                first,
                size,
            )
        }),
    decreases fuel,
{
    let cs = types::cluster_size(g);
    assert(types::nth_in(img, g, d, i) is Some);
    let c = types::nth_in(img, g, d, i)->0;
    let base = i * cs;
    lemma_cluster_renewed(img, img2, g, c, base, 0, off, first, size);
    let (es, end) = dir::cluster_entries(img, g, c, base, 0);
    if !end && fuel > 0 {
        assert(types::nth_in(img, g, d, i + 1) == types::next_in(img, g, c));
        if types::next_in(img, g, c) is Some {
            assert(i + 1 < nd);
            assert((i + 1) * cs == base + cs) by (nonlinear_arith)
                requires
                    base == i * cs,
            ;
            lemma_entries_renewed(
                img,
                img2,
                g,
                d,
                nd,
                i + 1,
                (fuel - 1) as nat,
                off,
                first,
                size,
            );
            let rest = dir::entries_from(
                img,
                g,
                types::next_in(img, g, c)->0,
                base + cs,
                (fuel - 1) as nat,
            );
            lemma_renewed_append(es, rest, off, first, size);
        }
    }
}

/// The entries of a directory whose slots are kept, from cluster `i` on.
proof fn lemma_entries_same(
    img: Image,
    img2: Image,
    g: Geometry,
    d: u32,
    nd: nat,
    i: nat,
    base: int,
    fuel: nat,
)
    requires
        laws_create::whole_chain(img, g, d, nd),
        i < nd,
        forall|j: nat|
            j < nd ==> {
                let c = (#[trigger] types::nth_in(img, g, d, j))->0;
                &&& forall|k: int|
                    0 <= k < dir::slots(g) ==> #[trigger] dir::slot(img2, g, c, k) == dir::slot(
                        img,
                        g,
                        c,
                        k,
                    )
                &&& types::next_in(img2, g, c) == types::next_in(img, g, c)
            },
    ensures
        ({
            let c = types::nth_in(img, g, d, i)->0;
            dir::entries_from(img2, g, c, base, fuel) == dir::entries_from(img, g, c, base, fuel)
        }),
    decreases fuel,
{
    assert(types::nth_in(img, g, d, i) is Some);
    let c = types::nth_in(img, g, d, i)->0;
    laws_create::lemma_cluster_same(img, img2, g, c, base, 0);
    if !dir::cluster_entries(img, g, c, base, 0).1 && fuel > 0 {
        assert(types::nth_in(img, g, d, i + 1) == types::next_in(img, g, c));
        if types::next_in(img, g, c) is Some {
            assert(i + 1 < nd);
            lemma_entries_same(
                img,
                img2,
                g,
                d,
                nd,
                i + 1,
                base + types::cluster_size(g),
                (fuel - 1) as nat,
            );
        }
    }
}

/// The first entry of a name where one entry has another start and size.
proof fn lemma_first_renewed(
    es: Seq<EntryView>,
    key: Seq<u8>,
    off: int,
    first: u32,
    size: u32,
)
    ensures
        dir::first_named(all_renewed(es, off, first, size), key) == match dir::first_named(es, key) {
            Some(e) => Some(renewed(e, off, first, size)),
            None => None,
        },
    decreases es.len(),
{
    let r = all_renewed(es, off, first, size);
    if es.len() > 0 {
        assert(r[0] == renewed(es[0], off, first, size));
        assert(r.skip(1) =~= all_renewed(es.skip(1), off, first, size));
        lemma_first_renewed(es.skip(1), key, off, first, size);
    }
}

// ── The image after a write ──

/// A file that a path leads to on a sound volume: the chain of the file has
/// `n` clusters, that of its directory `nd`, and they share none.
pub open spec fn sound_file(img: Image, g: Geometry, info: FileInfo, n: nat, nd: nat) -> bool {
    &&& laws_create::usual_layout(g)
    &&& laws::tables_present(img, g)
    &&& laws_create::clusters_present(img, g)
    &&& laws_grow::good_chain(img, g, info.first_cluster, n)
    &&& n <= g.fat_size * 128
    &&& info.size <= n * types::cluster_size(g)
    &&& laws_grow::apart_from_directory(img, g, info, n, nd)
    &&& !info.is_dir
}

/// A write that finds room for some of the data and makes the file longer.
pub open spec fn grows(
    img: Image,
    g: Geometry,
    info: FileInfo,
    n: nat,
    nd: nat,
    offset: int,
    data: Seq<u8>,
) -> bool {
    &&& sound_file(img, g, info, n, nd)
    &&& data.len() > 0
    &&& 0 <= offset
    &&& info.size < offset + data.len() <= u32::MAX
    &&& file::grown(img, g, info, offset, data).1 > 0
}

/// The end of a file after a write that makes it longer.
pub open spec fn new_end(
    img: Image,
    g: Geometry,
    info: FileInfo,
    n: nat,
    offset: int,
    data: Seq<u8>,
) -> int {
    let t = laws_grow::chain_for(img, g, info, n, offset + data.len());
    file::min(offset + data.len(), t.have * types::cluster_size(g))
}

/// A cluster that is in use, but not by the file.
pub open spec fn used_elsewhere(img: Image, g: Geometry, first: u32, n: nat, x: u32) -> bool {
    &&& laws::real_cluster(g, x)
    &&& types::fat_value(img, g, x) != 0
    &&& !laws_grow::in_chain(img, g, first, n, x)
}

/// After a write that makes a file longer: the table is that of the lengthened
/// chain, and a byte of a cluster that is not the file's is kept, unless it is
/// one of the fields of the file's directory entry.
proof fn lemma_grown_elsewhere(
    img: Image,
    g: Geometry,
    info: FileInfo,
    n: nat,
    nd: nat,
    offset: int,
    data: Seq<u8>,
    x: u32,
    q: int,
)
    requires
        grows(img, g, info, n, nd, offset, data),
        used_elsewhere(img, g, info.first_cluster, n, x),
        laws_apart::lies_in(img, g, x, q),
        ({
            let pos = file::entry_pos(img, g, info.dir_cluster, info.entry_off as int)->0;
            q < pos + 20 || pos + 32 <= q
        }),
    ensures
        ({
            let img2 = file::grown(img, g, info, offset, data).0;
            let t = laws_grow::chain_for(img, g, info, n, offset + data.len());
            &&& laws_grow::table_kept(t.img, img2, g)
            &&& types::fat_value(img2, g, x) == types::fat_value(img, g, x)
            &&& block::byte_at(img2, q) == block::byte_at(img, q)
        }),
{
    let cs = types::cluster_size(g);
    let s = laws_grow::chain_of(img, g, info.first_cluster, n);
    let t = laws_grow::chain_for(img, g, info, n, offset + data.len());
    laws_grow::lemma_chain_for(img, g, info, n, offset + data.len());
    let end = new_end(img, g, info, n, offset, data);
    let img2 = file::grown(img, g, info, offset, data).0;
    assert(file::grown(img, g, info, offset, data) == file::grown_into(t, g, info, offset, data));
    assert(end > offset);
    assert(t.have > 0) by {
        if t.have == 0 {
            assert(t.have * cs == 0) by (nonlinear_arith)
                requires
                    t.have == 0,
            ;
        }
    }
    laws::lemma_cluster_behind(g, x);
    assert(block::byte_at(t.img, q) == block::byte_at(img, q));
    laws_apart::lemma_still_outside(s, t, g, x);
    laws_grow::lemma_filled_in(t, g, info, offset, data, end);
    laws_apart::lemma_fill_elsewhere(t, g, info, offset, data, end, x, q);
    let old_end = file::min(info.size as int, end);
    let zi = file::zeroed(t.img, g, t.first, old_end, end).0;
    let (wi, m) = file::overwritten(
        zi,
        g,
        file::resized(info, t.first, end as u32),
        offset,
        data.take(file::min(end - offset, data.len() as int)),
    );
    // The directory entry.
    let kd = (info.entry_off as int / cs) as nat;
    let rel = info.entry_off as int % cs;
    vstd::arithmetic::div_mod::lemma_div_pos_is_pos(info.entry_off as int, cs);
    laws_grow::lemma_entry_place(g, info.entry_off);
    laws_apart::lemma_other_sound(s, t, g, info.dir_cluster, nd);
    laws_grow::lemma_table_nth(t.img, wi, g, info.dir_cluster, nd, kd);
    assert(types::nth_in(img, g, info.dir_cluster, kd) is Some);
    let cd = types::nth_in(img, g, info.dir_cluster, kd)->0;
    assert(laws::real_cluster(g, cd));
    let pos = types::cluster_pos(g, cd) + rel;
    let fields = file::entry_fields(t.first, block::bytes_at(wi, pos + 22, 4), end as u32);
    bytes::lemma_le_bytes_len((t.first / 65536) as nat, 2);
    bytes::lemma_le_bytes_len((t.first % 65536) as nat, 2);
    bytes::lemma_le_bytes_len(end as u32 as nat, 4);
    assert(fields.len() == 12);
    let pi = block::patched(wi, pos + 20, fields);
    assert(pos + 20 == types::cluster_pos(g, cd) + (rel + 20));
    laws::lemma_patch_dom(wi, pos + 20, fields);
    laws::lemma_byte_kept(wi, pos + 20, fields, q);
    assert(img2 == types::with_fsinfo(pi, -t.allocated, file::after(t.last)));
    laws_create::lemma_count_keeps_entries(pi, g, -t.allocated, file::after(t.last), 0);
    assert forall|y: u32| laws::real_cluster(g, y) implies #[trigger] types::fat_value(img2, g, y)
        == types::fat_value(t.img, g, y) by {
        laws::lemma_patch_keeps_entries(wi, g, cd, rel + 20, fields, y);
        laws_create::lemma_count_keeps_entries(pi, g, -t.allocated, file::after(t.last), y);
        assert(types::fat_value(wi, g, y) == types::fat_value(t.img, g, y));
    }
    assert(types::fat_value(t.img, g, x) == types::fat_value(img, g, x));
    assert(0 <= g.num_fats * g.fat_size) by (nonlinear_arith)
        requires
            0 <= g.num_fats,
            0 <= g.fat_size,
    ;
    laws_create::lemma_count_keeps(pi, g, -t.allocated, file::after(t.last), q);
}

/// Of all that is in use, but not by the file, only its directory entry has
/// changed: it has this start and this size.
pub open spec fn only_entry_changes(
    img: Image,
    img2: Image,
    g: Geometry,
    info: FileInfo,
    n: nat,
    first: u32,
    size: int,
) -> bool {
    let at = file::entry_pos(img, g, info.dir_cluster, info.entry_off as int);
    &&& forall|x: u32, q: int| #[trigger]
        laws_apart::lies_in(img, g, x, q) && used_elsewhere(img, g, info.first_cluster, n, x) && (q
            < at->0 + 20 || at->0 + 32 <= q) ==> block::byte_at(img2, q) == block::byte_at(img, q)
    &&& forall|x: u32|
        used_elsewhere(img, g, info.first_cluster, n, x) ==> #[trigger] types::fat_value(img2, g, x)
            == types::fat_value(img, g, x)
    &&& laws_grow::entry_names(img2, g, info, at, first, size)
}

/// A write that makes a file longer changes the entry of the file.
proof fn lemma_grown_changes(
    img: Image,
    g: Geometry,
    info: FileInfo,
    n: nat,
    nd: nat,
    offset: int,
    data: Seq<u8>,
)
    requires
        grows(img, g, info, n, nd, offset, data),
    ensures
        only_entry_changes(
            img,
            file::grown(img, g, info, offset, data).0,
            g,
            info,
            n,
            laws_grow::chain_for(img, g, info, n, offset + data.len()).first,
            new_end(img, g, info, n, offset, data),
        ),
{
    let img2 = file::grown(img, g, info, offset, data).0;
    let pos = file::entry_pos(img, g, info.dir_cluster, info.entry_off as int)->0;
    assert forall|x: u32, q: int| #[trigger]
        laws_apart::lies_in(img, g, x, q) && used_elsewhere(img, g, info.first_cluster, n, x) && (q
            < pos + 20 || pos + 32 <= q) implies block::byte_at(img2, q) == block::byte_at(
        img,
        q,
    ) by {
        lemma_grown_elsewhere(img, g, info, n, nd, offset, data, x, q);
    }
    assert forall|x: u32|
        used_elsewhere(img, g, info.first_cluster, n, x) implies #[trigger] types::fat_value(
        img2,
        g,
        x,
    ) == types::fat_value(img, g, x) by {
        assert(laws::cluster_present(img, g, x));
        laws_create::lemma_slot_byte(img, g, x, 0, 0);
        let cd = lemma_entry_cluster(img, g, info, n, nd);
        if x != cd {
            laws::lemma_clusters_apart(g, x, cd);
        }
        lemma_grown_elsewhere(img, g, info, n, nd, offset, data, x, types::cluster_pos(g, x));
    }
    laws_grow::law_grown_reads_back(img, g, info, n, nd, offset, data);
}

/// The cluster that holds the entry of a file.
pub proof fn lemma_entry_cluster(img: Image, g: Geometry, info: FileInfo, n: nat, nd: nat) -> (cd: u32)
    requires
        sound_file(img, g, info, n, nd),
    ensures
        ({
            let cs = types::cluster_size(g);
            let off = info.entry_off as int;
            &&& 0 <= off / cs < nd
            &&& types::nth_in(img, g, info.dir_cluster, (off / cs) as nat) == Some(cd)
            &&& used_elsewhere(img, g, info.first_cluster, n, cd)
            &&& laws::cluster_present(img, g, cd)
            &&& file::entry_pos(img, g, info.dir_cluster, off) == Some(
                types::cluster_pos(g, cd) + off % cs,
            )
            &&& 0 <= off % cs
            &&& off % cs + 32 <= cs
        }),
{
    let cs = types::cluster_size(g);
    let kd = (info.entry_off as int / cs) as nat;
    vstd::arithmetic::div_mod::lemma_div_pos_is_pos(info.entry_off as int, cs);
    laws_grow::lemma_entry_place(g, info.entry_off);
    assert(types::nth_in(img, g, info.dir_cluster, kd) is Some);
    laws_create::lemma_chain_not_free(img, g, info.dir_cluster, nd, kd);
    types::nth_in(img, g, info.dir_cluster, kd)->0
}

/// A directory that shares no cluster with the file or with its directory has
/// the same entries where only the entry of the file changes.
proof fn lemma_other_directory(
    img: Image,
    img2: Image,
    g: Geometry,
    info: FileInfo,
    n: nat,
    nd: nat,
    first: u32,
    size: u32,
    d: u32,
    no: nat,
)
    requires
        sound_file(img, g, info, n, nd),
        only_entry_changes(img, img2, g, info, n, first, size as int),
        laws_create::whole_chain(img, g, d, no),
        laws_apart::share_nothing(img, g, info.first_cluster, n, d, no),
        laws_apart::share_nothing(img, g, info.dir_cluster, nd, d, no),
    ensures
        dir::dir_entries(img2, g, d) == dir::dir_entries(img, g, d),
{
    let cd = lemma_entry_cluster(img, g, info, n, nd);
    assert(laws_grow::in_chain(img, g, info.dir_cluster, nd, cd));
    assert forall|j: nat| j < no implies {
        let c = (#[trigger] types::nth_in(img, g, d, j))->0;
        &&& forall|k: int|
            0 <= k < dir::slots(g) ==> #[trigger] dir::slot(img2, g, c, k) == dir::slot(img, g, c, k)
        &&& types::next_in(img2, g, c) == types::next_in(img, g, c)
    } by {
        let c = types::nth_in(img, g, d, j)->0;
        assert(types::nth_in(img, g, d, j) is Some);
        laws_create::lemma_chain_not_free(img, g, d, no, j);
        assert(c != cd);
        laws::lemma_clusters_apart(g, c, cd);
        assert(used_elsewhere(img, g, info.first_cluster, n, c));
        assert(types::fat_value(img2, g, c) == types::fat_value(img, g, c));
        assert forall|k: int| 0 <= k < dir::slots(g) implies #[trigger] dir::slot(img2, g, c, k)
            == dir::slot(img, g, c, k) by {
            assert forall|i: int| 0 <= i < 32 implies #[trigger] dir::slot(img2, g, c, k)[i]
                == dir::slot(img, g, c, k)[i] by {
                laws_create::lemma_slot_byte(img, g, c, k, i);
                let q = types::cluster_pos(g, c) + 32 * k + i;
                assert(laws_apart::lies_in(img, g, c, q));
            }
            assert(dir::slot(img2, g, c, k) =~= dir::slot(img, g, c, k));
        }
    }
    assert(types::nth_in(img, g, d, 0) == Some(d));
    lemma_entries_same(img, img2, g, d, no, 0, 0, MAX_WALK as nat);
}

/// The directory of the file has the same entries, but for that of the file,
/// where only this one changes.
proof fn lemma_own_directory(
    img: Image,
    img2: Image,
    g: Geometry,
    info: FileInfo,
    n: nat,
    nd: nat,
    first: u32,
    size: u32,
)
    requires
        sound_file(img, g, info, n, nd),
        only_entry_changes(img, img2, g, info, n, first, size as int),
    ensures
        dir::dir_entries(img2, g, info.dir_cluster) == all_renewed(
            dir::dir_entries(img, g, info.dir_cluster),
            info.entry_off as int,
            first,
            size,
        ),
{
    let cs = types::cluster_size(g);
    let d = info.dir_cluster;
    let off = info.entry_off as int;
    let cd = lemma_entry_cluster(img, g, info, n, nd);
    let kd = (off / cs) as nat;
    let pos = types::cluster_pos(g, cd) + off % cs;
    assert forall|j: nat| j < nd implies {
        let c = (#[trigger] types::nth_in(img, g, d, j))->0;
        &&& slots_renewed(img, img2, g, c, j * cs, off, first, size)
        &&& types::next_in(img2, g, c) == types::next_in(img, g, c)
    } by {
        let c = types::nth_in(img, g, d, j)->0;
        assert(types::nth_in(img, g, d, j) is Some);
        laws_create::lemma_chain_not_free(img, g, d, nd, j);
        assert(used_elsewhere(img, g, info.first_cluster, n, c));
        assert(types::fat_value(img2, g, c) == types::fat_value(img, g, c));
        if j != kd {
            assert(c != cd) by {
                if j < kd {
                    assert(types::nth_in(img, g, d, j) != types::nth_in(img, g, d, kd));
                } else {
                    assert(types::nth_in(img, g, d, kd) != types::nth_in(img, g, d, j));
                }
            }
            laws::lemma_clusters_apart(g, c, cd);
        }
        assert forall|k: int| 0 <= k < dir::slots(g) implies if j * cs + 32 * k == off {
            renewed_slot(dir::slot(img, g, c, k), #[trigger] dir::slot(img2, g, c, k), first, size)
        } else {
            dir::slot(img2, g, c, k) == dir::slot(img, g, c, k)
        } by {
            let here = j * cs + 32 * k == off;
            lemma_place_unique(g, j, k, off);
            assert forall|i: int| 0 <= i < 32 && (!here || i < 20) implies #[trigger] dir::slot(
                img2,
                g,
                c,
                k,
            )[i] == dir::slot(img, g, c, k)[i] by {
                laws_create::lemma_slot_byte(img, g, c, k, i);
                let q = types::cluster_pos(g, c) + 32 * k + i;
                assert(laws_apart::lies_in(img, g, c, q));
            }
            if !here {
                assert(dir::slot(img2, g, c, k) =~= dir::slot(img, g, c, k));
            }
        }
    }
    assert(types::nth_in(img, g, d, 0) == Some(d));
    assert(0 * cs == 0);
    lemma_entries_renewed(img, img2, g, d, nd, 0, MAX_WALK as nat, off, first, size);
}

/// A slot stands at an offset of its directory only in the cluster and at the
/// place that the offset names.
proof fn lemma_place_unique(g: Geometry, j: nat, k: int, off: int)
    requires
        types::sound_geometry(g),
        0 <= k < dir::slots(g),
        0 <= off,
        off % 32 == 0,
    ensures
        ({
            let cs = types::cluster_size(g);
            let here = j * cs + 32 * k == off;
            &&& here ==> off / cs == j && off % cs == 32 * k
            &&& !here && off / cs == j ==> off % cs + 32 <= 32 * k || 32 * k + 32 <= off % cs
        }),
{
    let cs = types::cluster_size(g);
    assert(j * cs == cs * j) by (nonlinear_arith);
    if j * cs + 32 * k == off {
        vstd::arithmetic::div_mod::lemma_fundamental_div_mod_converse(off, cs, j as int, 32 * k);
    } else if off / cs == j {
        vstd::arithmetic::div_mod::lemma_fundamental_div_mod(off, cs);
        let z = g.spc * j;
        assert(cs * j == 512 * z) by (nonlinear_arith)
            requires
                cs == g.spc * 512,
                z == g.spc * j,
        ;
        assert((off % cs) % 32 == 0);
    }
}

/// A directory that shares no cluster with the file has the same entries after
/// a write within the file.
proof fn lemma_directory_kept(
    img: Image,
    g: Geometry,
    info: FileInfo,
    n: nat,
    nd: nat,
    offset: int,
    data: Seq<u8>,
    d: u32,
    no: nat,
)
    requires
        sound_file(img, g, info, n, nd),
        data.len() > 0,
        0 <= offset,
        offset + data.len() <= info.size,
        laws_create::whole_chain(img, g, d, no),
        laws_apart::share_nothing(img, g, info.first_cluster, n, d, no),
    ensures
        dir::dir_entries(file::grown(img, g, info, offset, data).0, g, d) == dir::dir_entries(
            img,
            g,
            d,
        ),
{
    let img2 = file::overwritten(img, g, info, offset, data).0;
    assert(laws::sound_chain(img, g, info.first_cluster, n));
    assert forall|j: nat| j < no implies {
        let c = (#[trigger] types::nth_in(img, g, d, j))->0;
        &&& forall|k: int|
            0 <= k < dir::slots(g) ==> #[trigger] dir::slot(img2, g, c, k) == dir::slot(img, g, c, k)
        &&& types::next_in(img2, g, c) == types::next_in(img, g, c)
    } by {
        let c = types::nth_in(img, g, d, j)->0;
        assert(types::nth_in(img, g, d, j) is Some);
        assert forall|k: int| 0 <= k < dir::slots(g) implies #[trigger] dir::slot(img2, g, c, k)
            == dir::slot(img, g, c, k) by {
            assert forall|i: int| 0 <= i < 32 implies #[trigger] dir::slot(img2, g, c, k)[i]
                == dir::slot(img, g, c, k)[i] by {
                laws_create::lemma_slot_byte(img, g, c, k, i);
                let q = types::cluster_pos(g, c) + 32 * k + i;
                laws_apart::lemma_overwrite_elsewhere(img, g, info, n, offset, data, c, q);
            }
            assert(dir::slot(img2, g, c, k) =~= dir::slot(img, g, c, k));
        }
        laws_create::lemma_slot_byte(img, g, c, 0, 0);
        laws_apart::lemma_overwrite_elsewhere(
            img,
            g,
            info,
            n,
            offset,
            data,
            c,
            types::cluster_pos(g, c),
        );
    }
    assert(types::nth_in(img, g, d, 0) == Some(d));
    lemma_entries_same(img, img2, g, d, no, 0, 0, MAX_WALK as nat);
}

// ── Paths ──

/// The entries of a cluster stand in it.
proof fn lemma_cluster_offsets(img: Image, g: Geometry, c: u32, base: int, j: int)
    requires
        0 <= j,
    ensures
        forall|i: int|
            #![trigger dir::cluster_entries(img, g, c, base, j).0[i]]
            0 <= i < dir::cluster_entries(img, g, c, base, j).0.len() ==> base
                <= dir::cluster_entries(img, g, c, base, j).0[i].entry_off < base
                + types::cluster_size(g),
    decreases dir::slots(g) - j,
{
    if j < dir::slots(g) {
        lemma_cluster_offsets(img, g, c, base, j + 1);
        let r = dir::cluster_entries(img, g, c, base, j + 1).0;
        let es = dir::cluster_entries(img, g, c, base, j).0;
        assert forall|i: int| 0 <= i < es.len() implies base <= (#[trigger] es[i]).entry_off < base
            + types::cluster_size(g) by {
            if es.len() == r.len() + 1 {
                if i > 0 {
                    assert(es[i] == r[i - 1]);
                }
            } else {
                assert(es[i] == r[i]);
            }
        }
    }
}

/// The entries of a directory stand in its clusters.
proof fn lemma_entry_offsets(img: Image, g: Geometry, c: u32, base: int, fuel: nat)
    requires
        types::sound_geometry(g),
    ensures
        forall|i: int|
            #![trigger dir::entries_from(img, g, c, base, fuel)[i]]
            0 <= i < dir::entries_from(img, g, c, base, fuel).len() ==> base <= dir::entries_from(
                img,
                g,
                c,
                base,
                fuel,
            )[i].entry_off < base + 65536 * (fuel + 1),
    decreases fuel,
{
    lemma_cluster_offsets(img, g, c, base, 0);
    let (es, end) = dir::cluster_entries(img, g, c, base, 0);
    let all = dir::entries_from(img, g, c, base, fuel);
    assert(0 < types::cluster_size(g) <= 65536);
    if !end && fuel > 0 && types::next_in(img, g, c) is Some {
        let next = types::next_in(img, g, c)->0;
        let at = base + types::cluster_size(g);
        lemma_entry_offsets(img, g, next, at, (fuel - 1) as nat);
        let rest = dir::entries_from(img, g, next, at, (fuel - 1) as nat);
        assert(all == es + rest);
        assert forall|i: int| 0 <= i < all.len() implies base <= (#[trigger] all[i]).entry_off
            < base + 65536 * (fuel + 1) by {
            if i < es.len() {
                assert(all[i] == es[i]);
            } else {
                assert(all[i] == rest[i - es.len()]);
            }
        }
    } else {
        assert(all == es);
        assert forall|i: int| 0 <= i < all.len() implies base <= (#[trigger] all[i]).entry_off
            < base + 65536 * (fuel + 1) by {
            assert(all[i] == es[i]);
        }
    }
}

/// The first entry of a name is one of the entries.
pub proof fn lemma_first_is_entry(es: Seq<EntryView>, key: Seq<u8>) -> (i: int)
    requires
        dir::first_named(es, key) is Some,
    ensures
        0 <= i < es.len(),
        dir::first_named(es, key) == Some(es[i]),
    decreases es.len(),
{
    if dir::entry_key(es[0].name) == key {
        0
    } else {
        let j = lemma_first_is_entry(es.skip(1), key);
        j + 1
    }
}

/// A directory on the way to a file, which shares no cluster with the file or
/// with its directory.
pub open spec fn way_directory(
    img: Image,
    g: Geometry,
    d: u32,
    info: FileInfo,
    n: nat,
    nd: nat,
) -> bool {
    exists|no: nat| #[trigger]
        laws_create::whole_chain(img, g, d, no) && laws_apart::share_nothing(
            img,
            g,
            info.first_cluster,
            n,
            d,
            no,
        ) && laws_apart::share_nothing(img, g, info.dir_cluster, nd, d, no)
}

/// The directories that a path leads through, before that of the file, are on
/// clusters of their own.
pub open spec fn way_apart(
    img: Image,
    g: Geometry,
    d: u32,
    parts: Seq<Seq<u8>>,
    info: FileInfo,
    n: nat,
    nd: nat,
) -> bool
    decreases parts.len(),
{
    if parts.len() <= 1 {
        true
    } else if parts[0].len() == 0 {
        way_apart(img, g, d, parts.skip(1), info, n, nd)
    } else {
        &&& way_directory(img, g, d, info, n, nd)
        &&& match dir::named_in(img, g, d, parts[0]) {
            Some(hit) => way_apart(img, g, hit.first_cluster, parts.skip(1), info, n, nd),
            None => true,
        }
    }
}

/// What a path leads to where only the entry of the file changes.
pub proof fn lemma_lookup_renewed(
    img: Image,
    img2: Image,
    g: Geometry,
    info: FileInfo,
    n: nat,
    nd: nat,
    first: u32,
    size: u32,
    d: u32,
    parts: Seq<Seq<u8>>,
)
    requires
        sound_file(img, g, info, n, nd),
        only_entry_changes(img, img2, g, info, n, first, size as int),
        dir::lookup(img, g, d, parts) == Some(info),
        way_apart(img, g, d, parts, info, n, nd),
    ensures
        dir::lookup(img2, g, d, parts) == Some(file::resized(info, first, size)),
    decreases parts.len(),
{
    if parts[0].len() == 0 {
        lemma_lookup_renewed(img, img2, g, info, n, nd, first, size, d, parts.skip(1));
    } else {
        reveal(dir::named_in);
        let key = dir::component_key(parts[0]);
        let es = dir::dir_entries(img, g, d);
        if parts.len() == 1 {
            assert(d == info.dir_cluster);
            let i = lemma_first_is_entry(es, key);
            lemma_entry_offsets(img, g, d, 0, MAX_WALK as nat);
            assert(es[i].entry_off == info.entry_off);
            lemma_own_directory(img, img2, g, info, n, nd, first, size);
            lemma_first_renewed(es, key, info.entry_off as int, first, size);
        } else {
            let no = choose|no: nat| #[trigger]
                laws_create::whole_chain(img, g, d, no) && laws_apart::share_nothing(
                    img,
                    g,
                    info.first_cluster,
                    n,
                    d,
                    no,
                ) && laws_apart::share_nothing(img, g, info.dir_cluster, nd, d, no);
            lemma_other_directory(img, img2, g, info, n, nd, first, size, d, no);
            let hit = dir::named_in(img, g, d, parts[0])->0;
            lemma_lookup_renewed(
                img,
                img2,
                g,
                info,
                n,
                nd,
                first,
                size,
                hit.first_cluster,
                parts.skip(1),
            );
        }
    }
}

/// What a path leads to after a write within the file.
proof fn lemma_lookup_kept(
    img: Image,
    g: Geometry,
    info: FileInfo,
    n: nat,
    nd: nat,
    offset: int,
    data: Seq<u8>,
    d: u32,
    parts: Seq<Seq<u8>>,
)
    requires
        sound_file(img, g, info, n, nd),
        data.len() > 0,
        0 <= offset,
        offset + data.len() <= info.size,
        dir::lookup(img, g, d, parts) == Some(info),
        way_apart(img, g, d, parts, info, n, nd),
    ensures
        dir::lookup(file::grown(img, g, info, offset, data).0, g, d, parts) == Some(info),
    decreases parts.len(),
{
    if parts[0].len() == 0 {
        lemma_lookup_kept(img, g, info, n, nd, offset, data, d, parts.skip(1));
    } else {
        reveal(dir::named_in);
        if parts.len() == 1 {
            assert(d == info.dir_cluster);
            lemma_directory_kept(img, g, info, n, nd, offset, data, d, nd);
        } else {
            let no = choose|no: nat| #[trigger]
                laws_create::whole_chain(img, g, d, no) && laws_apart::share_nothing(
                    img,
                    g,
                    info.first_cluster,
                    n,
                    d,
                    no,
                ) && laws_apart::share_nothing(img, g, info.dir_cluster, nd, d, no);
            lemma_directory_kept(img, g, info, n, nd, offset, data, d, no);
            let hit = dir::named_in(img, g, d, parts[0])->0;
            lemma_lookup_kept(img, g, info, n, nd, offset, data, hit.first_cluster, parts.skip(1));
        }
    }
}

// ── The law ──

/// A sound chain is as long as it is counted.
proof fn lemma_counted(img: Image, g: Geometry, first: u32, n: nat, i: nat, max: nat)
    requires
        laws::sound_chain(img, g, first, n),
        i + max <= n,
        max > 0,
    ensures
        file::chain_len(img, g, types::nth_in(img, g, first, i)->0, max) == max,
    decreases max,
{
    assert(types::nth_in(img, g, first, i) is Some);
    let c = types::nth_in(img, g, first, i)->0;
    if max > 1 {
        assert(types::nth_in(img, g, first, i + 1) is Some);
        assert(types::nth_in(img, g, first, i + 1) == types::next_in(img, g, c));
        lemma_counted(img, g, first, n, i + 1, (max - 1) as nat);
    } else {
        assert(file::chain_len(img, g, c, 1) == 1) by {
            reveal_with_fuel(file::chain_len, 2);
        }
    }
}

/// A read within a sound chain and within the size of its file is not short.
proof fn lemma_whole_read(img: Image, g: Geometry, info: FileInfo, n: nat, offset: int, count: int)
    requires
        types::sound_geometry(g),
        laws::sound_chain(img, g, info.first_cluster, n),
        0 <= offset,
        0 < count,
        offset + count <= info.size,
        offset + count <= n * types::cluster_size(g),
    ensures
        file::read_len(img, g, info, offset, count) == count,
{
    let cs = types::cluster_size(g);
    let z = offset + count - 1;
    let last = z / cs;
    vstd::arithmetic::div_mod::lemma_fundamental_div_mod(z, cs);
    vstd::arithmetic::div_mod::lemma_div_pos_is_pos(z, cs);
    assert(last + 1 <= n) by (nonlinear_arith)
        requires
            cs * last <= z,
            z < n * cs,
            cs > 0,
    ;
    assert(types::nth_in(img, g, info.first_cluster, 0) is Some);
    lemma_counted(img, g, info.first_cluster, n, 0, (last + 1) as nat);
    assert((last + 1) * cs == cs * last + cs) by (nonlinear_arith);
}

/// The file `x` of an image reads back `data` at an offset.
pub open spec fn reads_back(
    img: Image,
    g: Geometry,
    x: FileInfo,
    offset: int,
    data: Seq<u8>,
) -> bool {
    &&& !x.is_dir
    &&& offset + data.len() <= x.size
    &&& file::read_len(img, g, x, offset, data.len() as int) == data.len()
    &&& forall|k: int|
        0 <= k < data.len() ==> #[trigger] file::file_byte(img, g, x.first_cluster, offset + k)
            == data[k]
}

/// A write within a file reads back.
proof fn lemma_kept_reads_back(
    img: Image,
    g: Geometry,
    info: FileInfo,
    n: nat,
    nd: nat,
    offset: int,
    data: Seq<u8>,
)
    requires
        sound_file(img, g, info, n, nd),
        data.len() > 0,
        0 <= offset,
        offset + data.len() <= info.size,
    ensures
        ({
            let (img2, m) = file::grown(img, g, info, offset, data);
            m == data.len() && reads_back(img2, g, info, offset, data)
        }),
{
    assert(laws::sound_chain(img, g, info.first_cluster, n));
    laws::law_write_reads_back(img, g, info, n, offset, data);
    let (img2, m) = file::overwritten(img, g, info, offset, data);
    assert forall|k: int| 0 <= k < data.len() implies #[trigger] file::file_byte(
        img2,
        g,
        info.first_cluster,
        offset + k,
    ) == data[k] by {
        let p = offset + k;
        assert(0 <= p < n * types::cluster_size(g));
    }
    lemma_whole_read(img2, g, info, n, offset, m);
}

/// A write that makes a file longer reads back as far as it found room.
proof fn lemma_grown_reads_back(
    img: Image,
    g: Geometry,
    info: FileInfo,
    n: nat,
    nd: nat,
    offset: int,
    data: Seq<u8>,
)
    requires
        grows(img, g, info, n, nd, offset, data),
    ensures
        ({
            let (img2, m) = file::grown(img, g, info, offset, data);
            let t = laws_grow::chain_for(img, g, info, n, offset + data.len());
            let end = new_end(img, g, info, n, offset, data);
            &&& 0 < m <= data.len()
            &&& reads_back(
                img2,
                g,
                file::resized(info, t.first, end as u32),
                offset,
                data.take(m),
            )
        }),
{
    let cs = types::cluster_size(g);
    let (img2, m) = file::grown(img, g, info, offset, data);
    let t = laws_grow::chain_for(img, g, info, n, offset + data.len());
    let end = new_end(img, g, info, n, offset, data);
    let x = file::resized(info, t.first, end as u32);
    laws_grow::lemma_chain_for(img, g, info, n, offset + data.len());
    laws_grow::law_grown_reads_back(img, g, info, n, nd, offset, data);
    assert(offset < end <= t.have * cs);
    assert(m == end - offset);
    let d = data.take(m);
    assert forall|k: int| 0 <= k < d.len() implies #[trigger] file::file_byte(
        img2,
        g,
        t.first,
        offset + k,
    ) == d[k] by {
        let p = offset + k;
        assert(file::file_byte(img2, g, t.first, p) == laws_grow::grown_byte(
            img,
            g,
            info,
            offset,
            data,
            p,
        ));
    }
    assert(t.have > 0) by {
        if t.have == 0 {
            assert(t.have * cs == 0) by (nonlinear_arith)
                requires
                    t.have == 0,
            ;
        }
    }
    lemma_grown_chain(img, g, info, n, nd, offset, data);
    lemma_whole_read(img2, g, x, t.have as nat, offset, m);
}

/// The chain of a file that got longer is that of the lengthened one.
proof fn lemma_grown_chain(
    img: Image,
    g: Geometry,
    info: FileInfo,
    n: nat,
    nd: nat,
    offset: int,
    data: Seq<u8>,
)
    requires
        grows(img, g, info, n, nd, offset, data),
    ensures
        ({
            let img2 = file::grown(img, g, info, offset, data).0;
            let t = laws_grow::chain_for(img, g, info, n, offset + data.len());
            t.have > 0 ==> laws::sound_chain(img2, g, t.first, t.have as nat)
        }),
{
    let d = info.dir_cluster;
    let img2 = file::grown(img, g, info, offset, data).0;
    let t = laws_grow::chain_for(img, g, info, n, offset + data.len());
    laws_grow::lemma_chain_for(img, g, info, n, offset + data.len());
    // The table is kept, as it is seen from the start of the directory.
    assert(types::nth_in(img, g, d, 0) is Some);
    assert(types::nth_in(img, g, d, 0) == Some(d));
    laws_create::lemma_chain_not_free(img, g, d, nd, 0);
    laws_create::lemma_slot_byte(img, g, d, 0, 0);
    let cd = lemma_entry_cluster(img, g, info, n, nd);
    if cd != d {
        laws::lemma_clusters_apart(g, d, cd);
    }
    lemma_grown_elsewhere(img, g, info, n, nd, offset, data, d, types::cluster_pos(g, d));
    if t.have > 0 {
        laws_apart::lemma_other_kept_sound(t.img, img2, g, t.first, t.have as nat);
    }
}

/// A file that was written to is found by its path, and the read of what was
/// written gives it back, whether the file got longer or not. This holds on
/// sound volumes: the file, its directory and the directories on the way to it
/// share no clusters.
pub proof fn law_written_file_is_read(
    img: Image,
    g: Geometry,
    path: Seq<u8>,
    info: FileInfo,
    n: nat,
    nd: nat,
    offset: int,
    data: Seq<u8>,
)
    requires
        dir::found(img, g, path) == Some(info),
        sound_file(img, g, info, n, nd),
        way_apart(img, g, g.root_cluster, cwd::split_on(dir::stripped(path), 47), info, n, nd),
        data.len() > 0,
        0 <= offset,
        offset + data.len() <= u32::MAX,
        file::grown(img, g, info, offset, data).1 > 0,
    ensures
        ({
            let (img2, m) = file::grown(img, g, info, offset, data);
            &&& m <= data.len()
            &&& dir::found(img2, g, path) matches Some(x) && reads_back(
                img2,
                g,
                x,
                offset,
                data.take(m),
            )
        }),
{
    let parts = cwd::split_on(dir::stripped(path), 47);
    if offset + data.len() <= info.size {
        lemma_kept_reads_back(img, g, info, n, nd, offset, data);
        lemma_lookup_kept(img, g, info, n, nd, offset, data, g.root_cluster, parts);
        assert(data.take(data.len() as int) =~= data);
    } else {
        lemma_grown_reads_back(img, g, info, n, nd, offset, data);
        let img2 = file::grown(img, g, info, offset, data).0;
        let first = laws_grow::chain_for(img, g, info, n, offset + data.len()).first;
        let end = new_end(img, g, info, n, offset, data) as u32;
        lemma_grown_changes(img, g, info, n, nd, offset, data);
        lemma_lookup_renewed(img, img2, g, info, n, nd, first, end, g.root_cluster, parts);
    }
}

} // verus!
