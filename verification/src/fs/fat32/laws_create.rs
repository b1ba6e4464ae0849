//! What holds of volumes across the creation of a file: it is found afterwards.
use vstd::prelude::*;

use super::create;
use super::dir;
use super::file;
use super::laws;
use super::types;
use super::types::{EntryView, FileInfo, Geometry, MAX_WALK};
use crate::bytes;
use crate::fs::block;
use crate::fs::block::Image;
use crate::shell::cwd;
use crate::shell::glob;
use crate::text;

verus! {

// ── The new entry ──

/// A byte that may stand in a name is itself in upper case, and neither padding
/// nor a dot.
proof fn lemma_name_char(b: u8)
    requires
        create::name_char(b),
    ensures
        b < 128,
        b != 32,
        b != 46,
        b != 0,
        b != 0xE5,
        bytes::upper_byte(b) == b,
{
}

/// A padded part without its padding.
proof fn lemma_unpad(part: Seq<u8>, pad: nat)
    requires
        create::name_chars(part),
    ensures
        dir::unpadded(part + bytes::filled(32, pad)) == part,
        text::text_form(part) == part,
{
    let s = part + bytes::filled(32, pad);
    assert forall|i: int| 0 <= i < part.len() implies s[i] != 32 by {
        assert(s[i] == part[i]);
        lemma_name_char(part[i]);
    }
    assert(part.len() < s.len() ==> s[part.len() as int] == 32);
    bytes::lemma_index_from_unique(s, 0, 32, part.len() as int);
    assert(s.take(part.len() as int) =~= part);
    assert forall|i: int| 0 <= i < part.len() implies #[trigger] part[i] < 128 by {
        lemma_name_char(part[i]);
    }
}

/// The entry of a new file names it as it is looked for.
proof fn lemma_fresh_entry(leaf: Seq<u8>, name: Seq<u8>, ext: Seq<u8>)
    requires
        create::short_name(leaf) == Some((name, ext)),
    ensures
        ({
            let e = create::fresh_entry(name, ext);
            &&& e.len() == 32
            &&& !create::free_slot(e)
            &&& dir::visible(e)
            &&& dir::entry_key(dir::name_of(e)) == dir::component_key(leaf)
            &&& forall|off: int|
                #![trigger dir::entry_of(e, off)]
                {
                    let v = dir::entry_of(e, off);
                    v.first_cluster == 0 && v.size == 0 && !dir::dir_attr(v.attr) && v.entry_off
                        == off
                }
        }),
{
    let norm = dir::component_key(leaf);
    let j = bytes::index_from(norm, 0, 46);
    bytes::lemma_index_from(norm, 0, 46);
    let e = create::fresh_entry(name, ext);
    let p1 = bytes::filled(32, (8 - name.len()) as nat);
    let p2 = bytes::filled(32, (3 - ext.len()) as nat);
    assert(e.len() == 32);
    assert(e.take(8) =~= name + p1);
    assert(e.subrange(8, 11) =~= ext + p2);
    lemma_unpad(name, (8 - name.len()) as nat);
    lemma_unpad(ext, (3 - ext.len()) as nat);
    lemma_name_char(name[0]);
    assert(e[0] == name[0]);
    assert(e[11] == 0x20);
    let n = dir::name_of(e);
    if j < norm.len() {
        // There is a dot, and something behind it.
        assert(ext == norm.skip(j + 1));
        assert(ext.len() > 0);
        assert(n =~= norm.take(j) + seq![46u8] + norm.skip(j + 1));
        assert(n =~= norm);
    } else {
        assert(norm.take(j) =~= norm);
        assert(n == norm);
    }
    assert forall|i: int| 0 <= i < norm.len() implies #[trigger] norm[i] < 128
        && bytes::upper_byte(norm[i]) == norm[i] by {
        if i < j {
            assert(name[i] == norm[i]);
            lemma_name_char(name[i]);
        } else if i > j {
            assert(ext[i - j - 1] == norm[i]);
            lemma_name_char(ext[i - j - 1]);
        }
    }
    assert(text::upper_form(norm) =~= norm);
    assert(n[0] == name[0]);
    assert(seq![46u8][0] == 46 && seq![46u8, 46u8][0] == 46);
    reveal_with_fuel(bytes::le_value, 5);
}

// ── Slots ──

pub open spec fn put_entry(img: Image, g: Geometry, c: u32, k: int, e: Seq<u8>) -> Image {
    block::patched(img, types::cluster_pos(g, c) + 32 * k, e)
}

pub proof fn lemma_slot_byte(img: Image, g: Geometry, c: u32, k: int, i: int)
    requires
        laws::sound_layout(g),
        laws::real_cluster(g, c),
        laws::cluster_present(img, g, c),
        0 <= k < dir::slots(g),
        0 <= i < 32,
    ensures
        ({
            let p = types::cluster_pos(g, c) + 32 * k + i;
            &&& 0 <= p < 512 * u64::MAX
            &&& img.dom().contains((p / 512) as u64)
            &&& types::cluster_pos(g, c) <= p < types::cluster_pos(g, c) + types::cluster_size(g)
        }),
{
    laws::lemma_cluster_behind(g, c);
    dir::lemma_cluster_lba(g, c);
    let p = types::cluster_pos(g, c) + 32 * k + i;
    let l = (p / 512) as u64;
    assert(types::cluster_lba(g, c) <= p / 512 < types::cluster_lba(g, c) + g.spc);
    assert(l == p / 512);
}

/// Writing an entry keeps every other slot.
proof fn lemma_slot_kept(img: Image, g: Geometry, c: u32, k: int, e: Seq<u8>, c2: u32, k2: int)
    requires
        laws::sound_layout(g),
        laws::real_cluster(g, c),
        laws::real_cluster(g, c2),
        laws::cluster_present(img, g, c2),
        0 <= k < dir::slots(g),
        0 <= k2 < dir::slots(g),
        e.len() == 32,
        c2 != c || k2 != k,
    ensures
        dir::slot(put_entry(img, g, c, k, e), g, c2, k2) == dir::slot(img, g, c2, k2),
{
    let a = types::cluster_pos(g, c) + 32 * k;
    let img2 = put_entry(img, g, c, k, e);
    assert forall|i: int| 0 <= i < 32 implies #[trigger] dir::slot(img2, g, c2, k2)[i]
        == dir::slot(img, g, c2, k2)[i] by {
        let p = types::cluster_pos(g, c2) + 32 * k2 + i;
        lemma_slot_byte(img, g, c2, k2, i);
        if c2 != c {
            laws::lemma_clusters_apart(g, c, c2);
            assert(32 * k + 32 <= types::cluster_size(g));
        }
        laws::lemma_byte_kept(img, a, e, p);
    }
    assert(dir::slot(img2, g, c2, k2) =~= dir::slot(img, g, c2, k2));
}

/// The slot that an entry is written to holds it.
proof fn lemma_slot_put(img: Image, g: Geometry, c: u32, k: int, e: Seq<u8>)
    requires
        laws::sound_layout(g),
        laws::real_cluster(g, c),
        laws::cluster_present(img, g, c),
        0 <= k < dir::slots(g),
        e.len() == 32,
    ensures
        dir::slot(put_entry(img, g, c, k, e), g, c, k) == e,
{
    let a = types::cluster_pos(g, c) + 32 * k;
    let img2 = put_entry(img, g, c, k, e);
    assert forall|i: int| 0 <= i < 32 implies #[trigger] dir::slot(img2, g, c, k)[i] == e[i] by {
        lemma_slot_byte(img, g, c, k, i);
        laws::lemma_byte_put(img, a, e, a + i);
    }
    assert(dir::slot(img2, g, c, k) =~= e);
}

/// What the search for a usable slot says of the slots of a cluster.
proof fn lemma_slot_in(img: Image, g: Geometry, c: u32, k: int)
    requires
        0 <= k,
    ensures
        match create::slot_in(img, g, c, k) {
            Some(x) => {
                &&& k <= x < dir::slots(g)
                &&& create::free_slot(dir::slot(img, g, c, x))
                &&& forall|m: int|
                    k <= m < x ==> !create::free_slot(#[trigger] dir::slot(img, g, c, m))
            },
            None => forall|m: int|
                k <= m < dir::slots(g) ==> !create::free_slot(#[trigger] dir::slot(img, g, c, m)),
        },
    decreases dir::slots(g) - k,
{
    if k < dir::slots(g) && !create::free_slot(dir::slot(img, g, c, k)) {
        lemma_slot_in(img, g, c, k + 1);
    }
}

// ── Entries ──

proof fn lemma_named_append(a: Seq<EntryView>, b: Seq<EntryView>, key: Seq<u8>)
    ensures
        dir::first_named(a + b, key) == (if dir::first_named(a, key) is Some {
            dir::first_named(a, key)
        } else {
            dir::first_named(b, key)
        }),
    decreases a.len(),
{
    if a.len() == 0 {
        assert(a + b =~= b);
    } else {
        assert((a + b)[0] == a[0]);
        assert((a + b).skip(1) =~= a.skip(1) + b);
        lemma_named_append(a.skip(1), b, key);
    }
}

/// A cluster whose slots are kept has the same entries.
pub proof fn lemma_cluster_same(img: Image, img2: Image, g: Geometry, c: u32, base: int, j: int)
    requires
        0 <= j,
        forall|m: int|
            j <= m < dir::slots(g) ==> #[trigger] dir::slot(img2, g, c, m) == dir::slot(
                img,
                g,
                c,
                m,
            ),
    ensures
        dir::cluster_entries(img2, g, c, base, j) == dir::cluster_entries(img, g, c, base, j),
    decreases dir::slots(g) - j,
{
    if j < dir::slots(g) {
        assert(dir::slot(img2, g, c, j) == dir::slot(img, g, c, j));
        lemma_cluster_same(img, img2, g, c, base, j + 1);
    }
}

/// A directory does not end in a cluster without a usable slot.
proof fn lemma_no_end(img: Image, g: Geometry, c: u32, base: int, j: int)
    requires
        0 <= j,
        forall|m: int|
            j <= m < dir::slots(g) ==> !create::free_slot(#[trigger] dir::slot(img, g, c, m)),
    ensures
        !dir::cluster_entries(img, g, c, base, j).1,
    decreases dir::slots(g) - j,
{
    if j < dir::slots(g) {
        assert(!create::free_slot(dir::slot(img, g, c, j)));
        lemma_no_end(img, g, c, base, j + 1);
    }
}

/// The entry in slot `k` is the first of its name in the cluster, from slot `j`
/// on.
proof fn lemma_cluster_hit(
    img: Image,
    img2: Image,
    g: Geometry,
    c: u32,
    base: int,
    j: int,
    k: int,
    e: Seq<u8>,
    key: Seq<u8>,
)
    requires
        0 <= j <= k < dir::slots(g),
        forall|m: int|
            j <= m < k ==> #[trigger] dir::slot(img2, g, c, m) == dir::slot(img, g, c, m),
        forall|m: int| j <= m < k ==> !create::free_slot(#[trigger] dir::slot(img, g, c, m)),
        dir::slot(img2, g, c, k) == e,
        !create::free_slot(e),
        dir::visible(e),
        dir::entry_key(dir::name_of(e)) == key,
        dir::first_named(dir::cluster_entries(img, g, c, base, j).0, key) is None,
    ensures
        dir::first_named(dir::cluster_entries(img2, g, c, base, j).0, key) == Some(
            dir::entry_of(e, base + 32 * k),
        ),
    decreases k - j,
{
    let (r2, end2) = dir::cluster_entries(img2, g, c, base, j + 1);
    if j == k {
        let hit = dir::entry_of(e, base + 32 * k);
        assert((seq![hit] + r2)[0] == hit);
        assert(hit.name == dir::name_of(e));
    } else {
        let s = dir::slot(img, g, c, j);
        assert(dir::slot(img2, g, c, j) == s);
        assert(!create::free_slot(s));
        let (r, end) = dir::cluster_entries(img, g, c, base, j + 1);
        if dir::visible(s) {
            let x = dir::entry_of(s, base + 32 * j);
            assert((seq![x] + r)[0] == x);
            assert((seq![x] + r).skip(1) =~= r);
            assert((seq![x] + r2)[0] == x);
            assert((seq![x] + r2).skip(1) =~= r2);
        }
        lemma_cluster_hit(img, img2, g, c, base, j + 1, k, e, key);
    }
}

/// Where the search for room in a directory found a slot: in cluster `t` of its
/// chain, slot `k`, and no cluster before it has one.
pub open spec fn room_at(img: Image, g: Geometry, first: u32, i: nat, t: nat, k: int) -> bool {
    &&& i <= t
    &&& 0 <= k < dir::slots(g)
    &&& create::slot_in(img, g, types::nth_in(img, g, first, t)->0, 0) == Some(k)
    &&& forall|m: nat|
        i <= m < t ==> create::slot_in(
            img,
            g,
            (#[trigger] types::nth_in(img, g, first, m))->0,
            0,
        ) is None
}

/// The first `n` clusters are the whole chain.
pub open spec fn whole_chain(img: Image, g: Geometry, first: u32, n: nat) -> bool {
    &&& n >= 1
    &&& laws::sound_chain(img, g, first, n)
    &&& types::nth_in(img, g, first, n) is None
}

proof fn lemma_place(img: Image, g: Geometry, first: u32, n: nat, i: nat, fuel: nat, off: int) -> (r: (
    nat,
    int,
))
    requires
        whole_chain(img, g, first, n),
        i < n,
        create::place_from(
            img,
            g,
            types::nth_in(img, g, first, i)->0,
            i * types::cluster_size(g),
            fuel,
        ) == create::Place::At(off),
    ensures
        r.0 < n,
        r.0 <= i + fuel,
        off == r.0 * types::cluster_size(g) + 32 * r.1,
        room_at(img, g, first, i, r.0, r.1),
    decreases fuel,
{
    let cs = types::cluster_size(g);
    assert(types::nth_in(img, g, first, i) is Some);
    let c = types::nth_in(img, g, first, i)->0;
    lemma_slot_in(img, g, c, 0);
    match create::slot_in(img, g, c, 0) {
        Some(k) => (i, k),
        None => {
            assert(types::nth_in(img, g, first, i + 1) == types::next_in(img, g, c));
            assert(i + 1 < n) by {
                if i + 1 == n {
                    assert(types::nth_in(img, g, first, n) is None);
                }
            }
            assert((i + 1) * cs == i * cs + cs) by (nonlinear_arith);
            let (t, k) = lemma_place(img, g, first, n, i + 1, (fuel - 1) as nat, off);
            assert forall|m: nat| i <= m < t implies create::slot_in(
                img,
                g,
                (#[trigger] types::nth_in(img, g, first, m))->0,
                0,
            ) is None by {
                if m > i {
                    assert(i + 1 <= m);
                }
            }
            (t, k)
        },
    }
}

/// The new entry is the first of its name in the directory, from cluster `i` of
/// its chain on.
proof fn lemma_dir_hit(
    img: Image,
    g: Geometry,
    first: u32,
    n: nat,
    i: nat,
    fuel: nat,
    t: nat,
    k: int,
    e: Seq<u8>,
    key: Seq<u8>,
)
    requires
        laws::sound_layout(g),
        laws::tables_present(img, g),
        whole_chain(img, g, first, n),
        i < n,
        t < n,
        t <= i + fuel,
        room_at(img, g, first, i, t, k),
        e.len() == 32,
        !create::free_slot(e),
        dir::visible(e),
        dir::entry_key(dir::name_of(e)) == key,
        dir::first_named(
            dir::entries_from(
                img,
                g,
                types::nth_in(img, g, first, i)->0,
                i * types::cluster_size(g),
                fuel,
            ),
            key,
        ) is None,
    ensures
        dir::first_named(
            dir::entries_from(
                put_entry(img, g, types::nth_in(img, g, first, t)->0, k, e),
                g,
                types::nth_in(img, g, first, i)->0,
                i * types::cluster_size(g),
                fuel,
            ),
            key,
        ) == Some(dir::entry_of(e, t * types::cluster_size(g) + 32 * k)),
    decreases fuel,
{
    let cs = types::cluster_size(g);
    assert(types::nth_in(img, g, first, i) is Some);
    assert(types::nth_in(img, g, first, t) is Some);
    let c = types::nth_in(img, g, first, i)->0;
    let ct = types::nth_in(img, g, first, t)->0;
    let img2 = put_entry(img, g, ct, k, e);
    let base = i * cs;
    let (es, end) = dir::cluster_entries(img, g, c, base, 0);
    let (es2, end2) = dir::cluster_entries(img2, g, c, base, 0);
    lemma_slot_in(img, g, c, 0);
    assert(32 * k + e.len() <= cs);
    laws::lemma_patch_keeps_entries(img, g, ct, 32 * k, e, c);
    let rest = match types::next_in(img, g, c) {
        Some(nx) => dir::entries_from(img, g, nx, base + cs, (fuel - 1) as nat),
        None => Seq::empty(),
    };
    let rest2 = match types::next_in(img2, g, c) {
        Some(nx) => dir::entries_from(img2, g, nx, base + cs, (fuel - 1) as nat),
        None => Seq::empty(),
    };
    lemma_named_append(es, rest, key);
    lemma_named_append(es2, rest2, key);
    assert(es + Seq::<EntryView>::empty() =~= es);
    assert(es2 + Seq::<EntryView>::empty() =~= es2);
    if i == t {
        assert forall|m: int| 0 <= m < k implies #[trigger] dir::slot(img2, g, c, m) == dir::slot(
            img,
            g,
            c,
            m,
        ) by {
            lemma_slot_kept(img, g, c, k, e, c, m);
        }
        lemma_slot_put(img, g, c, k, e);
        lemma_cluster_hit(img, img2, g, c, base, 0, k, e, key);
    } else {
        assert(c != ct) by {
            assert(types::nth_in(img, g, first, i) != types::nth_in(img, g, first, t));
        }
        assert(create::slot_in(img, g, types::nth_in(img, g, first, i)->0, 0) is None);
        assert forall|m: int| 0 <= m < dir::slots(g) implies #[trigger] dir::slot(img2, g, c, m)
            == dir::slot(img, g, c, m) by {
            lemma_slot_kept(img, g, ct, k, e, c, m);
        }
        lemma_cluster_same(img, img2, g, c, base, 0);
        lemma_no_end(img, g, c, base, 0);
        assert(i + 1 < n);
        assert(types::nth_in(img, g, first, i + 1) is Some);
        assert(types::nth_in(img, g, first, i + 1) == types::next_in(img, g, c));
        assert((i + 1) * cs == i * cs + cs) by (nonlinear_arith);
        lemma_dir_hit(img, g, first, n, i + 1, (fuel - 1) as nat, t, k, e, key);
    }
}

// ── Where a path leads ──

/// What is looked for in a directory behind a path that leads there.
pub proof fn lemma_lookup_append(
    img: Image,
    g: Geometry,
    d: u32,
    a: Seq<Seq<u8>>,
    gaps: Seq<Seq<u8>>,
    leaf: Seq<u8>,
)
    requires
        dir::lookup(img, g, d, a) is Some,
        dir::lookup(img, g, d, a)->0.is_dir,
        forall|i: int| 0 <= i < gaps.len() ==> (#[trigger] gaps[i]).len() == 0,
        leaf.len() > 0,
    ensures
        dir::lookup(img, g, d, a + gaps + seq![leaf]) == dir::named_in(
            img,
            g,
            dir::lookup(img, g, d, a)->0.first_cluster,
            leaf,
        ),
    decreases a.len(),
{
    let all = a + gaps + seq![leaf];
    assert(all[0] == a[0]);
    assert(all.skip(1) =~= a.skip(1) + gaps + seq![leaf]);
    if a[0].len() == 0 {
        lemma_lookup_append(img, g, d, a.skip(1), gaps, leaf);
    } else {
        let hit = dir::named_in(img, g, d, a[0])->0;
        if a.len() == 1 {
            assert(all.skip(1) =~= gaps + seq![leaf]);
            lemma_lookup_gaps(img, g, hit.first_cluster, gaps, leaf);
        } else {
            lemma_lookup_append(img, g, hit.first_cluster, a.skip(1), gaps, leaf);
        }
    }
}

pub proof fn lemma_lookup_gaps(img: Image, g: Geometry, d: u32, gaps: Seq<Seq<u8>>, leaf: Seq<u8>)
    requires
        forall|i: int| 0 <= i < gaps.len() ==> (#[trigger] gaps[i]).len() == 0,
        leaf.len() > 0,
    ensures
        dir::lookup(img, g, d, gaps + seq![leaf]) == dir::named_in(img, g, d, leaf),
    decreases gaps.len(),
{
    let all = gaps + seq![leaf];
    if gaps.len() == 0 {
        assert(all =~= seq![leaf]);
        assert(all.skip(1).len() == 0);
    } else {
        assert(all[0] == gaps[0]);
        assert(all.skip(1) =~= gaps.skip(1) + seq![leaf]);
        assert forall|i: int| 0 <= i < gaps.skip(1).len() implies (#[trigger] gaps.skip(1)[i]).len()
            == 0 by {
            assert(gaps[i + 1].len() == 0);
        }
        lemma_lookup_gaps(img, g, d, gaps.skip(1), leaf);
    }
}

/// The parts of a path are those before its last `/` and the last one.
pub proof fn lemma_split_last(p: Seq<u8>, b: int)
    requires
        0 < b <= p.len(),
        p[b - 1] == 47,
        forall|i: int| b <= i < p.len() ==> p[i] != 47,
    ensures
        cwd::split_on(p, 47) == cwd::split_on(p.take(b - 1), 47) + seq![p.skip(b)],
    decreases p.len(),
{
    let j = bytes::index_from(p, 0, 47);
    bytes::lemma_index_from(p, 0, 47);
    assert(j <= b - 1) by {
        if j > b - 1 {
            assert(p[b - 1] != 47);
        }
    }
    let front = p.take(b - 1);
    if j == b - 1 {
        assert forall|k: int| 0 <= k < front.len() implies front[k] != 47 by {
            assert(p[k] != 47);
        }
        bytes::lemma_index_from_unique(front, 0, 47, front.len() as int);
        assert(cwd::split_on(front, 47) == seq![front]);
        let tail = p.skip(b);
        assert forall|k: int| 0 <= k < tail.len() implies tail[k] != 47 by {
            assert(p[b + k] != 47);
        }
        bytes::lemma_index_from_unique(tail, 0, 47, tail.len() as int);
        assert(cwd::split_on(tail, 47) == seq![tail]);
        assert(p.take(j) =~= front);
        assert(seq![front] + seq![tail] =~= cwd::split_on(p, 47));
    } else {
        let q = p.skip(j + 1);
        let c = b - j - 1;
        assert(q[c - 1] == p[b - 1]);
        assert forall|i: int| c <= i < q.len() implies q[i] != 47 by {
            assert(p[i + j + 1] != 47);
        }
        lemma_split_last(q, c);
        assert(q.take(c - 1) =~= front.skip(j + 1));
        assert(q.skip(c) =~= p.skip(b));
        assert forall|k: int| 0 <= k < j implies front[k] != 47 by {
            assert(p[k] != 47);
        }
        assert(front[j] == p[j]);
        bytes::lemma_index_from_unique(front, 0, 47, j);
        assert(front.take(j) =~= p.take(j));
        assert(cwd::split_on(front, 47) == seq![front.take(j)] + cwd::split_on(
            front.skip(j + 1),
            47,
        ));
        assert(cwd::split_on(p, 47) =~= cwd::split_on(front, 47) + seq![p.skip(b)]);
    }
}

/// A path that does not start with a `/`: its parts are those of the path
/// without the `/` at its end, and then empty ones.
pub proof fn lemma_split_stripped(p: Seq<u8>) -> (gaps: Seq<Seq<u8>>)
    requires
        p.len() > 0,
        p[0] != 47,
    ensures
        cwd::split_on(p, 47) == cwd::split_on(dir::stripped(p), 47) + gaps,
        forall|i: int| 0 <= i < gaps.len() ==> (#[trigger] gaps[i]).len() == 0,
    decreases p.len(),
{
    if p.last() == 47 {
        let q = p.drop_last();
        assert(q =~= p.take(p.len() - 1));
        lemma_split_last(p, p.len() as int);
        assert(p.skip(p.len() as int) =~= Seq::empty());
        assert(q.len() > 0) by {
            if q.len() == 0 {
                assert(p.last() == p[0]);
            }
        }
        assert(q[0] == p[0]);
        let gaps = lemma_split_stripped(q);
        let more = gaps + seq![Seq::<u8>::empty()];
        assert(cwd::split_on(p, 47) =~= cwd::split_on(dir::stripped(p), 47) + more);
        more
    } else {
        assert(cwd::split_on(p, 47) + Seq::<Seq<u8>>::empty() =~= cwd::split_on(p, 47));
        Seq::empty()
    }
}

pub proof fn lemma_base_start(p: Seq<u8>)
    ensures
        0 <= glob::base_start(p) <= p.len(),
        glob::base_start(p) > 0 ==> p[glob::base_start(p) - 1] == 47,
        forall|i: int| glob::base_start(p) <= i < p.len() ==> p[i] != 47,
    decreases p.len(),
{
    if p.len() > 0 && p.last() != 47 {
        lemma_base_start(p.drop_last());
        let b = glob::base_start(p);
        assert forall|i: int| b <= i < p.len() implies p[i] != 47 by {
            if i < p.len() - 1 {
                assert(p.drop_last()[i] == p[i]);
            }
        }
        if b > 0 {
            assert(p.drop_last()[b - 1] == p[b - 1]);
        }
    }
}

pub proof fn lemma_stripped(p: Seq<u8>)
    ensures
        dir::stripped(p).len() > 0 ==> dir::stripped(p)[0] != 47 && dir::stripped(p).last() != 47,
    decreases p.len(),
{
    if p.len() > 0 && p[0] == 47 {
        lemma_stripped(p.skip(1));
    } else if p.len() > 0 && p.last() == 47 {
        lemma_stripped(p.drop_last());
    }
}

/// Where the file of a path would be created, its name leads to the same as the
/// path.
pub proof fn lemma_found_in_home(img: Image, g: Geometry, p: Seq<u8>)
    requires
        p.len() > 0,
        p[0] != 47,
        p.last() != 47,
        create::home_of(img, g, p) is Some,
    ensures
        dir::found(img, g, p) == dir::named_in(
            img,
            g,
            create::home_of(img, g, p)->0,
            p.skip(glob::base_start(p)),
        ),
{
    let b = glob::base_start(p);
    lemma_base_start(p);
    let leaf = p.skip(b);
    assert(dir::stripped(p) == p);
    assert(leaf.len() > 0) by {
        if b == p.len() {
            assert(p.last() == p[b - 1]);
        }
    }
    if b == 0 {
        assert(leaf =~= p);
        bytes::lemma_index_from_unique(p, 0, 47, p.len() as int);
        let parts = cwd::split_on(p, 47);
        assert(parts =~= seq![p]);
        assert(parts.skip(1).len() == 0);
        assert(Seq::<Seq<u8>>::empty() + Seq::<Seq<u8>>::empty() =~= Seq::<Seq<u8>>::empty());
        lemma_lookup_gaps(img, g, g.root_cluster, Seq::empty(), p);
        assert(Seq::<Seq<u8>>::empty() + seq![p] =~= parts);
    } else {
        let parent = create::parent_of(p);
        assert(parent.len() > 0) by {
            if b == 1 {
                assert(p[0] == 47);
            }
        }
        assert(parent[0] == p[0]);
        lemma_split_last(p, b);
        let gaps = lemma_split_stripped(parent);
        let a = cwd::split_on(dir::stripped(parent), 47);
        lemma_lookup_append(img, g, g.root_cluster, a, gaps, leaf);
        assert(cwd::split_on(p, 47) =~= a + gaps + seq![leaf]);
    }
}

// ── A directory that grows ──

/// Cluster numbers fit in an entry of the table, and the sector with the count
/// of free clusters lies before the tables.
pub open spec fn usual_layout(g: Geometry) -> bool {
    &&& laws::sound_layout(g)
    &&& g.fat_size * 128 <= types::BAD_CLUSTER
    &&& g.fat_start >= 2
}

/// Every cluster with an entry of its own is there.
pub open spec fn clusters_present(img: Image, g: Geometry) -> bool {
    forall|c: u32| laws::real_cluster(g, c) ==> #[trigger] laws::cluster_present(img, g, c)
}

/// Setting an entry of the table keeps every byte behind the tables.
pub proof fn lemma_entry_keeps_data(img: Image, g: Geometry, c: u32, v: u32, n: nat, p: int)
    requires
        types::sound_geometry(g),
        laws::tables_present(img, g),
        c < g.fat_size * 128,
        n <= g.num_fats,
        (g.fat_start + g.num_fats * g.fat_size) * 512 <= p < 512 * u64::MAX,
        img.dom().contains((p / 512) as u64),
    ensures
        types::with_entry_in(img, g, c, v, n).dom() == img.dom(),
        block::byte_at(types::with_entry_in(img, g, c, v, n), p) == block::byte_at(img, p),
    decreases n,
{
    if n > 0 {
        lemma_entry_keeps_data(img, g, c, v, (n - 1) as nat, p);
        let m = types::with_entry_in(img, g, c, v, (n - 1) as nat);
        let q = types::fat_pos(g, n - 1, c);
        let d = bytes::le_bytes(types::merged(types::le32_at(m, q), v) as nat, 4);
        assert(laws::tables_present(m, g));
        laws::lemma_entry_present(m, g, n - 1, c);
        laws::lemma_le32_range(m, q);
        laws::lemma_merged(types::le32_at(m, q), v);
        bytes::lemma_le_bytes_len(types::merged(types::le32_at(m, q), v) as nat, 4);
        laws::lemma_byte_kept(m, q, d, p);
        laws::lemma_patch_dom(m, q, d);
    }
}

/// Setting the count of free clusters keeps every byte from the tables on.
pub proof fn lemma_count_keeps(img: Image, g: Geometry, delta: int, next: u32, p: int)
    requires
        g.fat_start >= 2,
        g.fat_start * 512 <= p < 512 * u64::MAX,
        img.dom().contains((p / 512) as u64),
    ensures
        types::with_fsinfo(img, delta, next).dom() == img.dom(),
        block::byte_at(types::with_fsinfo(img, delta, next), p) == block::byte_at(img, p),
{
    if types::has_fsinfo(img) {
        let free = types::le32_at(img, 1000) + delta;
        let free = if free < 0 {
            0
        } else {
            free % 0x1_0000_0000
        };
        let d = bytes::le_bytes(free as nat, 4) + bytes::le_bytes(next as nat, 4);
        bytes::lemma_le_bytes_len(free as nat, 4);
        bytes::lemma_le_bytes_len(next as nat, 4);
        laws::lemma_byte_kept(img, 1000, d, p);
        laws::lemma_patch_dom(img, 1000, d);
    }
}

pub proof fn lemma_count_keeps_entries(img: Image, g: Geometry, delta: int, next: u32, c: u32)
    requires
        types::sound_geometry(g),
        laws::tables_present(img, g),
        g.fat_start >= 2,
        c < g.fat_size * 128,
    ensures
        types::fat_value(types::with_fsinfo(img, delta, next), g, c) == types::fat_value(img, g, c),
        types::with_fsinfo(img, delta, next).dom() == img.dom(),
{
    laws::lemma_entry_present(img, g, 0, c);
    let p = types::fat_pos(g, 0, c);
    assert(img.dom().contains((p / 512) as u64));
    assert(img.dom().contains(((p + 1) / 512) as u64));
    assert(img.dom().contains(((p + 2) / 512) as u64));
    assert(img.dom().contains(((p + 3) / 512) as u64));
    lemma_count_keeps(img, g, delta, next, p);
    lemma_count_keeps(img, g, delta, next, p + 1);
    lemma_count_keeps(img, g, delta, next, p + 2);
    lemma_count_keeps(img, g, delta, next, p + 3);
}

/// The image in which a directory whose last cluster is `last` has got the
/// cluster `c` more.
pub open spec fn lengthened(img: Image, g: Geometry, last: u32, c: u32) -> Image {
    let img1 = types::with_entry(img, g, c, types::EOC_VAL);
    let img2 = block::patched(
        img1,
        types::cluster_pos(g, c),
        bytes::filled(0, types::cluster_size(g) as nat),
    );
    let img3 = types::with_entry(img2, g, last, c);
    types::with_fsinfo(img3, -1, (c + 1) as u32)
}

/// What taking a cluster for a directory and zeroing it does to the table.
proof fn lemma_taken_entries(img: Image, g: Geometry, c: u32, x: u32)
    requires
        usual_layout(g),
        laws::tables_present(img, g),
        laws::real_cluster(g, c),
        x < g.fat_size * 128,
    ensures
        ({
            let img2 = block::patched(
                types::with_entry(img, g, c, types::EOC_VAL),
                types::cluster_pos(g, c),
                bytes::filled(0, types::cluster_size(g) as nat),
            );
            &&& img2.dom() == img.dom()
            &&& laws::tables_present(img2, g)
            &&& types::fat_value(img2, g, x) == (if x == c {
                types::EOC_VAL
            } else {
                types::fat_value(img, g, x)
            })
        }),
{
    let img1 = types::with_entry(img, g, c, types::EOC_VAL);
    let zeros = bytes::filled(0, types::cluster_size(g) as nat);
    laws::law_entry_reads_back(img, g, c, types::EOC_VAL, x);
    laws::lemma_with_entry_in(img, g, c, types::EOC_VAL, x, g.num_fats as nat);
    assert(laws::tables_present(img1, g));
    assert(types::cluster_pos(g, c) + 0 == types::cluster_pos(g, c));
    laws::lemma_patch_keeps_entries(img1, g, c, 0, zeros, x);
    laws::lemma_patch_dom(img1, types::cluster_pos(g, c), zeros);
}

/// What lengthening a directory does to the table.
proof fn lemma_lengthened_entries(img: Image, g: Geometry, last: u32, c: u32, x: u32)
    requires
        usual_layout(g),
        laws::tables_present(img, g),
        laws::real_cluster(g, last),
        laws::real_cluster(g, c),
        last != c,
        x < g.fat_size * 128,
    ensures
        lengthened(img, g, last, c).dom() == img.dom(),
        types::fat_value(lengthened(img, g, last, c), g, x) == (if x == last {
            c
        } else if x == c {
            types::EOC_VAL
        } else {
            types::fat_value(img, g, x)
        }),
{
    let img2 = block::patched(
        types::with_entry(img, g, c, types::EOC_VAL),
        types::cluster_pos(g, c),
        bytes::filled(0, types::cluster_size(g) as nat),
    );
    lemma_taken_entries(img, g, c, x);
    lemma_linked_entries(img2, g, last, c, x);
}

proof fn lemma_linked_entries(img2: Image, g: Geometry, last: u32, c: u32, x: u32)
    requires
        usual_layout(g),
        laws::tables_present(img2, g),
        laws::real_cluster(g, last),
        laws::real_cluster(g, c),
        x < g.fat_size * 128,
    ensures
        ({
            let img4 = types::with_fsinfo(
                types::with_entry(img2, g, last, c),
                -1,
                (c + 1) as u32,
            );
            &&& img4.dom() == img2.dom()
            &&& types::fat_value(img4, g, x) == (if x == last {
                c
            } else {
                types::fat_value(img2, g, x)
            })
        }),
{
    let img3 = types::with_entry(img2, g, last, c);
    laws::law_entry_reads_back(img2, g, last, c, x);
    laws::lemma_with_entry_in(img2, g, last, c, x, g.num_fats as nat);
    assert(laws::tables_present(img3, g));
    lemma_count_keeps_entries(img3, g, -1, (c + 1) as u32, x);
}

/// What lengthening a directory does to the bytes behind the tables: those of
/// the new cluster are zero, all others are kept.
proof fn lemma_lengthened_byte(img: Image, g: Geometry, last: u32, c: u32, p: int)
    requires
        usual_layout(g),
        laws::tables_present(img, g),
        laws::real_cluster(g, last),
        laws::real_cluster(g, c),
        (g.fat_start + g.num_fats * g.fat_size) * 512 <= p < 512 * u64::MAX,
        img.dom().contains((p / 512) as u64),
    ensures
        block::byte_at(lengthened(img, g, last, c), p) == (if types::cluster_pos(g, c) <= p
            < types::cluster_pos(g, c) + types::cluster_size(g) {
            0
        } else {
            block::byte_at(img, p)
        }),
{
    let cs = types::cluster_size(g);
    let a = types::cluster_pos(g, c);
    let img1 = types::with_entry(img, g, c, types::EOC_VAL);
    let zeros = bytes::filled(0, cs as nat);
    let img2 = block::patched(img1, a, zeros);
    let img3 = types::with_entry(img2, g, last, c);
    assert(0 <= g.num_fats * g.fat_size) by (nonlinear_arith)
        requires
            0 <= g.num_fats,
            0 <= g.fat_size,
    ;
    lemma_entry_keeps_data(img, g, c, types::EOC_VAL, g.num_fats as nat, p);
    assert(laws::tables_present(img1, g));
    laws::lemma_patch_dom(img1, a, zeros);
    if a <= p < a + cs {
        laws::lemma_byte_put(img1, a, zeros, p);
    } else {
        laws::lemma_byte_kept(img1, a, zeros, p);
    }
    assert(laws::tables_present(img2, g));
    lemma_entry_keeps_data(img2, g, last, c, g.num_fats as nat, p);
    lemma_count_keeps(img3, g, -1, (c + 1) as u32, p);
}

/// The slots of another cluster are kept; those of the new one are unused.
proof fn lemma_lengthened_slot(img: Image, g: Geometry, last: u32, c: u32, x: u32, k: int)
    requires
        usual_layout(g),
        laws::tables_present(img, g),
        laws::real_cluster(g, last),
        laws::real_cluster(g, c),
        laws::real_cluster(g, x),
        laws::cluster_present(img, g, x),
        0 <= k < dir::slots(g),
    ensures
        x != c ==> dir::slot(lengthened(img, g, last, c), g, x, k) == dir::slot(img, g, x, k),
        x == c ==> dir::slot(lengthened(img, g, last, c), g, x, k)[0] == 0,
{
    let img4 = lengthened(img, g, last, c);
    laws::lemma_cluster_behind(g, x);
    assert forall|i: int| 0 <= i < 32 implies #[trigger] dir::slot(img4, g, x, k)[i] == (if x == c {
        0
    } else {
        dir::slot(img, g, x, k)[i]
    }) by {
        let p = types::cluster_pos(g, x) + 32 * k + i;
        lemma_slot_byte(img, g, x, k, i);
        lemma_lengthened_byte(img, g, last, c, p);
        if x != c {
            laws::lemma_clusters_apart(g, c, x);
        }
    }
    if x != c {
        assert(dir::slot(img4, g, x, k) =~= dir::slot(img, g, x, k));
    }
}

/// Where the search for room found none: the whole chain was searched.
proof fn lemma_place_full(
    img: Image,
    g: Geometry,
    first: u32,
    n: nat,
    i: nat,
    fuel: nat,
    last: u32,
    off: int,
)
    requires
        whole_chain(img, g, first, n),
        i < n,
        create::place_from(
            img,
            g,
            types::nth_in(img, g, first, i)->0,
            i * types::cluster_size(g),
            fuel,
        ) == create::Place::Full(last, off),
    ensures
        types::nth_in(img, g, first, (n - 1) as nat) == Some(last),
        off == n * types::cluster_size(g),
        forall|m: nat|
            i <= m < n ==> create::slot_in(
                img,
                g,
                (#[trigger] types::nth_in(img, g, first, m))->0,
                0,
            ) is None,
    decreases fuel,
{
    let cs = types::cluster_size(g);
    assert(types::nth_in(img, g, first, i) is Some);
    let c = types::nth_in(img, g, first, i)->0;
    assert(types::nth_in(img, g, first, i + 1) == types::next_in(img, g, c));
    assert((i + 1) * cs == i * cs + cs) by (nonlinear_arith);
    match types::next_in(img, g, c) {
        Some(nx) => {
            assert(i + 1 < n) by {
                if i + 1 == n {
                    assert(types::nth_in(img, g, first, n) is None);
                }
            }
            lemma_place_full(img, g, first, n, i + 1, (fuel - 1) as nat, last, off);
            assert forall|m: nat| i <= m < n implies create::slot_in(
                img,
                g,
                (#[trigger] types::nth_in(img, g, first, m))->0,
                0,
            ) is None by {
                if m > i {
                    assert(i + 1 <= m);
                }
            }
        },
        None => {
            assert(i + 1 == n) by {
                if i + 1 < n {
                    assert(types::nth_in(img, g, first, i + 1) is Some);
                }
            }
        },
    }
}

/// No cluster of a chain is free.
pub proof fn lemma_chain_not_free(img: Image, g: Geometry, first: u32, n: nat, m: nat)
    requires
        whole_chain(img, g, first, n),
        m < n,
    ensures
        types::fat_value(img, g, types::nth_in(img, g, first, m)->0) != 0,
{
    assert(types::nth_in(img, g, first, m) is Some);
    let c = types::nth_in(img, g, first, m)->0;
    assert(types::nth_in(img, g, first, m + 1) == types::next_in(img, g, c));
    if m + 1 < n {
        assert(types::nth_in(img, g, first, m + 1) is Some);
        assert(laws::real_cluster(g, types::nth_in(img, g, first, m + 1)->0));
    }
}

/// The chain of a directory that was lengthened.
proof fn lemma_lengthened_chain(img: Image, g: Geometry, first: u32, n: nat, c: u32)
    requires
        usual_layout(g),
        laws::tables_present(img, g),
        clusters_present(img, g),
        whole_chain(img, g, first, n),
        laws::real_cluster(g, c),
        types::fat_value(img, g, c) == 0,
    ensures
        ({
            let last = types::nth_in(img, g, first, (n - 1) as nat)->0;
            let img4 = lengthened(img, g, last, c);
            &&& last != c
            &&& laws::real_cluster(g, last)
            &&& laws::tables_present(img4, g)
            &&& whole_chain(img4, g, first, n + 1)
            &&& types::nth_in(img4, g, first, n) == Some(c)
            &&& forall|m: nat|
                m < n ==> #[trigger] types::nth_in(img4, g, first, m) == types::nth_in(
                    img,
                    g,
                    first,
                    m,
                )
            &&& forall|m: nat| m < n ==> #[trigger] types::nth_in(img, g, first, m) != Some(c)
        }),
{
    let last = types::nth_in(img, g, first, (n - 1) as nat)->0;
    assert(types::nth_in(img, g, first, (n - 1) as nat) is Some);
    lemma_chain_not_free(img, g, first, n, (n - 1) as nat);
    let img4 = lengthened(img, g, last, c);
    lemma_lengthened_entries(img, g, last, c, c);
    assert forall|m: nat| m < n implies #[trigger] types::nth_in(img, g, first, m) != Some(c) by {
        lemma_chain_not_free(img, g, first, n, m);
    }
    assert forall|m: nat| m < n implies #[trigger] types::nth_in(img4, g, first, m)
        == types::nth_in(img, g, first, m) by {
        lemma_lengthened_nth(img, g, first, n, c, m);
    }
    lemma_lengthened_entries(img, g, last, c, last);
    assert(types::nth_in(img4, g, first, (n - 1) as nat) == Some(last));
    assert(types::nth_in(img4, g, first, n) == types::next_in(img4, g, last));
    assert(types::nth_in(img4, g, first, n) == Some(c));
    assert(types::nth_in(img4, g, first, n + 1) == types::next_in(img4, g, c));
    assert(types::nth_in(img4, g, first, n + 1) is None);
    assert forall|k: nat| k < n + 1 implies (#[trigger] types::nth_in(img4, g, first, k) matches Some(
        x,
    ) && laws::real_cluster(g, x) && laws::cluster_present(img4, g, x)) by {
        if k < n {
            assert(types::nth_in(img, g, first, k) is Some);
            assert(laws::cluster_present(img, g, types::nth_in(img, g, first, k)->0));
        } else {
            assert(laws::cluster_present(img, g, c));
        }
    }
    assert forall|j: nat, k: nat| j < k < n + 1 implies #[trigger] types::nth_in(img4, g, first, j)
        != #[trigger] types::nth_in(img4, g, first, k) by {
        assert(types::nth_in(img4, g, first, j) == types::nth_in(img, g, first, j));
        if k < n {
            assert(types::nth_in(img, g, first, j) != types::nth_in(img, g, first, k));
        }
    }
}

proof fn lemma_lengthened_nth(img: Image, g: Geometry, first: u32, n: nat, c: u32, m: nat)
    requires
        usual_layout(g),
        laws::tables_present(img, g),
        whole_chain(img, g, first, n),
        laws::real_cluster(g, c),
        types::fat_value(img, g, c) == 0,
        m < n,
    ensures
        types::nth_in(
            lengthened(img, g, types::nth_in(img, g, first, (n - 1) as nat)->0, c),
            g,
            first,
            m,
        ) == types::nth_in(img, g, first, m),
    decreases m,
{
    if m > 0 {
        let last = types::nth_in(img, g, first, (n - 1) as nat)->0;
        let k = (m - 1) as nat;
        lemma_lengthened_nth(img, g, first, n, c, k);
        assert(types::nth_in(img, g, first, k) is Some);
        assert(types::nth_in(img, g, first, (n - 1) as nat) is Some);
        let x = types::nth_in(img, g, first, k)->0;
        lemma_chain_not_free(img, g, first, n, k);
        lemma_chain_not_free(img, g, first, n, (n - 1) as nat);
        assert(x != last) by {
            assert(types::nth_in(img, g, first, k) != types::nth_in(img, g, first, (n - 1) as nat));
        }
        lemma_lengthened_entries(img, g, last, c, x);
    }
}

/// A directory that was lengthened has the same entries.
proof fn lemma_lengthened_named(
    img: Image,
    g: Geometry,
    first: u32,
    n: nat,
    c: u32,
    i: nat,
    fuel: nat,
    key: Seq<u8>,
)
    requires
        usual_layout(g),
        laws::tables_present(img, g),
        clusters_present(img, g),
        whole_chain(img, g, first, n),
        laws::real_cluster(g, c),
        types::fat_value(img, g, c) == 0,
        i < n,
        dir::first_named(
            dir::entries_from(
                img,
                g,
                types::nth_in(img, g, first, i)->0,
                i * types::cluster_size(g),
                fuel,
            ),
            key,
        ) is None,
    ensures
        dir::first_named(
            dir::entries_from(
                lengthened(img, g, types::nth_in(img, g, first, (n - 1) as nat)->0, c),
                g,
                types::nth_in(img, g, first, i)->0,
                i * types::cluster_size(g),
                fuel,
            ),
            key,
        ) is None,
    decreases fuel,
{
    let cs = types::cluster_size(g);
    let last = types::nth_in(img, g, first, (n - 1) as nat)->0;
    let img4 = lengthened(img, g, last, c);
    lemma_lengthened_chain(img, g, first, n, c);
    assert(types::nth_in(img, g, first, i) is Some);
    let x = types::nth_in(img, g, first, i)->0;
    let base = i * cs;
    assert(types::nth_in(img, g, first, i) != Some(c));
    assert forall|m: int| 0 <= m < dir::slots(g) implies #[trigger] dir::slot(img4, g, x, m)
        == dir::slot(img, g, x, m) by {
        lemma_lengthened_slot(img, g, last, c, x, m);
    }
    lemma_cluster_same(img, img4, g, x, base, 0);
    let (es, end) = dir::cluster_entries(img, g, x, base, 0);
    if !end && fuel > 0 {
        assert((i + 1) * cs == i * cs + cs) by (nonlinear_arith);
        assert(types::nth_in(img, g, first, i + 1) == types::next_in(img, g, x));
        assert(types::nth_in(img4, g, first, i) == Some(x));
        assert(types::nth_in(img4, g, first, i + 1) == types::next_in(img4, g, x));
        if i + 1 < n {
            assert(types::nth_in(img, g, first, i + 1) is Some);
            let nx = types::nth_in(img, g, first, i + 1)->0;
            assert(types::nth_in(img4, g, first, i + 1) == Some(nx));
            let rest = dir::entries_from(img, g, nx, base + cs, (fuel - 1) as nat);
            let rest4 = dir::entries_from(img4, g, nx, base + cs, (fuel - 1) as nat);
            lemma_named_append(es, rest, key);
            lemma_named_append(es, rest4, key);
            lemma_lengthened_named(img, g, first, n, c, i + 1, (fuel - 1) as nat, key);
        } else {
            assert(i + 1 == n);
            assert(types::next_in(img4, g, x) == Some(c));
            let rest4 = dir::entries_from(img4, g, c, base + cs, (fuel - 1) as nat);
            assert(laws::cluster_present(img, g, c));
            lemma_lengthened_slot(img, g, last, c, c, 0);
            assert(dir::slots(g) > 0);
            assert(rest4 =~= Seq::empty());
            lemma_named_append(es, rest4, key);
        }
    }
}

// ── The law ──

/// The information that finding a new file gives.
pub open spec fn new_info(home: u32, off: int) -> FileInfo {
    FileInfo {
        first_cluster: 0,
        size: 0,
        is_dir: false,
        dir_cluster: home,
        entry_off: off as u64,
    }
}

proof fn lemma_created_with_room(
    img: Image,
    g: Geometry,
    home: u32,
    leaf: Seq<u8>,
    n: nat,
    t: nat,
    k: int,
)
    requires
        laws::sound_layout(g),
        laws::tables_present(img, g),
        whole_chain(img, g, home, n),
        home >= 2,
        create::short_name(leaf) is Some,
        t < n,
        t <= MAX_WALK,
        room_at(img, g, home, 0, t, k),
        dir::named_in(img, g, home, leaf) is None,
    ensures
        ({
            let (name, ext) = create::short_name(leaf)->0;
            let e = create::fresh_entry(name, ext);
            let off = t * types::cluster_size(g) + 32 * k;
            let ct = types::nth_in(img, g, home, t)->0;
            &&& file::entry_pos(img, g, home, off) == Some(types::cluster_pos(g, ct) + 32 * k)
            &&& dir::named_in(put_entry(img, g, ct, k, e), g, home, leaf) == Some(
                new_info(home, off),
            )
        }),
{
    let cs = types::cluster_size(g);
    let (name, ext) = create::short_name(leaf)->0;
    let e = create::fresh_entry(name, ext);
    let key = dir::component_key(leaf);
    let off = t * cs + 32 * k;
    lemma_fresh_entry(leaf, name, ext);
    assert(types::nth_in(img, g, home, 0) == Some(home));
    assert(0 * cs == 0);
    reveal(dir::named_in);
    assert(dir::first_named(dir::dir_entries(img, g, home), key) is None);
    lemma_dir_hit(img, g, home, n, 0, MAX_WALK as nat, t, k, e, key);
    vstd::arithmetic::div_mod::lemma_fundamental_div_mod_converse(off, cs, t as int, 32 * k);
    assert(types::nth_in(img, g, home, t) is Some);
}

/// A file that was created is found in its directory, and is empty. This holds
/// of volumes that are sound.
pub proof fn law_created_is_found(img: Image, g: Geometry, path: Seq<u8>, n: nat)
    requires
        usual_layout(g),
        laws::tables_present(img, g),
        clusters_present(img, g),
        create::created(img, g, path).1,
        whole_chain(img, g, create::home_of(img, g, dir::stripped(path))->0, n),
        n <= MAX_WALK,
    ensures
        ({
            let p = dir::stripped(path);
            let home = create::home_of(img, g, p)->0;
            let hit = dir::named_in(
                create::created(img, g, path).0,
                g,
                home,
                p.skip(glob::base_start(p)),
            );
            &&& hit is Some
            &&& hit->0 == new_info(home, hit->0.entry_off as int)
        }),
{
    let p = dir::stripped(path);
    lemma_stripped(path);
    let home = create::home_of(img, g, p)->0;
    let leaf = p.skip(glob::base_start(p));
    let cs = types::cluster_size(g);
    lemma_found_in_home(img, g, p);
    assert(home >= 2);
    assert(types::nth_in(img, g, home, 0) == Some(home));
    assert(0 * cs == 0);
    match create::place_from(img, g, home, 0, MAX_WALK as nat) {
        create::Place::At(off) => {
            let (t, k) = lemma_place(img, g, home, n, 0, MAX_WALK as nat, off);
            lemma_created_with_room(img, g, home, leaf, n, t, k);
        },
        create::Place::Full(last, off) => {
            lemma_place_full(img, g, home, n, 0, MAX_WALK as nat, last, off);
            laws::law_allocation_picks_lowest(img, g, 2);
            let c = types::first_free(img, g, 2)->0;
            assert(laws::real_cluster(g, c));
            let img4 = lengthened(img, g, last, c);
            lemma_lengthened_chain(img, g, home, n, c);
            assert(create::room_in(img, g, home) == (img4, Some(off)));
            reveal(dir::named_in);
            lemma_lengthened_named(
                img,
                g,
                home,
                n,
                c,
                0,
                MAX_WALK as nat,
                dir::component_key(leaf),
            );
            assert(dir::named_in(img4, g, home, leaf) is None);
            // The new cluster is the first with a usable slot.
            assert(laws::cluster_present(img, g, c));
            lemma_lengthened_slot(img, g, last, c, c, 0);
            assert(dir::slots(g) > 0);
            assert(create::slot_in(img4, g, c, 0) == Some(0int));
            assert forall|m: nat| 0 <= m < n implies create::slot_in(
                img4,
                g,
                (#[trigger] types::nth_in(img4, g, home, m))->0,
                0,
            ) is None by {
                assert(types::nth_in(img4, g, home, m) == types::nth_in(img, g, home, m));
                assert(types::nth_in(img, g, home, m) is Some);
                let x = types::nth_in(img, g, home, m)->0;
                assert(create::slot_in(img, g, x, 0) is None);
                assert(types::nth_in(img, g, home, m) != Some(c));
                lemma_slot_in(img, g, x, 0);
                lemma_slot_in(img4, g, x, 0);
                if create::slot_in(img4, g, x, 0) is Some {
                    let y = create::slot_in(img4, g, x, 0)->0;
                    lemma_lengthened_slot(img, g, last, c, x, y);
                    assert(!create::free_slot(dir::slot(img, g, x, y)));
                }
            }
            lemma_created_with_room(img4, g, home, leaf, n + 1, n, 0);
        },
        create::Place::Endless => {},
    }
}

} // verus!
