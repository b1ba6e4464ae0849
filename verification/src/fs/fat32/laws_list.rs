//! Listing a directory and looking a name up in it agree.
use vstd::prelude::*;

use super::create;
use super::dir;
use super::laws;
use super::laws_create;
use super::types::{EntryView, FileInfo, Geometry, MAX_WALK};
use crate::bytes;
use crate::fs::block::Image;
use crate::shell::cwd;
use crate::shell::glob;

verus! {

/// A path that leads to a directory, the root among them.
pub open spec fn leads_to_directory(img: Image, g: Geometry, p: Seq<u8>) -> bool {
    dir::stripped(p).len() == 0 || (dir::found(img, g, p) is Some && dir::found(
        img,
        g,
        p,
    )->0.is_dir)
}

/// The first cluster of the directory that a path leads to.
pub open spec fn start_of(img: Image, g: Geometry, p: Seq<u8>) -> u32 {
    if dir::stripped(p).len() == 0 {
        g.root_cluster
    } else {
        dir::found(img, g, p)->0.first_cluster
    }
}

/// A name that can stand behind a path: it has a byte and no `/`.
pub open spec fn one_component(n: Seq<u8>) -> bool {
    n.len() > 0 && !n.contains(47u8)
}

/// A path with a name behind it.
pub open spec fn below(p: Seq<u8>, n: Seq<u8>) -> Seq<u8> {
    p + seq![47u8] + n
}

proof fn lemma_not_empty(p: Seq<u8>)
    requires
        p.len() > 0,
        p[0] != 47,
    ensures
        dir::stripped(p).len() > 0,
    decreases p.len(),
{
    if p.last() == 47 {
        if p.len() == 1 {
            assert(p.last() == p[0]);
        }
        assert(p.drop_last()[0] == p[0]);
        lemma_not_empty(p.drop_last());
    }
}

/// A name behind a path is looked for in the directory that the path leads to.
pub proof fn lemma_found_below(img: Image, g: Geometry, p: Seq<u8>, n: Seq<u8>)
    requires
        leads_to_directory(img, g, p),
        one_component(n),
    ensures
        dir::found(img, g, below(p, n)) == dir::named_in(img, g, start_of(img, g, p), n),
    decreases p.len(),
{
    let q = below(p, n);
    assert forall|k: int| 0 <= k < n.len() implies n[k] != 47 by {
        assert(n.contains(n[k]));
    }
    assert(q.last() == n.last());
    if p.len() == 0 {
        assert(q.skip(1) =~= n);
        assert(q[0] == 47);
        assert(n[0] != 47 && n.last() != 47);
        assert(dir::stripped(n) == n);
        assert(dir::stripped(q) == n);
        bytes::lemma_index_from_unique(n, 0, 47, n.len() as int);
        assert(cwd::split_on(n, 47) =~= seq![n]);
        laws_create::lemma_lookup_gaps(img, g, g.root_cluster, Seq::empty(), n);
        assert(Seq::<Seq<u8>>::empty() + seq![n] =~= seq![n]);
    } else if p[0] == 47 {
        let r = p.skip(1);
        assert(q[0] == 47);
        assert(q.skip(1) =~= below(r, n));
        assert(dir::stripped(p) == dir::stripped(r));
        assert(dir::stripped(q) == dir::stripped(below(r, n)));
        lemma_found_below(img, g, r, n);
    } else {
        lemma_not_empty(p);
        assert(q[0] == p[0]);
        assert(dir::stripped(q) == q);
        let b = p.len() + 1;
        assert(q[b - 1] == 47);
        assert forall|i: int| b <= i < q.len() implies q[i] != 47 by {
            assert(q[i] == n[i - b]);
        }
        laws_create::lemma_split_last(q, b as int);
        assert(q.take(b - 1) =~= p);
        assert(q.skip(b as int) =~= n);
        let gaps = laws_create::lemma_split_stripped(p);
        let a = cwd::split_on(dir::stripped(p), 47);
        laws_create::lemma_lookup_append(img, g, g.root_cluster, a, gaps, n);
        assert(cwd::split_on(q, 47) =~= a + gaps + seq![n]);
    }
}

/// An entry is the first of its name in a listing.
pub open spec fn first_of_name(es: Seq<EntryView>, i: int, key: Seq<u8>) -> bool {
    &&& 0 <= i < es.len()
    &&& dir::entry_key(es[i].name) == key
    &&& forall|j: int| 0 <= j < i ==> dir::entry_key((#[trigger] es[j]).name) != key
}

/// What an entry of a listing says of a file.
pub open spec fn says(e: EntryView, info: FileInfo) -> bool {
    &&& info.first_cluster == e.first_cluster
    &&& info.size == e.size
    &&& info.is_dir == ((e.attr / 16) % 2 == 1)
    &&& info.entry_off == e.entry_off as u64
}

proof fn lemma_first_named(es: Seq<EntryView>, key: Seq<u8>) -> (i: int)
    ensures
        match dir::first_named(es, key) {
            Some(e) => first_of_name(es, i, key) && es[i] == e,
            None => forall|j: int|
                0 <= j < es.len() ==> dir::entry_key((#[trigger] es[j]).name) != key,
        },
    decreases es.len(),
{
    if es.len() == 0 || dir::entry_key(es[0].name) == key {
        0
    } else {
        let t = es.skip(1);
        let k = lemma_first_named(t, key);
        if dir::first_named(es, key) is Some {
            assert(es[k + 1] == t[k]);
            assert forall|j: int| 0 <= j < k + 1 implies dir::entry_key((#[trigger] es[j]).name)
                != key by {
                if j > 0 {
                    assert(t[j - 1] == es[j]);
                }
            }
        } else {
            assert forall|j: int| 0 <= j < es.len() implies dir::entry_key((#[trigger] es[j]).name)
                != key by {
                if j > 0 {
                    assert(t[j - 1] == es[j]);
                }
            }
        }
        k + 1
    }
}

/// Listing agrees with lookup: behind a path that leads to a directory, a name
/// is found exactly if it is among the names that are listed for the path, and
/// what is found is what the first entry of that name says.
pub proof fn law_listing_agrees_with_lookup(img: Image, g: Geometry, p: Seq<u8>, n: Seq<u8>)
    requires
        leads_to_directory(img, g, p),
        one_component(n),
    ensures
        match dir::found(img, g, below(p, n)) {
            Some(hit) => exists|i: int|
                #![trigger dir::listed(img, g, p)[i]]
                first_of_name(dir::listed(img, g, p), i, dir::component_key(n)) && says(
                    dir::listed(img, g, p)[i],
                    hit,
                ),
            None => forall|i: int|
                0 <= i < dir::listed(img, g, p).len() ==> dir::entry_key(
                    (#[trigger] dir::listed(img, g, p)[i]).name,
                ) != dir::component_key(n),
        },
{
    lemma_found_below(img, g, p, n);
    reveal(dir::named_in);
    let es = dir::listed(img, g, p);
    let i = lemma_first_named(dir::dir_entries(img, g, start_of(img, g, p)), dir::component_key(n));
    assert(dir::found(img, g, below(p, n)) is Some ==> says(
        es[i],
        dir::found(img, g, below(p, n))->0,
    ));
}

/// Where a path leads nowhere, nothing is listed.
pub proof fn law_nothing_is_listed_nowhere(img: Image, g: Geometry, p: Seq<u8>)
    requires
        dir::stripped(p).len() > 0,
        dir::found(img, g, p) is None,
    ensures
        dir::listed(img, g, p).len() == 0,
{
}

/// A file that was created is listed in its directory, and is empty. This holds
/// of volumes that are sound, as long as the path of the directory leads there
/// still.
pub proof fn law_created_is_listed(img: Image, g: Geometry, path: Seq<u8>, n: nat) -> (i: int)
    requires
        laws_create::usual_layout(g),
        laws::tables_present(img, g),
        laws_create::clusters_present(img, g),
        create::created(img, g, path).1,
        laws_create::whole_chain(img, g, create::home_of(img, g, dir::stripped(path))->0, n),
        n <= MAX_WALK,
        create::home_of(create::created(img, g, path).0, g, dir::stripped(path)) == create::home_of(
            img,
            g,
            dir::stripped(path),
        ),
    ensures
        ({
            let p = dir::stripped(path);
            let es = dir::listed(create::created(img, g, path).0, g, create::parent_of(p));
            &&& first_of_name(es, i, dir::component_key(p.skip(glob::base_start(p))))
            &&& es[i].size == 0
            &&& es[i].first_cluster == 0
            &&& !dir::dir_attr(es[i].attr)
        }),
{
    let p = dir::stripped(path);
    let img2 = create::created(img, g, path).0;
    let home = create::home_of(img, g, p)->0;
    let leaf = p.skip(glob::base_start(p));
    laws_create::law_created_is_found(img, g, path, n);
    reveal(dir::named_in);
    laws_create::lemma_stripped(path);
    let parent = create::parent_of(p);
    assert(dir::listed(img2, g, parent) == dir::dir_entries(img2, g, home)) by {
        laws_create::lemma_base_start(p);
        if parent.len() > 0 {
            assert(parent[0] == p[0]);
            lemma_not_empty(parent);
        } else {
            assert(dir::stripped(parent) == parent);
        }
    }
    lemma_first_named(dir::dir_entries(img2, g, home), dir::component_key(leaf))
}

/// Where the fields of a directory entry stand: the name, the attributes, the
/// two halves of the first cluster, and the size, low bytes first.
pub proof fn law_entry_layout(e: Seq<u8>, off: int)
    requires
        e.len() == 32,
    ensures
        ({
            let v = dir::entry_of(e, off);
            &&& v.attr == e[11]
            &&& v.first_cluster == e[26] + 0x100 * e[27] + 0x1_0000 * e[20] + 0x100_0000 * e[21]
            &&& v.size == e[28] + 0x100 * e[29] + 0x1_0000 * e[30] + 0x100_0000 * e[31]
            &&& v.entry_off == off
        }),
{
    reveal_with_fuel(bytes::le_value, 5);
}

/// Deleted entries, parts of long names and volume labels are never listed.
pub proof fn law_only_files_are_listed(e: Seq<u8>)
    requires
        e.len() == 32,
        e[0] == 0xE5 || e[11] % 16 == 15 || (e[11] / 8) % 2 == 1,
    ensures
        !dir::visible(e),
{
}

} // verus!
