//! How names stand in directories, and how they are compared.
use vstd::prelude::*;

use super::create;
use super::dir;
use super::types;
use super::types::{EntryView, Geometry};
use crate::bytes;
use crate::fs::block::Image;
use crate::text;

verus! {

/// A part of a name: ASCII bytes, none of them a space, a point or a slash.
pub open spec fn plain_part(s: Seq<u8>) -> bool {
    forall|i: int|
        0 <= i < s.len() ==> 33 <= (#[trigger] s[i]) < 127 && s[i] != 46 && s[i] != 47
}

/// The same in upper case.
pub open spec fn upper(s: Seq<u8>) -> Seq<u8> {
    Seq::new(s.len(), |i: int| bytes::upper_byte(s[i]))
}

proof fn lemma_unpadded(s: Seq<u8>, n: nat)
    requires
        plain_part(s),
    ensures
        dir::unpadded(s + bytes::filled(32, n)) == s,
{
    let b = s + bytes::filled(32, n);
    assert forall|k: int| 0 <= k < s.len() implies b[k] != 32 by {
        assert(b[k] == s[k]);
    }
    bytes::lemma_index_from_unique(b, 0, 32, s.len() as int);
    assert(b.take(s.len() as int) =~= s);
}

/// The name of an entry is what stands in its first eight bytes and, behind a
/// point, what stands in the next three, both without the spaces that fill them
/// up. The rest of the entry has no part in it.
pub proof fn law_name_loses_its_padding(name: Seq<u8>, ext: Seq<u8>, rest: Seq<u8>)
    requires
        plain_part(name),
        plain_part(ext),
        name.len() <= 8,
        ext.len() <= 3,
    ensures
        ({
            let e = name + bytes::filled(32, (8 - name.len()) as nat) + ext + bytes::filled(
                32,
                (3 - ext.len()) as nat,
            ) + rest;
            dir::name_of(e) == (if ext.len() == 0 {
                name
            } else {
                name + seq![46u8] + ext
            })
        }),
{
    let a = name + bytes::filled(32, (8 - name.len()) as nat);
    let b = ext + bytes::filled(32, (3 - ext.len()) as nat);
    let e = name + bytes::filled(32, (8 - name.len()) as nat) + ext + bytes::filled(
        32,
        (3 - ext.len()) as nat,
    ) + rest;
    assert(e.take(8) =~= a);
    assert(e.subrange(8, 11) =~= b);
    lemma_unpadded(name, (8 - name.len()) as nat);
    lemma_unpadded(ext, (3 - ext.len()) as nat);
}

/// A name is looked for in upper case, whatever case it was typed in; so is the
/// name of an entry.
pub proof fn law_case_does_not_count(name: Seq<u8>, ext: Seq<u8>)
    requires
        plain_part(name),
        plain_part(ext),
        name.len() > 0,
        ext.len() > 0,
    ensures
        dir::component_key(name) == upper(name),
        dir::component_key(name + seq![46u8] + ext) == upper(name) + seq![46u8] + upper(ext),
        dir::component_key(name + seq![46u8]) == upper(name),
        dir::entry_key(name + seq![46u8] + ext) == dir::component_key(name + seq![46u8] + ext),
        dir::entry_key(name) == dir::component_key(name),
{
    lemma_upper_plain(name);
    lemma_upper_plain(ext);
    let u = upper(name);
    let v = upper(ext);
    // A name without a point.
    assert(dir::stripped(name) == name);
    assert(text::upper_form(name) =~= u);
    assert forall|k: int| 0 <= k < u.len() implies u[k] != 46 by {}
    bytes::lemma_index_from_unique(u, 0, 46, u.len() as int);
    // A name with an extension.
    let w = name + seq![46u8] + ext;
    assert(w[0] == name[0] && w.last() == ext.last());
    assert(ext[ext.len() - 1] != 47);
    assert(dir::stripped(w) == w);
    assert(text::all_ascii(w));
    let x = u + seq![46u8] + v;
    assert(text::upper_form(w) =~= x);
    assert forall|k: int| 0 <= k < u.len() implies x[k] != 46 by {
        assert(x[k] == u[k]);
    }
    bytes::lemma_index_from_unique(x, 0, 46, u.len() as int);
    assert(x.take(u.len() as int) =~= u);
    assert(x.skip(u.len() as int + 1) =~= v);
    lemma_no_blanks(u);
    lemma_no_blanks(v);
    // A name with a point and nothing behind it.
    let p = name + seq![46u8];
    assert(p[0] == name[0] && p.last() == 46);
    assert(dir::stripped(p) == p);
    assert(text::all_ascii(p));
    let q = u + seq![46u8];
    assert(text::upper_form(p) =~= q);
    assert forall|k: int| 0 <= k < u.len() implies q[k] != 46 by {
        assert(q[k] == u[k]);
    }
    bytes::lemma_index_from_unique(q, 0, 46, u.len() as int);
    assert(q.take(u.len() as int) =~= u);
    assert(q.skip(u.len() as int + 1) =~= Seq::<u8>::empty());
}

proof fn lemma_upper_plain(s: Seq<u8>)
    requires
        plain_part(s),
    ensures
        plain_part(upper(s)),
        text::all_ascii(s),
        s.len() > 0 ==> s[0] != 47 && s.last() != 47,
{
    if s.len() > 0 {
        assert(s[0] != 47);
        assert(s[s.len() - 1] != 47);
    }
}

proof fn lemma_no_blanks(s: Seq<u8>)
    requires
        plain_part(s),
    ensures
        text::trimmed_form(s) == s,
{
    lemma_upper_plain(s);
    if s.len() > 0 {
        assert(s[0] >= 33);
        assert(s[s.len() - 1] >= 33);
    }
}

/// An entry of a file or directory shows, unless it is one of the two that every
/// directory has for itself and the one above it.
pub proof fn law_file_is_visible(e: Seq<u8>)
    requires
        e.len() == 32,
        e[0] != 0xE5,
        e[11] % 16 != 15,
        (e[11] / 8) % 2 == 0,
        e[0] != 46,
        e[0] != 32,
        text::all_ascii(e.take(8)),
    ensures
        dir::visible(e),
{
    let n = dir::unpadded(e.take(8));
    bytes::lemma_index_from(e.take(8), 0, 32);
    assert(e.take(8)[0] == e[0]);
    assert(bytes::index_from(e.take(8), 0, 32) > 0);
    assert(n[0] == e[0]);
    let one = seq![46u8];
    let two = seq![46u8, 46u8];
    let name = dir::name_of(e);
    assert forall|i: int| 0 <= i < n.len() implies #[trigger] n[i] < 128 by {
        assert(n[i] == e.take(8)[i]);
    }
    assert(name[0] == e[0]);
    assert(one[0] == 46 && two[0] == 46);
}

/// The entries for the directory itself and the one above it do not show.
pub proof fn law_dots_are_hidden(rest: Seq<u8>)
    ensures
        !dir::visible(seq![46u8] + bytes::filled(32, 10) + rest),
        !dir::visible(seq![46u8, 46u8] + bytes::filled(32, 9) + rest),
{
    let a = seq![46u8] + bytes::filled(32, 10) + rest;
    let b = seq![46u8, 46u8] + bytes::filled(32, 9) + rest;
    assert(a.take(8)[0] == 46 && a.take(8)[1] == 32);
    bytes::lemma_index_from_unique(a.take(8), 0, 32, 1);
    assert(a.take(8).take(1) =~= seq![46u8]);
    assert(a.subrange(8, 11)[0] == 32);
    bytes::lemma_index_from_unique(a.subrange(8, 11), 0, 32, 0);
    assert(text::all_ascii(seq![46u8]));
    assert(b.take(8)[0] == 46 && b.take(8)[1] == 46 && b.take(8)[2] == 32);
    bytes::lemma_index_from_unique(b.take(8), 0, 32, 2);
    assert(b.take(8).take(2) =~= seq![46u8, 46u8]);
    assert(b.subrange(8, 11)[0] == 32);
    bytes::lemma_index_from_unique(b.subrange(8, 11), 0, 32, 0);
    assert(text::all_ascii(seq![46u8, 46u8]));
}

/// Every slot up to the end of a directory that shows is listed, and the slots
/// behind the end are not looked at.
pub proof fn law_slots_are_listed_up_to_the_end(
    img: Image,
    g: Geometry,
    c: u32,
    base: int,
    k: int,
    j: int,
) -> (i: int)
    requires
        0 <= k <= j < dir::slots(g),
        dir::visible(dir::slot(img, g, c, j)),
        forall|x: int| k <= x <= j ==> (#[trigger] dir::slot(img, g, c, x))[0] != 0,
    ensures
        0 <= i < dir::cluster_entries(img, g, c, base, k).0.len(),
        dir::cluster_entries(img, g, c, base, k).0[i] == dir::entry_of(
            dir::slot(img, g, c, j),
            base + 32 * j,
        ),
    decreases j - k,
{
    assert(dir::slot(img, g, c, k)[0] != 0);
    if k == j {
        0
    } else {
        let i = law_slots_are_listed_up_to_the_end(img, g, c, base, k + 1, j);
        if dir::visible(dir::slot(img, g, c, k)) {
            i + 1
        } else {
            i
        }
    }
}

/// A slot whose first byte is zero ends the directory: nothing from there on is
/// listed, neither in this cluster nor in the next.
pub proof fn law_zero_ends_the_directory(
    img: Image,
    g: Geometry,
    c: u32,
    base: int,
    fuel: nat,
)
    requires
        dir::slots(g) > 0,
        dir::slot(img, g, c, 0)[0] == 0,
    ensures
        dir::entries_from(img, g, c, base, fuel).len() == 0,
{
    assert(dir::cluster_entries(img, g, c, base, 0) == (Seq::<EntryView>::empty(), true));
}

/// A directory that fills its cluster goes on in the next one, whose entries
/// stand behind those of the first.
pub proof fn law_directory_goes_on_in_the_next_cluster(
    img: Image,
    g: Geometry,
    c: u32,
    n: u32,
    base: int,
    fuel: nat,
)
    requires
        fuel > 0,
        !dir::cluster_entries(img, g, c, base, 0).1,
        types::next_in(img, g, c) == Some(n),
    ensures
        dir::entries_from(img, g, c, base, fuel) == dir::cluster_entries(img, g, c, base, 0).0
            + dir::entries_from(img, g, n, base + g.spc * 512, (fuel - 1) as nat),
{
    assert(types::cluster_size(g) == g.spc * 512);
}

/// The entry that is made for a new file bears the name that it was asked for,
/// in upper case, and shows as an empty file.
pub proof fn law_new_entry_bears_its_name(name: Seq<u8>, ext: Seq<u8>)
    requires
        plain_part(name),
        plain_part(ext),
        0 < name.len() <= 8,
        0 < ext.len() <= 3,
        create::name_chars(upper(name)),
        create::name_chars(upper(ext)),
    ensures
        ({
            let leaf = name + seq![46u8] + ext;
            &&& create::short_name(leaf) == Some((upper(name), upper(ext)))
            &&& dir::name_of(create::fresh_entry(upper(name), upper(ext))) == dir::component_key(
                leaf,
            )
            &&& dir::entry_of(create::fresh_entry(upper(name), upper(ext)), 0).size == 0
            &&& !dir::dir_attr(dir::entry_of(create::fresh_entry(upper(name), upper(ext)), 0).attr)
        }),
{
    law_case_does_not_count(name, ext);
    lemma_upper_plain(name);
    lemma_upper_plain(ext);
    let u = upper(name);
    let v = upper(ext);
    let norm = u + seq![46u8] + v;
    assert forall|k: int| 0 <= k < u.len() implies norm[k] != 46 by {
        assert(norm[k] == u[k]);
    }
    bytes::lemma_index_from_unique(norm, 0, 46, u.len() as int);
    assert(norm.take(u.len() as int) =~= u);
    assert(norm.skip(u.len() as int + 1) =~= v);
    let rest = seq![0x20u8] + bytes::filled(0, 20);
    law_name_loses_its_padding(u, v, rest);
    let e = create::fresh_entry(u, v);
    assert(e =~= u + bytes::filled(32, (8 - u.len()) as nat) + v + bytes::filled(
        32,
        (3 - v.len()) as nat,
    ) + rest);
    assert(e[28] == 0 && e[29] == 0 && e[30] == 0 && e[31] == 0);
    reveal_with_fuel(bytes::le_value, 5);
    assert(e[11] == 0x20);
}

} // verus!
