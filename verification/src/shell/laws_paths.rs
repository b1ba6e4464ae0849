//! What paths come to from one directory to another, and which names a pattern
//! finds.
use vstd::prelude::*;

use super::cwd;
use super::glob;
use super::parser;
use super::parser::Ch;
use crate::bytes;
use crate::fs::handlers;
use crate::names;

verus! {

// ── Paths ──

/// Components that a normalized path can have.
pub open spec fn real_parts(parts: Seq<Seq<u8>>) -> bool {
    forall|i: int|
        0 <= i < parts.len() ==> cwd::real_component(#[trigger] parts[i]) && !parts[i].contains(47)
}

proof fn lemma_split_both(a: Seq<u8>, b: Seq<u8>)
    ensures
        cwd::split_on(a + seq![47u8] + b, 47) == cwd::split_on(a, 47) + cwd::split_on(b, 47),
    decreases a.len(),
{
    let s = a + seq![47u8] + b;
    bytes::lemma_index_from(a, 0, 47);
    let j = bytes::index_from(a, 0, 47);
    assert forall|k: int| 0 <= k < j implies s[k] != 47 by {
        assert(s[k] == a[k]);
    }
    if j < a.len() {
        assert(s[j] == a[j]);
        bytes::lemma_index_from_unique(s, 0, 47, j);
        assert(s.take(j) =~= a.take(j));
        assert(s.skip(j + 1) =~= a.skip(j + 1) + seq![47u8] + b);
        lemma_split_both(a.skip(j + 1), b);
        assert(cwd::split_on(s, 47) =~= cwd::split_on(a, 47) + cwd::split_on(b, 47));
    } else {
        bytes::lemma_index_from_unique(s, 0, 47, a.len() as int);
        assert(s.take(a.len() as int) =~= a);
        assert(s.skip(a.len() as int + 1) =~= b);
        assert(cwd::split_on(s, 47) =~= seq![a] + cwd::split_on(b, 47));
    }
}

/// What follows in a path depends on the normalized front alone.
proof fn lemma_same_front(x: Seq<Seq<u8>>, y: Seq<Seq<u8>>, rest: Seq<Seq<u8>>)
    requires
        cwd::normal_parts(x) == cwd::normal_parts(y),
    ensures
        cwd::normal_parts(x + rest) == cwd::normal_parts(y + rest),
    decreases rest.len(),
{
    if rest.len() == 0 {
        assert(x + rest =~= x);
        assert(y + rest =~= y);
    } else {
        assert((x + rest).drop_last() =~= x + rest.drop_last());
        assert((y + rest).drop_last() =~= y + rest.drop_last());
        lemma_same_front(x, y, rest.drop_last());
    }
}

/// A path below a normalized one, by components.
proof fn lemma_resolved_parts(parts: Seq<Seq<u8>>, b: Seq<u8>)
    requires
        real_parts(parts),
        b.len() > 0 ==> b[0] != 47,
    ensures
        cwd::resolved(cwd::path_of(parts), b) == cwd::path_of(
            cwd::normal_parts(seq![Seq::<u8>::empty()] + parts + cwd::split_on(b, 47)),
        ),
{
    let front = seq![Seq::<u8>::empty()] + parts;
    let r = cwd::path_of(parts);
    if parts.len() == 0 {
        let none = Seq::<u8>::empty();
        assert(none + seq![47u8] + b =~= r + b);
        lemma_split_both(none, b);
        bytes::lemma_index_from_unique(none, 0, 47, 0);
        assert(cwd::split_on(none, 47) =~= front);
    } else {
        cwd::lemma_split_slash_joined(parts);
        lemma_split_both(r, b);
        let p = parts.last();
        assert(cwd::real_component(parts[parts.len() - 1]));
        assert(r.last() == p.last());
        assert(p.contains(p[p.len() - 1]));
        assert(r.last() != 47);
    }
}

/// Going to `a` and from there to `b` is going to `a/b`.
pub proof fn law_two_steps_are_one(at: Seq<u8>, a: Seq<u8>, b: Seq<u8>)
    requires
        a.len() > 0,
        b.len() > 0 ==> b[0] != 47,
    ensures
        cwd::resolved(cwd::resolved(at, a), b) == cwd::resolved(at, a + seq![47u8] + b),
{
    let x = if a[0] == 47 {
        a
    } else if at.len() > 0 && at.last() == 47 {
        at + a
    } else {
        at + seq![47u8] + a
    };
    let parts = cwd::normal_parts(cwd::split_on(x, 47));
    cwd::lemma_split_no_separator(x, 47);
    cwd::lemma_normal_parts_real(cwd::split_on(x, 47));
    assert(cwd::resolved(at, a) == cwd::path_of(parts));
    lemma_resolved_parts(parts, b);
    cwd::lemma_normal_parts_fixed(parts);
    lemma_same_front(
        seq![Seq::<u8>::empty()] + parts,
        cwd::split_on(x, 47),
        cwd::split_on(b, 47),
    );
    lemma_split_both(x, b);
    let ab = a + seq![47u8] + b;
    assert(ab[0] == a[0]);
    assert(at + ab =~= at + a + seq![47u8] + b);
    assert(at + seq![47u8] + ab =~= at + seq![47u8] + a + seq![47u8] + b);
}

/// A name stands for the entry of that name in the current directory.
pub proof fn law_name_goes_below(parts: Seq<Seq<u8>>, c: Seq<u8>)
    requires
        real_parts(parts.push(c)),
    ensures
        cwd::resolved(cwd::path_of(parts), c) == cwd::path_of(parts.push(c)),
{
    let all = parts.push(c);
    assert(all[parts.len() as int] == c);
    assert forall|i: int| 0 <= i < parts.len() implies cwd::real_component(#[trigger] parts[i])
        && !parts[i].contains(47) by {
        assert(all[i] == parts[i]);
    }
    assert(c[0] != 47) by {
        assert(c.contains(c[0]));
    }
    lemma_resolved_parts(parts, c);
    lemma_single(c);
    assert(seq![Seq::<u8>::empty()] + parts + seq![c] =~= seq![Seq::<u8>::empty()] + all);
    cwd::lemma_normal_parts_fixed(all);
}

proof fn lemma_single(c: Seq<u8>)
    requires
        !c.contains(47),
    ensures
        cwd::split_on(c, 47) == seq![c],
{
    assert forall|k: int| 0 <= k < c.len() implies c[k] != 47 by {
        assert(c.contains(c[k]));
    }
    bytes::lemma_index_from_unique(c, 0, 47, c.len() as int);
}

/// `..` leads out of a directory into the one that holds it, and from the root
/// nowhere; `.` stays.
pub proof fn law_dots_go_up_and_stay(parts: Seq<Seq<u8>>)
    requires
        real_parts(parts),
    ensures
        cwd::resolved(cwd::path_of(parts), seq![46u8, 46u8]) == cwd::path_of(
            if parts.len() > 0 {
                parts.drop_last()
            } else {
                parts
            },
        ),
        cwd::resolved(cwd::path_of(parts), seq![46u8]) == cwd::path_of(parts),
{
    let front = seq![Seq::<u8>::empty()] + parts;
    let up = seq![46u8, 46u8];
    let here = seq![46u8];
    cwd::lemma_normal_parts_fixed(parts);
    lemma_resolved_parts(parts, up);
    lemma_resolved_parts(parts, here);
    lemma_single(up);
    lemma_single(here);
    assert((front + seq![up]).drop_last() =~= front);
    assert((front + seq![here]).drop_last() =~= front);
    assert(up != here) by {
        assert(up.len() != here.len());
    }
}

/// An absolute path stands for itself, wherever the shell is.
pub proof fn law_absolute_stands_for_itself(at: Seq<u8>, parts: Seq<Seq<u8>>)
    requires
        real_parts(parts),
    ensures
        cwd::resolved(at, cwd::path_of(parts)) == cwd::path_of(parts),
{
    cwd::lemma_slash_joined_first(parts);
    if parts.len() == 0 {
        let none = Seq::<u8>::empty();
        let root = seq![47u8];
        assert(none + root + none =~= root);
        lemma_split_both(none, none);
        lemma_single(none);
        let front = seq![none];
        assert(front + front =~= front + seq![none]);
        assert((front + seq![none]).drop_last() =~= front);
        assert(front.drop_last() =~= Seq::<Seq<u8>>::empty());
        assert(cwd::normal_parts(front.drop_last()) =~= Seq::<Seq<u8>>::empty());
        assert(cwd::normal_parts(front) =~= Seq::<Seq<u8>>::empty());
    } else {
        cwd::lemma_split_slash_joined(parts);
        cwd::lemma_normal_parts_fixed(parts);
    }
}

// ── Patterns ──

/// As long as each other, and byte by byte the same but for `?`.
pub open spec fn fits(pat: Seq<u8>, name: Seq<u8>) -> bool {
    pat.len() == name.len() && forall|i: int|
        0 <= i < pat.len() ==> pat[i] == 63 || #[trigger] pat[i] == name[i]
}

/// No `*` in a pattern.
pub open spec fn starless(pat: Seq<u8>) -> bool {
    forall|i: int| 0 <= i < pat.len() ==> #[trigger] pat[i] != 42
}

proof fn lemma_fits_rest(pat: Seq<u8>, name: Seq<u8>)
    requires
        pat.len() > 0,
        name.len() > 0,
    ensures
        fits(pat, name) == ((pat[0] == 63 || pat[0] == name[0]) && fits(pat.skip(1), name.skip(1))),
{
    if fits(pat.skip(1), name.skip(1)) && (pat[0] == 63 || pat[0] == name[0]) {
        assert forall|i: int| 0 <= i < pat.len() implies pat[i] == 63 || #[trigger] pat[i]
            == name[i] by {
            if i > 0 {
                assert(pat.skip(1)[i - 1] == pat[i]);
                assert(name.skip(1)[i - 1] == name[i]);
            }
        }
    }
    if fits(pat, name) {
        assert forall|i: int| 0 <= i < pat.skip(1).len() implies pat.skip(1)[i] == 63
            || #[trigger] pat.skip(1)[i] == name.skip(1)[i] by {
            assert(pat[i + 1] == 63 || pat[i + 1] == name[i + 1]);
        }
        assert(pat[0] == 63 || pat[0] == name[0]);
    }
}

/// `?` stands for exactly one byte, whichever it is.
pub proof fn law_question_mark_is_one_byte(pat: Seq<u8>, name: Seq<u8>)
    requires
        starless(pat),
    ensures
        glob::matches_pattern(pat, name) == fits(pat, name),
    decreases pat.len(),
{
    if pat.len() > 0 {
        assert(pat[0] != 42);
        if name.len() > 0 {
            assert forall|i: int| 0 <= i < pat.skip(1).len() implies #[trigger] pat.skip(1)[i]
                != 42 by {
                assert(pat[i + 1] != 42);
            }
            law_question_mark_is_one_byte(pat.skip(1), name.skip(1));
            lemma_fits_rest(pat, name);
        }
    }
}

/// `*` stands for whatever is between what comes before it and what comes
/// behind it, be it nothing.
pub proof fn law_star_is_what_is_between(p: Seq<u8>, s: Seq<u8>, name: Seq<u8>)
    requires
        starless(p),
        starless(s),
    ensures
        glob::matches_pattern(p + seq![42u8] + s, name) == (p.len() + s.len() <= name.len() && fits(
            p,
            name.take(p.len() as int),
        ) && fits(s, name.skip(name.len() - s.len()))),
    decreases p.len(),
{
    let pat = p + seq![42u8] + s;
    if p.len() == 0 {
        assert(pat[0] == 42);
        assert(pat.skip(1) =~= s);
        glob::law_star_matches_any_prefix(pat, name);
        let n = name.len() - s.len();
        if n >= 0 {
            law_question_mark_is_one_byte(s, name.skip(n));
        }
        if glob::matches_pattern(pat, name) {
            let k = choose|k: int|
                0 <= k <= name.len() && glob::matches_pattern(s, #[trigger] name.skip(k));
            law_question_mark_is_one_byte(s, name.skip(k));
            assert(k == n);
        }
    } else {
        assert(pat[0] == p[0]);
        assert(p[0] != 42);
        assert(pat.skip(1) =~= p.skip(1) + seq![42u8] + s);
        assert forall|i: int| 0 <= i < p.skip(1).len() implies #[trigger] p.skip(1)[i] != 42 by {
            assert(p[i + 1] != 42);
        }
        if name.len() > 0 {
            let rest = name.skip(1);
            law_star_is_what_is_between(p.skip(1), s, rest);
            if p.len() + s.len() <= name.len() {
                lemma_fits_rest(p, name.take(p.len() as int));
                assert(name.take(p.len() as int).skip(1) =~= rest.take(p.len() - 1));
                assert(rest.skip(rest.len() - s.len()) =~= name.skip(name.len() - s.len()));
            }
        }
    }
}

// ── Listings ──

/// Names that can stand in a listing.
pub open spec fn listable(ns: Seq<Seq<u8>>) -> bool {
    forall|i: int| 0 <= i < ns.len() ==> (#[trigger] ns[i]).len() > 0 && !ns[i].contains(0)
}

proof fn lemma_zero_ended_first(x: Seq<u8>, ns: Seq<Seq<u8>>)
    ensures
        handlers::zero_ended(seq![x] + ns) == x.push(0) + handlers::zero_ended(ns),
    decreases ns.len(),
{
    let all = seq![x] + ns;
    if ns.len() == 0 {
        assert(all.drop_last() =~= Seq::<Seq<u8>>::empty());
        assert(handlers::zero_ended(all.drop_last()) =~= Seq::<u8>::empty());
        assert(handlers::zero_ended(all) =~= x.push(0) + handlers::zero_ended(ns));
    } else {
        assert(all.drop_last() =~= seq![x] + ns.drop_last());
        lemma_zero_ended_first(x, ns.drop_last());
        assert(handlers::zero_ended(all) =~= x.push(0) + handlers::zero_ended(ns));
    }
}

proof fn lemma_listing_from(front: Seq<u8>, ns: Seq<Seq<u8>>)
    requires
        listable(ns),
    ensures
        glob::listing_names(front + handlers::packed(ns), front.len() as int) == ns,
    decreases ns.len(),
{
    let buf = front + handlers::packed(ns);
    let i = front.len() as int;
    if ns.len() == 0 {
        assert(buf[i] == 0);
    } else {
        let x = ns[0];
        let rest = ns.skip(1);
        assert(x.len() > 0 && !x.contains(0));
        assert(ns =~= seq![x] + rest);
        lemma_zero_ended_first(x, rest);
        assert forall|k: int| 0 <= k < rest.len() implies (#[trigger] rest[k]).len() > 0
            && !rest[k].contains(0) by {
            assert(rest[k] == ns[k + 1]);
        }
        let j = i + x.len();
        assert(handlers::packed(ns) =~= x.push(0) + handlers::packed(rest));
        assert forall|k: int| i <= k < j implies buf[k] != 0 by {
            assert(buf[k] == x[k - i]);
            assert(x.contains(x[k - i]));
        }
        assert(buf[i] != 0);
        assert(buf[j] == 0);
        bytes::lemma_index_from_unique(buf, i, 0, j);
        assert(buf.subrange(i, j) =~= x);
        assert(buf =~= (front + x.push(0)) + handlers::packed(rest));
        lemma_listing_from(front + x.push(0), rest);
    }
}

/// A listing that the file server packs is taken apart into the same names, in
/// the same order.
pub proof fn law_packed_listing_reads_back(ns: Seq<Seq<u8>>)
    requires
        listable(ns),
    ensures
        glob::listing_names(handlers::packed(ns), 0) == ns,
{
    let none = Seq::<u8>::empty();
    assert(none + handlers::packed(ns) =~= handlers::packed(ns));
    lemma_listing_from(none, ns);
}

proof fn lemma_hits(pat: Seq<u8>, ns: Seq<Seq<u8>>)
    ensures
        forall|n: Seq<u8>| #[trigger]
            glob::hits(pat, ns).contains(n) == (ns.contains(n) && glob::name_matches(pat, n)),
    decreases ns.len(),
{
    if ns.len() > 0 {
        let d = ns.drop_last();
        let h = glob::hits(pat, d);
        let r = glob::hits(pat, ns);
        lemma_hits(pat, d);
        assert forall|n: Seq<u8>| #[trigger]
            r.contains(n) == (ns.contains(n) && glob::name_matches(pat, n)) by {
            if r.contains(n) {
                let i = choose|i: int| 0 <= i < r.len() && r[i] == n;
                if i < h.len() {
                    assert(h[i] == n);
                    assert(h.contains(n));
                    let k = choose|k: int| 0 <= k < d.len() && d[k] == n;
                    assert(ns[k] == n);
                } else {
                    assert(ns[ns.len() - 1] == n);
                }
            }
            if ns.contains(n) && glob::name_matches(pat, n) {
                let k = choose|k: int| 0 <= k < ns.len() && ns[k] == n;
                if k < d.len() {
                    assert(d[k] == n);
                    assert(h.contains(n));
                    let i = choose|i: int| 0 <= i < h.len() && h[i] == n;
                    assert(r[i] == n);
                } else {
                    assert(r[r.len() - 1] == n);
                }
            }
        }
    }
}

proof fn lemma_base_start(dir: Seq<u8>, base: Seq<u8>)
    requires
        !base.contains(47),
    ensures
        glob::base_start(dir + seq![47u8] + base) == dir.len() + 1,
        glob::base_start(base) == 0,
    decreases base.len(),
{
    let b = dir + seq![47u8] + base;
    if base.len() > 0 {
        let d = base.drop_last();
        assert(base.contains(base[base.len() - 1]));
        assert(!d.contains(47)) by {
            if d.contains(47) {
                let k = choose|k: int| 0 <= k < d.len() && d[k] == 47;
                assert(base[k] == 47);
            }
        }
        assert(b.drop_last() =~= dir + seq![47u8] + d);
        lemma_base_start(dir, d);
    }
}

/// Whether `*` and `?` may stand for a name: names that start with `.` only
/// where the pattern does.
pub open spec fn shown_to(pat: Seq<u8>, name: Seq<u8>) -> bool {
    name.len() == 0 || name[0] != 46 || (pat.len() > 0 && pat[0] == 46)
}

/// A pattern stands for the names of the listing that it matches, all of them
/// and in order, and for itself where it matches none. `found` are these names.
pub proof fn law_pattern_finds_what_it_matches(
    w: Seq<Ch>,
    base: Seq<u8>,
    ns: Seq<Seq<u8>>,
) -> (found: Seq<Seq<u8>>)
    requires
        glob::has_pattern(w),
        parser::plain_bytes(w) == base,
        !base.contains(47),
        listable(ns),
    ensures
        names::in_order(found),
        forall|n: Seq<u8>| #[trigger]
            found.contains(n) == (ns.contains(n) && shown_to(base, n) && glob::matches_pattern(
                base,
                n,
            )),
        glob::globbed(w, Some(handlers::packed(ns))) == if found.len() == 0 {
            seq![bytes::text_of(base)]
        } else {
            found.map_values(|n: Seq<u8>| bytes::text_of(n))
        },
{
    lemma_base_start(Seq::empty(), base);
    law_packed_listing_reads_back(ns);
    assert(base.skip(0) =~= base);
    let found = lemma_found(base, ns);
    if found.len() > 0 {
        assert(glob::globbed(w, Some(handlers::packed(ns))) =~= found.map_values(
            |n: Seq<u8>| bytes::text_of(n),
        ));
    }
    found
}

proof fn lemma_found(base: Seq<u8>, ns: Seq<Seq<u8>>) -> (found: Seq<Seq<u8>>)
    ensures
        found == names::sorted(glob::hits(base, ns)),
        names::in_order(found),
        forall|n: Seq<u8>| #[trigger]
            found.contains(n) == (ns.contains(n) && glob::name_matches(base, n)),
{
    let h = glob::hits(base, ns);
    let found = names::sorted(h);
    names::law_sorted_in_order(h);
    lemma_hits(base, ns);
    assert forall|n: Seq<u8>| #[trigger]
        found.contains(n) == (ns.contains(n) && glob::name_matches(base, n)) by {
        broadcast use vstd::seq_lib::group_to_multiset_ensures;

        assert(found.contains(n) == (found.to_multiset().count(n) > 0));
        assert(h.contains(n) == (h.to_multiset().count(n) > 0));
    }
    found
}

/// With a directory in front of it, the pattern finds the same names of that
/// directory's listing, each with the directory in front.
pub proof fn law_pattern_finds_in_a_directory(
    w: Seq<Ch>,
    dir: Seq<u8>,
    base: Seq<u8>,
    ns: Seq<Seq<u8>>,
) -> (found: Seq<Seq<u8>>)
    requires
        glob::has_pattern(w),
        parser::plain_bytes(w) == dir + seq![47u8] + base,
        !base.contains(47),
        dir.len() > 0,
        bytes::text_of(dir) == dir,
        listable(ns),
    ensures
        names::in_order(found),
        forall|n: Seq<u8>| #[trigger]
            found.contains(n) == (ns.contains(n) && shown_to(base, n) && glob::matches_pattern(
                base,
                n,
            )),
        glob::globbed(w, Some(handlers::packed(ns))) == if found.len() == 0 {
            seq![bytes::text_of(dir + seq![47u8] + base)]
        } else {
            found.map_values(|n: Seq<u8>| dir + seq![47u8] + bytes::text_of(n))
        },
        forall|at: Seq<u8>| #[trigger]
            glob::pattern_dir(w, at) == Some(cwd::resolved(at, dir)),
{
    let b = dir + seq![47u8] + base;
    lemma_base_start(dir, base);
    law_packed_listing_reads_back(ns);
    assert(b.skip(dir.len() as int + 1) =~= base);
    assert(b.take(dir.len() as int) =~= dir);
    let found = lemma_found(base, ns);
    if found.len() > 0 {
        assert(glob::globbed(w, Some(handlers::packed(ns))) =~= found.map_values(
            |n: Seq<u8>| dir + seq![47u8] + bytes::text_of(n),
        ));
    }
    found
}

} // verus!
