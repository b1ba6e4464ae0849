//! File name patterns: `*` and `?`, matched byte by byte within one directory.
use vstd::prelude::*;
use vstd::slice::slice_subrange;

use super::cwd;
use super::cwd::Cwd;
use super::parser;
use super::parser::{word_string, Ch, Quote};
use crate::bytes;
use crate::bytes::{append_bytes, copy_of, find_byte, text_or_empty};
use crate::names;
use crate::names::insert_sorted;

verus! {

/// `*` matches any sequence, `?` any one byte, every other byte itself.
pub open spec fn matches_pattern(pat: Seq<u8>, name: Seq<u8>) -> bool
    decreases pat.len() + name.len(),
{
    if pat.len() == 0 {
        name.len() == 0
    } else if pat[0] == 42 {
        matches_pattern(pat.skip(1), name) || (name.len() > 0 && matches_pattern(
            pat,
            name.skip(1),
        ))
    } else {
        name.len() > 0 && (pat[0] == 63 || pat[0] == name[0]) && matches_pattern(
            pat.skip(1),
            name.skip(1),
        )
    }
}

/// Two `*` in a row match what one of them matches.
proof fn lemma_double_star(pat: Seq<u8>, name: Seq<u8>)
    requires
        pat.len() >= 2,
        pat[0] == 42,
        pat[1] == 42,
    ensures
        matches_pattern(pat, name) == matches_pattern(pat.skip(1), name),
    decreases name.len(),
{
    assert(pat.skip(1)[0] == 42);
    if name.len() > 0 {
        lemma_double_star(pat, name.skip(1));
    }
}

/// A `*` alone matches every name.
proof fn lemma_star_matches_all(pat: Seq<u8>, name: Seq<u8>)
    requires
        pat.len() == 1,
        pat[0] == 42,
    ensures
        matches_pattern(pat, name),
    decreases name.len(),
{
    if name.len() > 0 {
        lemma_star_matches_all(pat, name.skip(1));
    } else {
        assert(matches_pattern(pat.skip(1), name));
    }
}

/// A `*` in front of a pattern matches a name where the rest of the pattern
/// matches what is left behind some prefix of the name.
pub proof fn law_star_matches_any_prefix(pat: Seq<u8>, name: Seq<u8>)
    requires
        pat.len() > 0,
        pat[0] == 42,
    ensures
        matches_pattern(pat, name) == exists|n: int|
            0 <= n <= name.len() && matches_pattern(pat.skip(1), #[trigger] name.skip(n)),
    decreases name.len(),
{
    assert(name.skip(0) =~= name);
    if name.len() > 0 {
        law_star_matches_any_prefix(pat, name.skip(1));
        if matches_pattern(pat, name.skip(1)) {
            let n = choose|n: int|
                0 <= n <= name.skip(1).len() && matches_pattern(
                    pat.skip(1),
                    #[trigger] name.skip(1).skip(n),
                );
            assert(name.skip(1).skip(n) =~= name.skip(n + 1));
        }
        if exists|n: int|
            0 <= n <= name.len() && matches_pattern(pat.skip(1), #[trigger] name.skip(n)) {
            let n = choose|n: int|
                0 <= n <= name.len() && matches_pattern(pat.skip(1), #[trigger] name.skip(n));
            if n > 0 {
                assert(name.skip(1).skip(n - 1) =~= name.skip(n));
                assert(matches_pattern(pat.skip(1), name.skip(1).skip(n - 1)));
            }
        }
    } else if exists|n: int|
        0 <= n <= name.len() && matches_pattern(pat.skip(1), #[trigger] name.skip(n)) {
        let n = choose|n: int|
            0 <= n <= name.len() && matches_pattern(pat.skip(1), #[trigger] name.skip(n));
        assert(name.skip(n) =~= name);
    }
}

/// Whether a pattern matches a name.
pub fn pat_match(pat: &[u8], name: &[u8]) -> (r: bool)
    ensures
        r == matches_pattern(pat@, name@),
    decreases pat.len(),
{
    if pat.len() == 0 {
        return name.len() == 0;
    }
    if pat[0] == 42 {
        let mut pi: usize = 1;
        assert(pat@.skip(0) =~= pat@);
        while pi < pat.len() && pat[pi] == 42
            invariant
                1 <= pi <= pat.len(),
                pat@[pi - 1] == 42,
                matches_pattern(pat@, name@) == matches_pattern(pat@.skip(pi - 1), name@),
            decreases pat.len() - pi,
        {
            proof {
                lemma_double_star(pat@.skip(pi - 1), name@);
                assert(pat@.skip(pi - 1).skip(1) =~= pat@.skip(pi as int));
            }
            pi += 1;
        }
        let ghost star = pat@.skip(pi - 1);
        if pi == pat.len() {
            proof {
                lemma_star_matches_all(star, name@);
            }
            return true;
        }
        let rest: &[u8] = slice_subrange(pat, pi, pat.len());
        assert(rest@ =~= star.skip(1));
        let mut ni: usize = 0;
        assert(name@.skip(0) =~= name@);
        while ni < name.len()
            invariant
                ni <= name.len(),
                1 <= pi < pat.len(),
                rest@ == star.skip(1),
                rest@.len() < pat.len(),
                star.len() > 0,
                star[0] == 42,
                matches_pattern(pat@, name@) == matches_pattern(star, name@.skip(ni as int)),
            decreases name.len() - ni,
        {
            let tail: &[u8] = slice_subrange(name, ni, name.len());
            assert(tail@ =~= name@.skip(ni as int));
            if pat_match(rest, tail) {
                return true;
            }
            assert(tail@.skip(1) =~= name@.skip(ni + 1));
            ni += 1;
        }
        let tail: &[u8] = slice_subrange(name, ni, name.len());
        assert(tail@ =~= name@.skip(ni as int));
        return pat_match(rest, tail);
    }
    if name.len() == 0 {
        return false;
    }
    if pat[0] == 63 || pat[0] == name[0] {
        let p1: &[u8] = slice_subrange(pat, 1, pat.len());
        let n1: &[u8] = slice_subrange(name, 1, name.len());
        assert(p1@ =~= pat@.skip(1));
        assert(n1@ =~= name@.skip(1));
        return pat_match(p1, n1);
    }
    false
}

/// A pattern without `*` and `?` matches its own text and nothing else.
pub proof fn law_plain_pattern_matches_itself(pat: Seq<u8>, name: Seq<u8>)
    requires
        forall|i: int| 0 <= i < pat.len() ==> #[trigger] pat[i] != 42 && pat[i] != 63,
    ensures
        matches_pattern(pat, name) == (pat == name),
    decreases pat.len(),
{
    if pat.len() > 0 {
        assert forall|i: int| 0 <= i < pat.skip(1).len() implies #[trigger] pat.skip(1)[i] != 42
            && pat.skip(1)[i] != 63 by {
            assert(pat.skip(1)[i] == pat[i + 1]);
        }
        assert(pat[0] != 42);
        if name.len() > 0 {
            law_plain_pattern_matches_itself(pat.skip(1), name.skip(1));
            if matches_pattern(pat, name) {
                assert(pat =~= seq![pat[0]] + pat.skip(1));
                assert(name =~= seq![name[0]] + name.skip(1));
            }
        }
    } else if name.len() == 0 {
        assert(pat =~= name);
    }
}

// ── Directory listings ──

/// The names of a listing `name\0name\0...`, which an empty name ends.
pub open spec fn listing_names(buf: Seq<u8>, i: int) -> Seq<Seq<u8>>
    decreases buf.len() - i,
    when 0 <= i
{
    if i >= buf.len() || buf[i] == 0 {
        Seq::empty()
    } else {
        let j = bytes::index_from(buf, i, 0);
        proof {
            bytes::lemma_index_from(buf, i, 0);
        }
        if j >= buf.len() {
            seq![buf.subrange(i, j)]
        } else {
            seq![buf.subrange(i, j)] + listing_names(buf, j + 1)
        }
    }
}

/// The names that a listing holds.
pub fn split_listing(buf: &[u8]) -> (r: Vec<Vec<u8>>)
    ensures
        bytes::views(r@) == listing_names(buf@, 0),
{
    let mut out: Vec<Vec<u8>> = Vec::new();
    let mut i: usize = 0;
    assert(bytes::views(out@) + listing_names(buf@, 0) =~= listing_names(buf@, 0));
    while i < buf.len() && buf[i] != 0
        invariant
            i <= buf.len(),
            listing_names(buf@, 0) == bytes::views(out@) + listing_names(buf@, i as int),
        decreases buf.len() - i,
    {
        let ghost o0 = bytes::views(out@);
        let ghost i0 = i as int;
        let j: usize = find_byte(buf, i, 0);
        proof {
            bytes::lemma_index_from(buf@, i as int, 0);
        }
        let name: Vec<u8> = copy_of(slice_subrange(buf, i, j));
        proof {
            bytes::lemma_views_push(out@, name);
        }
        out.push(name);
        i = if j < buf.len() {
            j + 1
        } else {
            j
        };
        proof {
            assert(o0 + listing_names(buf@, i0) =~= bytes::views(out@) + listing_names(
                buf@,
                i as int,
            ));
        }
    }
    assert(bytes::views(out@) + listing_names(buf@, i as int) =~= bytes::views(out@));
    out
}

// ── Words ──

/// A word asks for matching where an unquoted `*` or `?` stands in it.
pub open spec fn has_pattern(w: Seq<Ch>) -> bool {
    exists|i: int|
        0 <= i < w.len() && ((#[trigger] w[i]).q == Quote::Plain || w[i].q == Quote::Exp) && (
        w[i].b == 42 || w[i].b == 63)
}

pub fn is_pattern(w: &[Ch]) -> (r: bool)
    ensures
        r == has_pattern(w@),
{
    let mut i: usize = 0;
    while i < w.len()
        invariant
            i <= w.len(),
            forall|k: int|
                0 <= k < i ==> !(((#[trigger] w@[k]).q == Quote::Plain || w@[k].q == Quote::Exp) && (
                w@[k].b == 42 || w@[k].b == 63)),
        decreases w.len() - i,
    {
        let c: Ch = w[i];
        if (c.q == Quote::Plain || c.q == Quote::Exp) && (c.b == 42 || c.b == 63) {
            assert(w@[i as int] == c);
            return true;
        }
        i += 1;
    }
    false
}

/// One past the last `/`, or 0.
pub open spec fn base_start(b: Seq<u8>) -> int
    decreases b.len(),
{
    if b.len() == 0 {
        0
    } else if b.last() == 47 {
        b.len() as int
    } else {
        base_start(b.drop_last())
    }
}

/// The directory part as typed, without the `/` behind it; empty if there is
/// none.
pub open spec fn dir_part(b: Seq<u8>) -> Seq<u8> {
    if base_start(b) == 0 {
        Seq::empty()
    } else {
        bytes::text_of(b.take(base_start(b) - 1))
    }
}

/// The last component.
pub open spec fn base_part(b: Seq<u8>) -> Seq<u8> {
    b.skip(base_start(b))
}

pub fn find_base(b: &[u8]) -> (r: usize)
    ensures
        r == base_start(b@),
        r <= b.len(),
        r > 0 ==> b@[r - 1] == 47,
{
    let mut i: usize = b.len();
    assert(b@.take(i as int) =~= b@);
    while i > 0 && b[i - 1] != 47
        invariant
            i <= b.len(),
            base_start(b@) == base_start(b@.take(i as int)),
        decreases i,
    {
        assert(b@.take(i as int).drop_last() =~= b@.take(i - 1));
        i -= 1;
    }
    i
}

/// The directory whose listing a word asks for; `None` if the word is no
/// pattern.
pub open spec fn pattern_dir(w: Seq<Ch>, at: Seq<u8>) -> Option<Seq<u8>> {
    if !has_pattern(w) {
        None
    } else if dir_part(parser::plain_bytes(w)).len() == 0 {
        Some(at)
    } else {
        Some(cwd::resolved(at, dir_part(parser::plain_bytes(w))))
    }
}

/// The directory whose listing a word asks for.
pub fn glob_dir(w: &[Ch], at: &Cwd) -> (r: Option<Vec<u8>>)
    ensures
        match r {
            Some(d) => pattern_dir(w@, at@) == Some(d@),
            None => pattern_dir(w@, at@) is None,
        },
{
    if !is_pattern(w) {
        return None;
    }
    let b: Vec<u8> = word_bytes(w);
    let dir: Vec<u8> = typed_dir(&b);
    if dir.len() == 0 {
        Some(at.cwd_get())
    } else {
        Some(at.resolve(&dir))
    }
}

fn word_bytes(w: &[Ch]) -> (r: Vec<u8>)
    ensures
        r@ == parser::plain_bytes(w@),
{
    let mut r: Vec<u8> = Vec::new();
    let mut i: usize = 0;
    while i < w.len()
        invariant
            i <= w.len(),
            r@ == parser::plain_bytes(w@).take(i as int),
        decreases w.len() - i,
    {
        r.push(w[i].b);
        i += 1;
        assert(r@ =~= parser::plain_bytes(w@).take(i as int));
    }
    assert(r@ =~= parser::plain_bytes(w@));
    r
}

fn typed_dir(b: &[u8]) -> (r: Vec<u8>)
    ensures
        r@ == dir_part(b@),
{
    let p: usize = find_base(b);
    if p == 0 {
        let r: Vec<u8> = Vec::new();
        assert(r@ =~= Seq::empty());
        r
    } else {
        assert(b@.subrange(0, p - 1) =~= b@.take(p - 1));
        text_or_empty(copy_of(slice_subrange(b, 0, p - 1)))
    }
}

/// Names that start with `.` match only patterns that do.
pub open spec fn name_matches(pat: Seq<u8>, name: Seq<u8>) -> bool {
    (name.len() > 0 && name[0] == 46 ==> pat.len() > 0 && pat[0] == 46) && matches_pattern(
        pat,
        name,
    )
}

/// The names that match, in the order of the listing.
pub open spec fn hits(pat: Seq<u8>, names: Seq<Seq<u8>>) -> Seq<Seq<u8>>
    decreases names.len(),
{
    if names.len() == 0 {
        Seq::empty()
    } else if name_matches(pat, names.last()) {
        hits(pat, names.drop_last()).push(names.last())
    } else {
        hits(pat, names.drop_last())
    }
}

/// A matching name behind the directory part of the word.
pub open spec fn full_name(dir: Seq<u8>, name: Seq<u8>) -> Seq<u8> {
    if dir.len() == 0 {
        bytes::text_of(name)
    } else {
        dir + seq![47u8] + bytes::text_of(name)
    }
}

/// The arguments that a word stands for, given the listing of its directory
/// (`None` if it could not be read): the matching names in byte order, or the
/// word itself where nothing matches.
pub open spec fn globbed(w: Seq<Ch>, listing: Option<Seq<u8>>) -> Seq<Seq<u8>> {
    let b = parser::plain_bytes(w);
    let literal = seq![bytes::text_of(b)];
    if !has_pattern(w) || listing is None {
        literal
    } else {
        let found = names::sorted(hits(base_part(b), listing_names(listing->0, 0)));
        if found.len() == 0 {
            literal
        } else {
            Seq::new(found.len(), |i: int| full_name(dir_part(b), found[i]))
        }
    }
}

fn sorted_hits(pat: &[u8], names: &Vec<Vec<u8>>) -> (r: Vec<Vec<u8>>)
    ensures
        bytes::views(r@) == names::sorted(hits(pat@, bytes::views(names@))),
{
    let ghost ns = bytes::views(names@);
    let mut found: Vec<Vec<u8>> = Vec::new();
    let mut i: usize = 0;
    assert(ns.take(0) =~= Seq::empty());
    assert(bytes::views(found@) =~= Seq::empty());
    while i < names.len()
        invariant
            i <= names.len(),
            ns == bytes::views(names@),
            bytes::views(found@) == names::sorted(hits(pat@, ns.take(i as int))),
        decreases names.len() - i,
    {
        let name: &Vec<u8> = &names[i];
        let ghost h = hits(pat@, ns.take(i as int));
        proof {
            assert(ns.take(i + 1).drop_last() =~= ns.take(i as int));
            assert(ns.take(i + 1).last() == name@);
            assert(h.push(name@).drop_last() =~= h);
        }
        let dot: bool = name.len() > 0 && name[0] == 46;
        let dot_pat: bool = pat.len() > 0 && pat[0] == 46;
        if (!dot || dot_pat) && pat_match(pat, name) {
            insert_sorted(&mut found, copy_of(name));
        }
        i += 1;
    }
    assert(ns.take(i as int) =~= ns);
    found
}

fn full_names(dir: &[u8], found: &Vec<Vec<u8>>) -> (r: Vec<Vec<u8>>)
    ensures
        bytes::views(r@) == Seq::new(
            found@.len(),
            |i: int| full_name(dir@, bytes::views(found@)[i]),
        ),
{
    let mut out: Vec<Vec<u8>> = Vec::new();
    let mut i: usize = 0;
    while i < found.len()
        invariant
            i <= found.len(),
            out@.len() == i,
            forall|k: int| 0 <= k < i ==> (#[trigger] out@[k])@ == full_name(dir@, found@[k]@),
        decreases found.len() - i,
    {
        let name: Vec<u8> = text_or_empty(copy_of(&found[i]));
        if dir.len() == 0 {
            out.push(name);
        } else {
            let mut full: Vec<u8> = copy_of(dir);
            full.push(47);
            append_bytes(&mut full, &name);
            assert(full@ =~= dir@ + seq![47u8] + name@);
            out.push(full);
        }
        i += 1;
    }
    assert(bytes::views(out@) =~= Seq::new(
        found@.len(),
        |i: int| full_name(dir@, bytes::views(found@)[i]),
    ));
    out
}

/// The listing that was read, as a value.
pub open spec fn listing_view(l: Option<Vec<u8>>) -> Option<Seq<u8>> {
    match l {
        Some(b) => Some(b@),
        None => None,
    }
}

/// Expands a file name pattern against the listing of its directory.
pub fn glob_word(w: &[Ch], listing: &Option<Vec<u8>>) -> (r: Vec<Vec<u8>>)
    ensures
        bytes::views(r@) == globbed(w@, listing_view(*listing)),
        r@.len() >= 1,
{
    let ghost b = parser::plain_bytes(w@);
    if is_pattern(w) {
        if let Some(buf) = listing {
            let b: Vec<u8> = word_bytes(w);
            let p: usize = find_base(&b);
            let names: Vec<Vec<u8>> = split_listing(buf);
            let pat: &[u8] = slice_subrange(&b, p, b.len());
            assert(pat@ =~= base_part(b@));
            let found: Vec<Vec<u8>> = sorted_hits(pat, &names);
            assert(bytes::views(found@).len() == found@.len());
            if found.len() > 0 {
                let out: Vec<Vec<u8>> = full_names(&typed_dir(&b), &found);
                assert(bytes::views(out@).len() == out@.len());
                return out;
            }
        }
    }
    let mut one: Vec<Vec<u8>> = Vec::new();
    one.push(word_string(w));
    assert(bytes::views(one@) =~= seq![bytes::text_of(b)]);
    one
}

/// The argument list of a command: each word expanded against its listing.
pub open spec fn all_globbed(args: Seq<Seq<Ch>>, listings: Seq<Option<Vec<u8>>>) -> Seq<Seq<u8>>
    decreases args.len(),
{
    if args.len() == 0 {
        Seq::empty()
    } else {
        all_globbed(args.drop_last(), listings) + globbed(
            args.last(),
            listing_view(listings[args.len() - 1]),
        )
    }
}

/// The argument list of a command, given the listing read for each word.
pub fn glob_args(args: &Vec<Vec<Ch>>, listings: &Vec<Option<Vec<u8>>>) -> (r: Vec<Vec<u8>>)
    requires
        listings.len() == args.len(),
    ensures
        bytes::views(r@) == all_globbed(bytes::views(args@), listings@),
        r@.len() >= args@.len(),
{
    let ghost ws = bytes::views(args@);
    let mut out: Vec<Vec<u8>> = Vec::new();
    let mut i: usize = 0;
    assert(ws.take(0) =~= Seq::empty());
    assert(bytes::views(out@) =~= Seq::empty());
    while i < args.len()
        invariant
            i <= args.len(),
            listings.len() == args.len(),
            ws == bytes::views(args@),
            out@.len() >= i,
            bytes::views(out@) == all_globbed(ws.take(i as int), listings@),
        decreases args.len() - i,
    {
        proof {
            assert(ws.take(i + 1).drop_last() =~= ws.take(i as int));
            assert(ws.take(i + 1).last() == args@[i as int]@);
        }
        let ghost o0 = bytes::views(out@);
        let mut more: Vec<Vec<u8>> = glob_word(&args[i], &listings[i]);
        let ghost m0 = bytes::views(more@);
        out.append(&mut more);
        assert(bytes::views(out@) =~= o0 + m0);
        i += 1;
    }
    assert(ws.take(i as int) =~= ws);
    out
}

/// A quoted word is never matched against names: it is its own argument.
pub proof fn law_quoted_is_not_matched(w: Seq<Ch>, listing: Option<Seq<u8>>)
    requires
        parser::all_literal(w),
    ensures
        globbed(w, listing) == seq![bytes::text_of(parser::plain_bytes(w))],
{
    if has_pattern(w) {
        let i = choose|i: int|
            0 <= i < w.len() && ((#[trigger] w[i]).q == Quote::Plain || w[i].q == Quote::Exp) && (
            w[i].b == 42 || w[i].b == 63);
        assert(w[i].q == Quote::Single || w[i].q == Quote::Esc);
    }
}

} // verus!
