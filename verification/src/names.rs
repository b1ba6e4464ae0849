//! Lists of names: order, membership and union.
use vstd::prelude::*;

use crate::bytes;
use crate::bytes::{bytes_eq, bytes_lt, copy_of};

verus! {

/// `x` taken into an ordered list, behind the names that do not come after it.
pub open spec fn inserted(s: Seq<Seq<u8>>, x: Seq<u8>) -> Seq<Seq<u8>>
    decreases s.len(),
{
    if s.len() == 0 {
        seq![x]
    } else if bytes::bytes_before(x, s.last()) {
        inserted(s.drop_last(), x).push(s.last())
    } else {
        s.push(x)
    }
}

/// The names in byte order.
pub open spec fn sorted(s: Seq<Seq<u8>>) -> Seq<Seq<u8>>
    decreases s.len(),
{
    if s.len() == 0 {
        Seq::empty()
    } else {
        inserted(sorted(s.drop_last()), s.last())
    }
}

pub fn insert_sorted(v: &mut Vec<Vec<u8>>, x: Vec<u8>)
    ensures
        bytes::views(final(v)@) == inserted(bytes::views(old(v)@), x@),
{
    let ghost s = bytes::views(old(v)@);
    let mut i: usize = v.len();
    assert(s.take(i as int) =~= s);
    assert(inserted(s, x@) + s.skip(i as int) =~= inserted(s, x@));
    while i > 0 && bytes_lt(&x, &v[i - 1])
        invariant
            i <= v.len(),
            v@ == old(v)@,
            s == bytes::views(old(v)@),
            inserted(s, x@) == inserted(s.take(i as int), x@) + s.skip(i as int),
        decreases i,
    {
        proof {
            let t = s.take(i as int);
            assert(t.last() == v@[i - 1]@);
            assert(t.drop_last() =~= s.take(i - 1));
            assert(inserted(t, x@) + s.skip(i as int) =~= inserted(s.take(i - 1), x@) + s.skip(
                i - 1,
            ));
        }
        i -= 1;
    }
    proof {
        if i > 0 {
            assert(s.take(i as int).last() == v@[i - 1]@);
        }
        assert(inserted(s.take(i as int), x@) =~= s.take(i as int).push(x@));
    }
    let ghost xv = x@;
    v.insert(i, x);
    assert(bytes::views(v@) =~= s.take(i as int).push(xv) + s.skip(i as int));
}

pub proof fn lemma_before_total(a: Seq<u8>, b: Seq<u8>)
    ensures
        a == b || bytes::bytes_before(a, b) || bytes::bytes_before(b, a),
        !(bytes::bytes_before(a, b) && bytes::bytes_before(b, a)),
    decreases a.len(),
{
    if a.len() == 0 && b.len() == 0 {
        assert(a =~= b);
    } else if a.len() > 0 && b.len() > 0 && a[0] == b[0] {
        lemma_before_total(a.skip(1), b.skip(1));
        if a.skip(1) == b.skip(1) {
            assert(a =~= seq![a[0]] + a.skip(1));
            assert(b =~= seq![b[0]] + b.skip(1));
        }
    }
}

pub proof fn lemma_before_transitive(a: Seq<u8>, b: Seq<u8>, c: Seq<u8>)
    requires
        bytes::bytes_before(a, b),
        bytes::bytes_before(b, c),
    ensures
        bytes::bytes_before(a, c),
    decreases a.len(),
{
    if a.len() > 0 && b.len() > 0 && c.len() > 0 && a[0] == b[0] && b[0] == c[0] {
        lemma_before_transitive(a.skip(1), b.skip(1), c.skip(1));
    }
}

/// No name comes before an earlier one.
pub open spec fn in_order(s: Seq<Seq<u8>>) -> bool {
    forall|i: int, j: int|
        0 <= i < j < s.len() ==> !bytes::bytes_before(#[trigger] s[j], #[trigger] s[i])
}

pub proof fn lemma_inserted(s: Seq<Seq<u8>>, x: Seq<u8>)
    requires
        in_order(s),
    ensures
        in_order(inserted(s, x)),
        inserted(s, x).to_multiset() == s.to_multiset().insert(x),
    decreases s.len(),
{
    broadcast use vstd::seq_lib::group_to_multiset_ensures;

    let r = inserted(s, x);
    if s.len() == 0 {
        assert(r =~= Seq::empty().push(x));
        assert(s =~= Seq::empty());
    } else if bytes::bytes_before(x, s.last()) {
        let d = s.drop_last();
        assert(in_order(d)) by {
            assert forall|i: int, j: int| 0 <= i < j < d.len() implies !bytes::bytes_before(
                #[trigger] d[j],
                #[trigger] d[i],
            ) by {
                assert(d[i] == s[i] && d[j] == s[j]);
            }
        }
        lemma_inserted(d, x);
        let m = inserted(d, x);
        assert(s =~= d.push(s.last()));
        assert forall|i: int, j: int| 0 <= i < j < r.len() implies !bytes::bytes_before(
            #[trigger] r[j],
            #[trigger] r[i],
        ) by {
            if j == r.len() - 1 {
                assert(m[i] == r[i]);
                assert(m.to_multiset().contains(m[i]));
                if m[i] == x {
                    lemma_before_total(x, s.last());
                } else {
                    assert(d.to_multiset().contains(m[i]));
                    assert(d.contains(m[i]));
                    let k = choose|k: int| 0 <= k < d.len() && d[k] == m[i];
                    assert(s[k] == m[i]);
                    assert(!bytes::bytes_before(s[s.len() - 1], s[k]));
                }
            } else {
                assert(r[i] == m[i] && r[j] == m[j]);
            }
        }
        assert(r.to_multiset() =~= s.to_multiset().insert(x));
    } else {
        assert forall|i: int, j: int| 0 <= i < j < r.len() implies !bytes::bytes_before(
            #[trigger] r[j],
            #[trigger] r[i],
        ) by {
            if j == r.len() - 1 {
                assert(r[i] == s[i]);
                if i < s.len() - 1 {
                    assert(!bytes::bytes_before(s[s.len() - 1], s[i]));
                    if bytes::bytes_before(x, s[i]) {
                        lemma_before_total(s[i], s.last());
                        lemma_before_total(x, s.last());
                        if s[i] == s.last() {
                        } else {
                            lemma_before_transitive(x, s[i], s.last());
                        }
                    }
                }
            } else {
                assert(r[i] == s[i] && r[j] == s[j]);
            }
        }
    }
}

/// Sorting gives the same names, in byte order.
pub proof fn law_sorted_in_order(s: Seq<Seq<u8>>)
    ensures
        in_order(sorted(s)),
        sorted(s).to_multiset() == s.to_multiset(),
    decreases s.len(),
{
    broadcast use vstd::seq_lib::group_to_multiset_ensures;

    if s.len() > 0 {
        law_sorted_in_order(s.drop_last());
        lemma_inserted(sorted(s.drop_last()), s.last());
        assert(s =~= s.drop_last().push(s.last()));
        assert(sorted(s).to_multiset() =~= s.to_multiset());
    } else {
        assert(s =~= Seq::empty());
    }
}

/// Taking a name into an ordered list adds that name and nothing else.
pub proof fn lemma_inserted_set(s: Seq<Seq<u8>>, x: Seq<u8>)
    ensures
        forall|n: Seq<u8>| #[trigger] inserted(s, x).contains(n) == (s.contains(n) || n == x),
        s.no_duplicates() && !s.contains(x) ==> inserted(s, x).no_duplicates(),
    decreases s.len(),
{
    let r = inserted(s, x);
    if s.len() == 0 {
        assert(r[0] == x);
        assert forall|n: Seq<u8>| #[trigger] r.contains(n) == (s.contains(n) || n == x) by {}
    } else if bytes::bytes_before(x, s.last()) {
        let d = s.drop_last();
        let m = inserted(d, x);
        lemma_inserted_set(d, x);
        assert forall|n: Seq<u8>| #[trigger] r.contains(n) == (s.contains(n) || n == x) by {
            if r.contains(n) {
                let i = choose|i: int| 0 <= i < r.len() && r[i] == n;
                if i < m.len() {
                    assert(m[i] == n);
                    assert(m.contains(n));
                    if d.contains(n) {
                        let j = choose|j: int| 0 <= j < d.len() && d[j] == n;
                        assert(s[j] == n);
                    }
                } else {
                    assert(s[s.len() - 1] == n);
                }
            }
            if s.contains(n) {
                let i = choose|i: int| 0 <= i < s.len() && s[i] == n;
                if i < d.len() {
                    assert(d[i] == n);
                    assert(d.contains(n));
                    assert(m.contains(n));
                    let j = choose|j: int| 0 <= j < m.len() && m[j] == n;
                    assert(r[j] == n);
                } else {
                    assert(r[m.len() as int] == n);
                }
            }
            if n == x {
                assert(m.contains(x));
                let j = choose|j: int| 0 <= j < m.len() && m[j] == x;
                assert(r[j] == x);
            }
        }
        if s.no_duplicates() && !s.contains(x) {
            assert(d.no_duplicates());
            assert(!d.contains(x)) by {
                if d.contains(x) {
                    let j = choose|j: int| 0 <= j < d.len() && d[j] == x;
                    assert(s[j] == x);
                }
            }
            assert(!m.contains(s.last())) by {
                if d.contains(s.last()) {
                    let j = choose|j: int| 0 <= j < d.len() && d[j] == s.last();
                    assert(s[j] == s[s.len() - 1]);
                }
                assert(s[s.len() - 1] == s.last());
                assert(s.contains(s.last()));
            }
            assert forall|i: int, j: int| 0 <= i < r.len() && 0 <= j < r.len() && i != j implies r[i]
                != r[j] by {
                if i < m.len() && j < m.len() {
                    assert(m[i] != m[j]);
                } else if i < m.len() {
                    assert(m.contains(m[i]));
                } else if j < m.len() {
                    assert(m.contains(m[j]));
                }
            }
        }
    } else {
        assert forall|n: Seq<u8>| #[trigger] r.contains(n) == (s.contains(n) || n == x) by {
            if s.contains(n) {
                let i = choose|i: int| 0 <= i < s.len() && s[i] == n;
                assert(r[i] == n);
            }
            if n == x {
                assert(r[s.len() as int] == x);
            }
            if r.contains(n) {
                let i = choose|i: int| 0 <= i < r.len() && r[i] == n;
                if i < s.len() {
                    assert(s[i] == n);
                }
            }
        }
        if s.no_duplicates() && !s.contains(x) {
            assert forall|i: int, j: int| 0 <= i < r.len() && 0 <= j < r.len() && i != j implies r[i]
                != r[j] by {
                if i < s.len() && j < s.len() {
                    assert(s[i] != s[j]);
                } else if i < s.len() {
                    assert(s.contains(s[i]));
                } else if j < s.len() {
                    assert(s.contains(s[j]));
                }
            }
        }
    }
}

pub fn contains_name(v: &Vec<Vec<u8>>, x: &[u8]) -> (r: bool)
    ensures
        r == bytes::views(v@).contains(x@),
{
    let mut i: usize = 0;
    while i < v.len()
        invariant
            i <= v@.len(),
            forall|k: int| 0 <= k < i ==> #[trigger] bytes::views(v@)[k] != x@,
        decreases v@.len() - i,
    {
        assert(bytes::views(v@)[i as int] == v@[i as int]@);
        if bytes_eq(&v[i], x) {
            return true;
        }
        i += 1;
    }
    false
}

/// The names in byte order.
pub fn sort_names(v: &Vec<Vec<u8>>) -> (r: Vec<Vec<u8>>)
    ensures
        bytes::views(r@) == sorted(bytes::views(v@)),
{
    let ghost s = bytes::views(v@);
    let mut out: Vec<Vec<u8>> = Vec::new();
    assert(s.take(0) =~= Seq::empty());
    assert(bytes::views(out@) =~= Seq::empty());
    let mut i: usize = 0;
    while i < v.len()
        invariant
            i <= v@.len(),
            s == bytes::views(v@),
            bytes::views(out@) == sorted(s.take(i as int)),
        decreases v@.len() - i,
    {
        assert(s.take(i + 1).drop_last() =~= s.take(i as int));
        assert(s.take(i + 1).last() == v@[i as int]@);
        insert_sorted(&mut out, copy_of(&v[i]));
        i += 1;
    }
    assert(s.take(i as int) =~= s);
    out
}

/// A list, and behind it the names of another that it does not hold yet.
pub open spec fn joined(a: Seq<Seq<u8>>, b: Seq<Seq<u8>>) -> Seq<Seq<u8>>
    decreases b.len(),
{
    if b.len() == 0 {
        a
    } else {
        let j = joined(a, b.drop_last());
        if j.contains(b.last()) {
            j
        } else {
            j.push(b.last())
        }
    }
}

/// Adds the names that a list does not hold yet.
pub fn join_names(v: &mut Vec<Vec<u8>>, more: &Vec<Vec<u8>>)
    ensures
        bytes::views(final(v)@) == joined(bytes::views(old(v)@), bytes::views(more@)),
{
    let ghost a = bytes::views(v@);
    let ghost b = bytes::views(more@);
    let mut i: usize = 0;
    assert(b.take(0) =~= Seq::empty());
    while i < more.len()
        invariant
            i <= more@.len(),
            b == bytes::views(more@),
            bytes::views(v@) == joined(a, b.take(i as int)),
        decreases more@.len() - i,
    {
        assert(b.take(i + 1).drop_last() =~= b.take(i as int));
        assert(b.take(i + 1).last() == more@[i as int]@);
        if !contains_name(v, &more[i]) {
            let n: Vec<u8> = copy_of(&more[i]);
            proof {
                bytes::lemma_views_push(v@, n);
            }
            v.push(n);
        }
        i += 1;
    }
    assert(b.take(i as int) =~= b);
}

/// Joining lists loses no name and adds none, and names nothing twice.
pub proof fn law_joined_holds_both(a: Seq<Seq<u8>>, b: Seq<Seq<u8>>)
    ensures
        forall|n: Seq<u8>| #[trigger] joined(a, b).contains(n) == (a.contains(n) || b.contains(n)),
        a.no_duplicates() ==> joined(a, b).no_duplicates(),
    decreases b.len(),
{
    if b.len() > 0 {
        law_joined_holds_both(a, b.drop_last());
        let j = joined(a, b.drop_last());
        let r = joined(a, b);
        assert forall|n: Seq<u8>| #[trigger] r.contains(n) == (a.contains(n) || b.contains(n)) by {
            assert(b =~= b.drop_last().push(b.last()));
            if r.contains(n) {
                let i = choose|i: int| 0 <= i < r.len() && r[i] == n;
                if i < j.len() {
                    assert(j[i] == n);
                    assert(j.contains(n));
                    if !a.contains(n) {
                        let k = choose|k: int| 0 <= k < b.drop_last().len() && b.drop_last()[k] == n;
                        assert(b[k] == n);
                    }
                } else {
                    assert(b[b.len() - 1] == n);
                }
            }
            if a.contains(n) || b.contains(n) {
                if n == b.last() {
                    if !j.contains(n) {
                        assert(r[r.len() - 1] == n);
                    }
                } else {
                    if b.contains(n) {
                        let k = choose|k: int| 0 <= k < b.len() && b[k] == n;
                        assert(b.drop_last()[k] == n);
                    }
                    assert(j.contains(n));
                    let i = choose|i: int| 0 <= i < j.len() && j[i] == n;
                    assert(r[i] == n);
                }
            }
        }
    }
}

} // verus!
