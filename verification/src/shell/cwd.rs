//! The current directory of the shell and the resolution of paths against it.
use vstd::prelude::*;
use vstd::slice::slice_subrange;

use crate::bytes;
use crate::bytes::{append_bytes, copy_of, find_byte};

verus! {

/// The parts of `s` between occurrences of `c`.
pub open spec fn split_on(s: Seq<u8>, c: u8) -> Seq<Seq<u8>>
    decreases s.len(),
{
    let j = bytes::index_from(s, 0, c);
    if j < 0 || j >= s.len() {
        seq![s]
    } else {
        seq![s.take(j)] + split_on(s.skip(j + 1), c)
    }
}

/// Splits `s` at the occurrences of `c`.
pub fn split_bytes(s: &[u8], c: u8) -> (r: Vec<Vec<u8>>)
    ensures
        bytes::views(r@) == split_on(s@, c),
{
    broadcast use bytes::lemma_views_push;

    let mut r: Vec<Vec<u8>> = Vec::new();
    let mut i: usize = 0;
    let mut done: bool = false;
    assert(s@.skip(0) =~= s@);
    assert(bytes::views(r@) + split_on(s@, c) =~= split_on(s@, c));
    while !done
        invariant
            i <= s.len(),
            !done ==> split_on(s@, c) == bytes::views(r@) + split_on(s@.skip(i as int), c),
            done ==> split_on(s@, c) == bytes::views(r@),
        decreases s.len() - i + (if done {
            0int
        } else {
            1int
        }),
    {
        let ghost r0 = bytes::views(r@);
        let ghost tail = s@.skip(i as int);
        let j: usize = find_byte(s, i, c);
        proof {
            bytes::lemma_index_from(s@, i as int, c);
            bytes::lemma_index_from_unique(tail, 0, c, j - i);
        }
        let part: Vec<u8> = copy_of(slice_subrange(s, i, j));
        assert(part@ =~= s@.subrange(i as int, j as int));
        r.push(part);
        if j < s.len() {
            assert(tail.take(j - i) =~= s@.subrange(i as int, j as int));
            assert(tail.skip(j - i + 1) =~= s@.skip(j + 1));
            assert(bytes::views(r@) + split_on(s@.skip(j + 1), c) =~= r0 + split_on(tail, c));
            i = j + 1;
        } else {
            assert(tail =~= s@.subrange(i as int, j as int));
            assert(bytes::views(r@) =~= r0 + split_on(tail, c));
            i = j;
            done = true;
        }
    }
    r
}

/// A component that stays in a normalized path.
pub open spec fn real_component(c: Seq<u8>) -> bool {
    c.len() > 0 && c != seq![46u8] && c != seq![46u8, 46u8]
}

/// The components that are left once empty ones and `.` are dropped and each
/// `..` has taken the one before it away, if there is one.
pub open spec fn normal_parts(comps: Seq<Seq<u8>>) -> Seq<Seq<u8>>
    decreases comps.len(),
{
    if comps.len() == 0 {
        Seq::empty()
    } else {
        let p = normal_parts(comps.drop_last());
        let c = comps.last();
        if c.len() == 0 || c == seq![46u8] {
            p
        } else if c == seq![46u8, 46u8] {
            if p.len() > 0 {
                p.drop_last()
            } else {
                p
            }
        } else {
            p.push(c)
        }
    }
}

/// Components, each with a `/` in front of it.
pub open spec fn slash_joined(parts: Seq<Seq<u8>>) -> Seq<u8>
    decreases parts.len(),
{
    if parts.len() == 0 {
        Seq::empty()
    } else {
        slash_joined(parts.drop_last()) + seq![47u8] + parts.last()
    }
}

/// A path made of components; without any it is the root.
pub open spec fn path_of(parts: Seq<Seq<u8>>) -> Seq<u8> {
    if parts.len() == 0 {
        seq![47u8]
    } else {
        slash_joined(parts)
    }
}

/// The absolute path without `//`, `.` and `..`; never above the root.
pub open spec fn normal_path(path: Seq<u8>) -> Seq<u8> {
    path_of(normal_parts(split_on(path, 47)))
}

fn path_from(path: &[u8], parts: &Vec<(usize, usize)>) -> (r: Vec<u8>)
    requires
        forall|k: int|
            0 <= k < parts.len() ==> (#[trigger] parts@[k]).0 <= parts@[k].1 <= path.len(),
    ensures
        r@ == path_of(ranges(path@, parts@)),
{
    if parts.len() == 0 {
        return vec![47u8];
    }
    let ghost rs = ranges(path@, parts@);
    let mut out: Vec<u8> = Vec::new();
    let mut i: usize = 0;
    assert(rs.take(0) =~= Seq::empty());
    while i < parts.len()
        invariant
            i <= parts.len(),
            rs == ranges(path@, parts@),
            forall|k: int|
                0 <= k < parts.len() ==> (#[trigger] parts@[k]).0 <= parts@[k].1 <= path.len(),
            out@ == slash_joined(rs.take(i as int)),
        decreases parts.len() - i,
    {
        assert(rs.take(i + 1).drop_last() =~= rs.take(i as int));
        let (a, b): (usize, usize) = parts[i];
        out.push(47);
        append_bytes(&mut out, slice_subrange(path, a, b));
        i += 1;
        assert(out@ =~= slash_joined(rs.take(i as int)));
    }
    assert(rs.take(i as int) =~= rs);
    out
}

spec fn ranges(path: Seq<u8>, parts: Seq<(usize, usize)>) -> Seq<Seq<u8>> {
    Seq::new(parts.len(), |i: int| path.subrange(parts[i].0 as int, parts[i].1 as int))
}

/// One more component taken into a list of components.
spec fn with_component(p: Seq<Seq<u8>>, c: Seq<u8>) -> Seq<Seq<u8>> {
    if c.len() == 0 || c == seq![46u8] {
        p
    } else if c == seq![46u8, 46u8] {
        if p.len() > 0 {
            p.drop_last()
        } else {
            p
        }
    } else {
        p.push(c)
    }
}

/// The components of the rest of a path taken in, one after the other.
spec fn with_rest(p: Seq<Seq<u8>>, comps: Seq<Seq<u8>>) -> Seq<Seq<u8>>
    decreases comps.len(),
{
    if comps.len() == 0 {
        p
    } else {
        with_component(with_rest(p, comps.drop_last()), comps.last())
    }
}

proof fn lemma_with_rest_first(p: Seq<Seq<u8>>, c: Seq<u8>, comps: Seq<Seq<u8>>)
    ensures
        with_rest(p, seq![c] + comps) == with_rest(with_component(p, c), comps),
    decreases comps.len(),
{
    let all = seq![c] + comps;
    if comps.len() == 0 {
        assert(all.drop_last() =~= Seq::empty());
        assert(all.last() == c);
        assert(with_rest(p, all.drop_last()) == p);
    } else {
        assert(all.drop_last() =~= seq![c] + comps.drop_last());
        assert(all.last() == comps.last());
        lemma_with_rest_first(p, c, comps.drop_last());
    }
}

proof fn lemma_with_rest_normal(comps: Seq<Seq<u8>>)
    ensures
        with_rest(Seq::empty(), comps) == normal_parts(comps),
    decreases comps.len(),
{
    if comps.len() > 0 {
        lemma_with_rest_normal(comps.drop_last());
    }
}

/// Normalizes a path: joins `//`, resolves `.` and `..`, never above `/`.
pub fn normalize(path: &[u8]) -> (r: Vec<u8>)
    ensures
        r@ == normal_path(path@),
{
    let mut parts: Vec<(usize, usize)> = Vec::new();
    let mut i: usize = 0;
    let mut done: bool = false;
    let ghost total = normal_parts(split_on(path@, 47));
    proof {
        lemma_with_rest_normal(split_on(path@, 47));
        assert(path@.skip(0) =~= path@);
        assert(ranges(path@, parts@) =~= Seq::empty());
    }
    while !done
        invariant
            i <= path.len(),
            forall|k: int|
                0 <= k < parts.len() ==> (#[trigger] parts@[k]).0 <= parts@[k].1 <= path.len(),
            !done ==> total == with_rest(
                ranges(path@, parts@),
                split_on(path@.skip(i as int), 47),
            ),
            done ==> total == ranges(path@, parts@),
        decreases path.len() - i + (if done {
            0int
        } else {
            1int
        }),
    {
        let ghost p0 = ranges(path@, parts@);
        let ghost tail = path@.skip(i as int);
        let j: usize = find_byte(path, i, 47);
        proof {
            bytes::lemma_index_from(path@, i as int, 47);
            bytes::lemma_index_from_unique(tail, 0, 47, j - i);
        }
        let ghost comp = path@.subrange(i as int, j as int);
        let n: usize = j - i;
        let dot: bool = n == 1 && path[i] == 46;
        let dotdot: bool = n == 2 && path[i] == 46 && path[i + 1] == 46;
        proof {
            assert(dot == (comp == seq![46u8])) by {
                if dot {
                    assert(comp =~= seq![46u8]);
                } else if comp == seq![46u8] {
                    assert(comp[0] == 46);
                }
            }
            assert(dotdot == (comp == seq![46u8, 46u8])) by {
                if dotdot {
                    assert(comp =~= seq![46u8, 46u8]);
                } else if comp == seq![46u8, 46u8] {
                    assert(comp.len() == 2 && comp[0] == 46 && comp[1] == 46);
                    assert(path@[i as int] == comp[0] && path@[i + 1] == comp[1]);
                }
            }
        }
        if n == 0 || dot {
        } else if dotdot {
            if parts.len() > 0 {
                parts.pop();
            }
        } else {
            parts.push((i, j));
        }
        assert(ranges(path@, parts@) =~= with_component(p0, comp));
        proof {
            let rest = if j < path.len() {
                split_on(path@.skip(j + 1), 47)
            } else {
                Seq::empty()
            };
            if j < path.len() {
                assert(tail.take(j - i) =~= comp);
                assert(tail.skip(j - i + 1) =~= path@.skip(j + 1));
            } else {
                assert(tail =~= comp);
            }
            assert(split_on(tail, 47) =~= seq![comp] + rest);
            lemma_with_rest_first(p0, comp, rest);
        }
        if j < path.len() {
            i = j + 1;
        } else {
            i = j;
            done = true;
        }
    }
    path_from(path, &parts)
}

/// The absolute path that a path typed by the user stands for.
pub open spec fn resolved(cwd: Seq<u8>, path: Seq<u8>) -> Seq<u8> {
    if path.len() > 0 && path[0] == 47 {
        normal_path(path)
    } else if cwd.len() > 0 && cwd.last() == 47 {
        normal_path(cwd + path)
    } else {
        normal_path(cwd + seq![47u8] + path)
    }
}

pub proof fn lemma_normal_parts_real(comps: Seq<Seq<u8>>)
    requires
        forall|i: int| 0 <= i < comps.len() ==> !(#[trigger] comps[i]).contains(47),
    ensures
        forall|i: int|
            0 <= i < normal_parts(comps).len() ==> real_component(
                #[trigger] normal_parts(comps)[i],
            ) && !normal_parts(comps)[i].contains(47),
    decreases comps.len(),
{
    if comps.len() > 0 {
        assert forall|i: int| 0 <= i < comps.drop_last().len() implies !(
        #[trigger] comps.drop_last()[i]).contains(47) by {
            assert(comps.drop_last()[i] == comps[i]);
        }
        lemma_normal_parts_real(comps.drop_last());
        assert(!comps[comps.len() - 1].contains(47));
        let p = normal_parts(comps.drop_last());
        let r = normal_parts(comps);
        assert forall|i: int| 0 <= i < r.len() implies real_component(#[trigger] r[i])
            && !r[i].contains(47) by {
            if i < p.len() {
                assert(r[i] == p[i]);
            }
        }
    }
}

pub proof fn lemma_split_no_separator(s: Seq<u8>, c: u8)
    ensures
        forall|i: int| 0 <= i < split_on(s, c).len() ==> !(#[trigger] split_on(s, c)[i]).contains(c),
        split_on(s, c).len() >= 1,
    decreases s.len(),
{
    let j = bytes::index_from(s, 0, c);
    bytes::lemma_index_from(s, 0, c);
    if j < s.len() {
        lemma_split_no_separator(s.skip(j + 1), c);
        assert forall|i: int| 0 <= i < split_on(s, c).len() implies !(#[trigger] split_on(
            s,
            c,
        )[i]).contains(c) by {
            if i > 0 {
                assert(split_on(s, c)[i] == split_on(s.skip(j + 1), c)[i - 1]);
            } else {
                assert(split_on(s, c)[0] == s.take(j));
            }
        }
    }
}

pub proof fn lemma_split_slash_joined(parts: Seq<Seq<u8>>)
    requires
        forall|i: int| 0 <= i < parts.len() ==> !(#[trigger] parts[i]).contains(47),
    ensures
        split_on(slash_joined(parts), 47) == seq![Seq::<u8>::empty()] + parts,
    decreases parts.len(),
{
    if parts.len() == 0 {
        assert(split_on(slash_joined(parts), 47) =~= seq![Seq::<u8>::empty()] + parts);
    } else {
        let a = slash_joined(parts.drop_last());
        assert forall|i: int| 0 <= i < parts.drop_last().len() implies !(
        #[trigger] parts.drop_last()[i]).contains(47) by {
            assert(parts.drop_last()[i] == parts[i]);
        }
        lemma_split_slash_joined(parts.drop_last());
        assert(!parts[parts.len() - 1].contains(47));
        lemma_split_append(a, parts.last());
        assert(seq![Seq::<u8>::empty()] + parts =~= (seq![Seq::<u8>::empty()]
            + parts.drop_last()).push(parts.last()));
    }
}

proof fn lemma_split_append(a: Seq<u8>, p: Seq<u8>)
    requires
        !p.contains(47),
    ensures
        split_on(a + seq![47u8] + p, 47) == split_on(a, 47).push(p),
    decreases a.len(),
{
    let s = a + seq![47u8] + p;
    bytes::lemma_index_from(a, 0, 47);
    let j = bytes::index_from(a, 0, 47);
    if j < a.len() {
        assert forall|k: int| 0 <= k < j implies s[k] != 47 by {
            assert(s[k] == a[k]);
        }
        assert(s[j] == a[j]);
        bytes::lemma_index_from_unique(s, 0, 47, j);
        assert(s.take(j) =~= a.take(j));
        assert(s.skip(j + 1) =~= a.skip(j + 1) + seq![47u8] + p);
        lemma_split_append(a.skip(j + 1), p);
        assert(split_on(s, 47) =~= split_on(a, 47).push(p));
    } else {
        assert forall|k: int| 0 <= k < a.len() implies s[k] != 47 by {
            assert(s[k] == a[k]);
        }
        bytes::lemma_index_from_unique(s, 0, 47, a.len() as int);
        assert(s.take(a.len() as int) =~= a);
        assert(s.skip(a.len() as int + 1) =~= p);
        assert forall|k: int| 0 <= k < p.len() implies p[k] != 47 by {
            assert(p.contains(p[k]));
        }
        bytes::lemma_index_from_unique(p, 0, 47, p.len() as int);
        assert(split_on(p, 47) =~= seq![p]);
        assert(split_on(a, 47) =~= seq![a]);
        assert(split_on(s, 47) =~= seq![a, p]);
    }
}

pub proof fn lemma_normal_parts_fixed(parts: Seq<Seq<u8>>)
    requires
        forall|i: int| 0 <= i < parts.len() ==> real_component(#[trigger] parts[i]),
    ensures
        normal_parts(seq![Seq::<u8>::empty()] + parts) == parts,
    decreases parts.len(),
{
    let all = seq![Seq::<u8>::empty()] + parts;
    if parts.len() == 0 {
        assert(all.drop_last() =~= Seq::empty());
        assert(normal_parts(all.drop_last()).len() == 0);
        assert(all.last().len() == 0);
        assert(normal_parts(all) =~= parts);
    } else {
        assert forall|i: int| 0 <= i < parts.drop_last().len() implies real_component(
            #[trigger] parts.drop_last()[i],
        ) by {
            assert(parts.drop_last()[i] == parts[i]);
        }
        lemma_normal_parts_fixed(parts.drop_last());
        assert(all.drop_last() =~= seq![Seq::<u8>::empty()] + parts.drop_last());
        assert(real_component(parts[parts.len() - 1]));
        assert(normal_parts(all) =~= parts);
    }
}

/// A normalized path is absolute, and each of its components is neither empty
/// nor `.` nor `..`.
pub proof fn law_normal_path_absolute(path: Seq<u8>)
    ensures
        normal_path(path).len() > 0,
        normal_path(path)[0] == 47,
        forall|i: int|
            0 <= i < normal_parts(split_on(path, 47)).len() ==> real_component(
                #[trigger] normal_parts(split_on(path, 47))[i],
            ),
{
    lemma_split_no_separator(path, 47);
    lemma_normal_parts_real(split_on(path, 47));
    lemma_slash_joined_first(normal_parts(split_on(path, 47)));
}

pub proof fn lemma_slash_joined_first(parts: Seq<Seq<u8>>)
    ensures
        parts.len() > 0 ==> slash_joined(parts).len() > 0 && slash_joined(parts)[0] == 47,
    decreases parts.len(),
{
    if parts.len() > 0 {
        lemma_slash_joined_first(parts.drop_last());
        let a = slash_joined(parts.drop_last());
        if a.len() == 0 {
            assert(slash_joined(parts)[0] == (a + seq![47u8])[0]);
        } else {
            assert(slash_joined(parts)[0] == a[0]);
        }
    }
}

/// Normalizing a normalized path changes nothing.
pub proof fn law_normalize_idempotent(path: Seq<u8>)
    ensures
        normal_path(normal_path(path)) == normal_path(path),
{
    let parts = normal_parts(split_on(path, 47));
    lemma_split_no_separator(path, 47);
    lemma_normal_parts_real(split_on(path, 47));
    if parts.len() == 0 {
        let root = seq![47u8];
        bytes::lemma_index_from_unique(root, 0, 47, 0);
        assert(root.take(0) =~= Seq::<u8>::empty());
        assert(root.skip(1) =~= Seq::<u8>::empty());
        assert(split_on(Seq::<u8>::empty(), 47) =~= seq![Seq::<u8>::empty()]);
        assert(split_on(root, 47) =~= seq![Seq::<u8>::empty(), Seq::<u8>::empty()]);
        let two = seq![Seq::<u8>::empty(), Seq::<u8>::empty()];
        assert(two.drop_last() =~= seq![Seq::<u8>::empty()]);
        assert(two.drop_last().drop_last() =~= Seq::empty());
        assert(normal_parts(two.drop_last().drop_last()) =~= Seq::empty());
        assert(normal_parts(two.drop_last()) =~= Seq::empty());
        assert(normal_parts(two) =~= Seq::empty());
    } else {
        lemma_split_slash_joined(parts);
        lemma_normal_parts_fixed(parts);
    }
}

/// The current directory of the shell, always an absolute normalized path.
pub struct Cwd {
    path: Vec<u8>,
}

impl Cwd {
    pub closed spec fn view(&self) -> Seq<u8> {
        self.path@
    }

    pub open spec fn wf(&self) -> bool {
        self@ == normal_path(self@)
    }

    /// The root, where a shell starts.
    pub fn new() -> (r: Cwd)
        ensures
            r@ == seq![47u8],
            r.wf(),
    {
        let r = Cwd { path: vec![47u8] };
        assert(r@ =~= seq![47u8]);
        proof {
            law_normalize_idempotent(Seq::<u8>::empty());
            assert(split_on(Seq::<u8>::empty(), 47) =~= seq![Seq::<u8>::empty()]);
            assert(seq![Seq::<u8>::empty()].drop_last() =~= Seq::empty());
            assert(normal_parts(Seq::empty()) =~= Seq::empty());
            assert(normal_parts(seq![Seq::<u8>::empty()]) =~= Seq::empty());
        }
        r
    }

    pub fn cwd_get(&self) -> (r: Vec<u8>)
        ensures
            r@ == self@,
    {
        copy_of(&self.path)
    }

    /// What `pwd` prints.
    pub fn cmd_pwd(&self) -> (r: Vec<u8>)
        ensures
            r@ == self@.push(10u8),
    {
        let mut v: Vec<u8> = copy_of(&self.path);
        v.push(10);
        v
    }

    /// Goes to the directory that `path` stands for.
    pub fn cwd_set(&mut self, path: &[u8])
        ensures
            final(self)@ == resolved(old(self)@, path@),
            final(self).wf(),
    {
        let p: Vec<u8> = self.resolve(path);
        self.path = p;
        proof {
            law_normalize_idempotent(path@);
            law_normalize_idempotent(old(self)@ + path@);
            law_normalize_idempotent(old(self)@ + seq![47u8] + path@);
        }
    }

    /// The absolute path that a path typed by the user stands for.
    pub fn resolve(&self, path: &[u8]) -> (r: Vec<u8>)
        ensures
            r@ == resolved(self@, path@),
    {
        if path.len() > 0 && path[0] == 47 {
            return normalize(path);
        }
        let mut s: Vec<u8> = copy_of(&self.path);
        if !(s.len() > 0 && s[s.len() - 1] == 47) {
            s.push(47);
        }
        let ghost s0 = s@;
        append_bytes(&mut s, path);
        assert(s0 == self@ || s0 =~= self@ + seq![47u8]);
        normalize(&s)
    }
}

} // verus!
