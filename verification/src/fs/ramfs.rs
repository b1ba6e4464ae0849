//! The file system in memory.
//!
//! A node is known by its path without leading slashes; every path above it is
//! a directory.
use vstd::prelude::*;
use vstd::slice::slice_subrange;

use super::codes::{
    ERR_INVALID, ERR_ISDIR, ERR_NOTDIR, ERR_NOTFOUND, O_CREAT, O_TRUNC,
};
use super::provider::{EntrySink, LocalFs, Meta};
use crate::bytes;
use crate::bytes::{bytes_eq, copy_of, find_byte, starts_with};
use crate::names;
use crate::names::insert_sorted;

verus! {

/// The mode that a new file has.
pub const MODE_FILE_DEF: u32 = 0o666;

/// The mode that a new directory has.
pub const MODE_DIR_DEF: u32 = 0o777;

/// A file or a directory.
pub enum FsNode {
    File { data: Vec<u8>, mode: u32 },
    Dir { mode: u32 },
}

/// A node as a value.
#[verifier::ext_equal]
pub enum NodeView {
    File(Seq<u8>, u32),
    Dir(u32),
}

impl View for FsNode {
    type V = NodeView;

    open spec fn view(&self) -> NodeView {
        match *self {
            FsNode::File { data, mode } => NodeView::File(data@, mode),
            FsNode::Dir { mode } => NodeView::Dir(mode),
        }
    }
}

/// The nodes by path.
pub type Tree = Map<Seq<u8>, NodeView>;

/// A path without leading slashes.
pub open spec fn rel_key(path: Seq<u8>) -> Seq<u8>
    decreases path.len(),
{
    if path.len() > 0 && path[0] == 47 {
        rel_key(path.skip(1))
    } else {
        path
    }
}

/// A path without leading slashes.
pub fn trim_root(path: &[u8]) -> (r: &[u8])
    ensures
        r@ == rel_key(path@),
{
    let mut i: usize = 0;
    assert(path@.skip(0) =~= path@);
    while i < path.len() && path[i] == 47
        invariant
            i <= path.len(),
            rel_key(path@) == rel_key(path@.skip(i as int)),
        decreases path.len() - i,
    {
        assert(path@.skip(i as int).skip(1) =~= path@.skip(i + 1));
        i += 1;
    }
    assert(path@.subrange(i as int, path.len() as int) =~= path@.skip(i as int));
    slice_subrange(path, i, path.len())
}

/// `a` is the path of a directory above `k`.
pub open spec fn above(a: Seq<u8>, k: Seq<u8>) -> bool {
    a.len() < k.len() && k[a.len() as int] == 47 && k.take(a.len() as int) == a
}

/// Every path above a node is a directory, and no path starts with a slash.
pub open spec fn tree_ok(t: Tree) -> bool {
    &&& forall|k: Seq<u8>| #[trigger] t.contains_key(k) ==> k.len() > 0 && k[0] != 47
    &&& forall|a: Seq<u8>, k: Seq<u8>|
        t.contains_key(k) && #[trigger] above(a, k) ==> t.contains_key(a) && t[a] is Dir
}

/// The node that a path leads to; the root is none.
pub open spec fn looked_up(t: Tree, path: Seq<u8>) -> Option<NodeView> {
    if t.contains_key(rel_key(path)) {
        Some(t[rel_key(path)])
    } else {
        None
    }
}

/// A path above `k` is a file, so that `k` cannot be made.
pub open spec fn blocked(t: Tree, k: Seq<u8>) -> bool {
    exists|a: Seq<u8>| #[trigger] above(a, k) && t.contains_key(a) && t[a] is File
}

/// The tree with the directories above `k` that were missing.
pub open spec fn with_parents(t: Tree, k: Seq<u8>) -> Tree {
    Map::new(
        |x: Seq<u8>| t.contains_key(x) || above(x, k),
        |x: Seq<u8>|
            if t.contains_key(x) {
                t[x]
            } else {
                NodeView::Dir(MODE_DIR_DEF)
            },
    )
}

/// The tree in which `k` is there: as it was, or new with the directories
/// above it. `None` where it cannot be made.
pub open spec fn with_node(t: Tree, k: Seq<u8>, fresh: NodeView) -> Option<Tree> {
    if k.len() == 0 || blocked(t, k) {
        None
    } else if t.contains_key(k) {
        Some(t)
    } else {
        Some(with_parents(t, k).insert(k, fresh))
    }
}

/// The tree in which `k` is a directory. `None` where it cannot be made one.
pub open spec fn with_dir(t: Tree, k: Seq<u8>) -> Option<Tree> {
    match with_node(t, k, new_dir()) {
        Some(n) => if n[k] is Dir {
            Some(n)
        } else {
            None
        },
        None => None,
    }
}

pub open spec fn new_file() -> NodeView {
    NodeView::File(Seq::empty(), MODE_FILE_DEF)
}

pub open spec fn new_dir() -> NodeView {
    NodeView::Dir(MODE_DIR_DEF)
}

/// `name` is an entry of the directory at `d`; an empty `d` is the root.
pub open spec fn child_of(t: Tree, d: Seq<u8>, name: Seq<u8>) -> bool {
    !name.contains(47) && t.contains_key(
        if d.len() == 0 {
            name
        } else {
            d + seq![47u8] + name
        },
    )
}

/// The names are the entries of the directory at `d`, each once, in byte
/// order.
pub open spec fn lists(names: Seq<Seq<u8>>, t: Tree, d: Seq<u8>) -> bool {
    &&& names::in_order(names)
    &&& names.no_duplicates()
    &&& forall|n: Seq<u8>| names.contains(n) == child_of(t, d, n)
}

/// Something lies below `k`.
pub open spec fn has_children(t: Tree, k: Seq<u8>) -> bool {
    exists|x: Seq<u8>| #[trigger] t.contains_key(x) && above(k, x)
}

/// A node that can be removed: a file, or a directory with nothing below it.
pub open spec fn removable(t: Tree, k: Seq<u8>) -> bool {
    t.contains_key(k) && (t[k] is File || !has_children(t, k))
}

/// The bytes that a write leaves: at the end, or at an offset with zeros in
/// between.
pub open spec fn written(data: Seq<u8>, off: int, buf: Seq<u8>, append: bool) -> Seq<u8> {
    if append {
        data + buf
    } else {
        let len = if off + buf.len() > data.len() {
            off + buf.len()
        } else {
            data.len() as int
        };
        Seq::new(
            len as nat,
            |i: int|
                if off <= i < off + buf.len() {
                    buf[i - off]
                } else if i < data.len() {
                    data[i]
                } else {
                    0u8
                },
        )
    }
}

/// The bytes that a read gives.
pub open spec fn read_part(data: Seq<u8>, off: int, n: int) -> Seq<u8> {
    if off >= data.len() {
        Seq::empty()
    } else if off + n > data.len() {
        data.subrange(off, data.len() as int)
    } else {
        data.subrange(off, off + n)
    }
}

/// What is written at an offset of a file reads back there.
pub proof fn law_ram_write_reads_back(data: Seq<u8>, off: int, buf: Seq<u8>)
    requires
        0 <= off,
    ensures
        read_part(written(data, off, buf, false), off, buf.len() as int) == buf,
        read_part(written(data, off, buf, true), data.len() as int, buf.len() as int) == buf,
{
    assert(read_part(written(data, off, buf, false), off, buf.len() as int) =~= buf);
    assert(read_part(written(data, off, buf, true), data.len() as int, buf.len() as int) =~= buf);
}

pub open spec fn flag_set(flags: u32, f: u32) -> bool {
    flags & f != 0
}

/// The tree with the file at `k` emptied.
pub open spec fn emptied(t: Tree, k: Seq<u8>) -> Tree {
    t.insert(k, NodeView::File(Seq::empty(), t[k]->File_1))
}

/// Opening a file: the tree, and the path of the file or the error.
pub open spec fn ram_opened(t: Tree, rel: Seq<u8>, flags: u32) -> (Tree, Result<Seq<u8>, u64>) {
    let k = rel_key(rel);
    if k.len() == 0 {
        (t, Err(ERR_NOTFOUND))
    } else if !t.contains_key(k) {
        if flag_set(flags, O_CREAT) {
            match with_node(t, k, new_file()) {
                Some(n) => (n, Ok(k)),
                None => (t, Err(ERR_NOTFOUND)),
            }
        } else {
            (t, Err(ERR_NOTFOUND))
        }
    } else if t[k] is Dir {
        (t, Err(ERR_ISDIR))
    } else if flag_set(flags, O_TRUNC) {
        (emptied(t, k), Ok(k))
    } else {
        (t, Ok(k))
    }
}

/// The path that a handle keeps: its first 63 bytes.
pub open spec fn handle_path(k: Seq<u8>) -> Seq<u8> {
    if k.len() > 63 {
        k.take(63)
    } else {
        k
    }
}

/// A file that was opened: its path, up to 63 bytes of it.
#[derive(Clone, Copy)]
pub struct RamHandle {
    path: [u8; 64],
    len: usize,
}

impl RamHandle {
    pub closed spec fn view(&self) -> Seq<u8> {
        self.path@.take(self.len as int)
    }

    #[verifier::type_invariant]
    spec fn short(&self) -> bool {
        self.len <= 63
    }

    fn new(path: &[u8]) -> (r: RamHandle)
        ensures
            r@ == handle_path(path@),
    {
        let len: usize = if path.len() < 63 {
            path.len()
        } else {
            63
        };
        let mut p: [u8; 64] = [0u8; 64];
        let mut i: usize = 0;
        while i < len
            invariant
                i <= len,
                len <= 63,
                len <= path.len(),
                forall|k: int| 0 <= k < i ==> #[trigger] p@[k] == path@[k],
            decreases len - i,
        {
            p[i] = path[i];
            i += 1;
        }
        let r = RamHandle { path: p, len };
        assert(r@ =~= handle_path(path@));
        r
    }

    fn to_path(&self) -> (r: Vec<u8>)
        ensures
            r@ == self@,
    {
        proof {
            use_type_invariant(self);
        }
        assert(self.path@.subrange(0, self.len as int) =~= self@);
        copy_of(slice_subrange(self.path.as_slice(), 0, self.len))
    }
}

/// The file system in memory.
pub struct RamFs {
    entries: Vec<(Vec<u8>, FsNode)>,
}

/// The index of the first entry of that path, or the length.
spec fn key_index(s: Seq<(Vec<u8>, FsNode)>, k: Seq<u8>) -> int
    decreases s.len(),
{
    if s.len() == 0 {
        0
    } else if s[0].0@ == k {
        0
    } else {
        1 + key_index(s.skip(1), k)
    }
}

proof fn lemma_key_index(s: Seq<(Vec<u8>, FsNode)>, k: Seq<u8>)
    ensures
        0 <= key_index(s, k) <= s.len(),
        key_index(s, k) < s.len() ==> s[key_index(s, k)].0@ == k,
        forall|i: int| 0 <= i < key_index(s, k) ==> (#[trigger] s[i]).0@ != k,
    decreases s.len(),
{
    if s.len() > 0 && s[0].0@ != k {
        lemma_key_index(s.skip(1), k);
        assert forall|i: int| 0 <= i < key_index(s, k) implies (#[trigger] s[i]).0@ != k by {
            if i > 0 {
                assert(s[i] == s.skip(1)[i - 1]);
            }
        }
    }
}

proof fn lemma_key_index_unique(s: Seq<(Vec<u8>, FsNode)>, k: Seq<u8>, j: int)
    requires
        0 <= j <= s.len(),
        j < s.len() ==> s[j].0@ == k,
        forall|i: int| 0 <= i < j ==> (#[trigger] s[i]).0@ != k,
    ensures
        key_index(s, k) == j,
{
    lemma_key_index(s, k);
    let i = key_index(s, k);
    if i < j {
        assert(s[i].0@ != k);
    } else if j < i {
        assert(s[j].0@ != k);
    }
}

spec fn tree_of(s: Seq<(Vec<u8>, FsNode)>) -> Tree {
    Map::new(|k: Seq<u8>| key_index(s, k) < s.len(), |k: Seq<u8>| s[key_index(s, k)].1@)
}

spec fn distinct(s: Seq<(Vec<u8>, FsNode)>) -> bool {
    forall|i: int, j: int| 0 <= i < j < s.len() ==> (#[trigger] s[i]).0@ != (#[trigger] s[j]).0@
}

proof fn lemma_push(s: Seq<(Vec<u8>, FsNode)>, e: (Vec<u8>, FsNode))
    requires
        distinct(s),
        !tree_of(s).contains_key(e.0@),
    ensures
        distinct(s.push(e)),
        tree_of(s.push(e)) == tree_of(s).insert(e.0@, e.1@),
{
    let t = s.push(e);
    lemma_key_index(s, e.0@);
    assert forall|i: int| 0 <= i < s.len() implies (#[trigger] s[i]).0@ != e.0@ by {}
    assert(distinct(t)) by {
        assert forall|i: int, j: int| 0 <= i < j < t.len() implies (#[trigger] t[i]).0@ != (
        #[trigger] t[j]).0@ by {
            assert(s[i].0@ != e.0@);
        }
    }
    assert forall|k: Seq<u8>| true implies #[trigger] tree_of(t).contains_key(k) == tree_of(
        s,
    ).insert(e.0@, e.1@).contains_key(k) && (tree_of(t).contains_key(k) ==> tree_of(t)[k]
        == tree_of(s).insert(e.0@, e.1@)[k]) by {
        lemma_key_index(s, k);
        let i = key_index(s, k);
        if k == e.0@ {
            lemma_key_index_unique(t, k, s.len() as int);
        } else if i < s.len() {
            assert forall|x: int| 0 <= x < i implies (#[trigger] t[x]).0@ != k by {
                assert(t[x] == s[x]);
            }
            lemma_key_index_unique(t, k, i);
        } else {
            assert forall|x: int| 0 <= x < t.len() implies (#[trigger] t[x]).0@ != k by {
                if x < s.len() {
                    assert(t[x] == s[x]);
                }
            }
            lemma_key_index_unique(t, k, t.len() as int);
        }
    }
    assert(tree_of(t) =~= tree_of(s).insert(e.0@, e.1@));
}

proof fn lemma_remove(s: Seq<(Vec<u8>, FsNode)>, i: int)
    requires
        distinct(s),
        0 <= i < s.len(),
    ensures
        distinct(s.remove(i)),
        tree_of(s.remove(i)) == tree_of(s).remove(s[i].0@),
{
    let t = s.remove(i);
    assert(distinct(t)) by {
        assert forall|a: int, b: int| 0 <= a < b < t.len() implies (#[trigger] t[a]).0@ != (
        #[trigger] t[b]).0@ by {
            let x = if a < i {
                a
            } else {
                a + 1
            };
            let y = if b < i {
                b
            } else {
                b + 1
            };
            assert(s[x].0@ != s[y].0@);
        }
    }
    assert forall|k: Seq<u8>| true implies #[trigger] tree_of(t).contains_key(k) == tree_of(
        s,
    ).remove(s[i].0@).contains_key(k) && (tree_of(t).contains_key(k) ==> tree_of(t)[k] == tree_of(
        s,
    ).remove(s[i].0@)[k]) by {
        lemma_key_index(s, k);
        let j = key_index(s, k);
        if k == s[i].0@ || j >= s.len() {
            assert forall|x: int| 0 <= x < t.len() implies (#[trigger] t[x]).0@ != k by {
                let y = if x < i {
                    x
                } else {
                    x + 1
                };
                assert(t[x] == s[y]);
                if k == s[i].0@ {
                    if y < i {
                        assert(s[y].0@ != s[i].0@);
                    } else {
                        assert(s[i].0@ != s[y].0@);
                    }
                }
            }
            lemma_key_index_unique(t, k, t.len() as int);
        } else {
            let jj = if j < i {
                j
            } else {
                j - 1
            };
            assert(j != i);
            assert(t[jj] == s[j]);
            assert forall|x: int| 0 <= x < jj implies (#[trigger] t[x]).0@ != k by {
                let y = if x < i {
                    x
                } else {
                    x + 1
                };
                assert(t[x] == s[y]);
            }
            lemma_key_index_unique(t, k, jj);
        }
    }
    assert(tree_of(t) =~= tree_of(s).remove(s[i].0@));
}

/// A path above one that is above `k` is above `k`.
proof fn lemma_above_chain(a: Seq<u8>, b: Seq<u8>, k: Seq<u8>)
    requires
        above(a, b),
        above(b, k),
    ensures
        above(a, k),
{
    assert(k.take(a.len() as int) =~= k.take(b.len() as int).take(a.len() as int));
    assert(k[a.len() as int] == k.take(b.len() as int)[a.len() as int]);
}

/// Of two paths above `k`, the shorter one is above the longer one.
proof fn lemma_above_order(a: Seq<u8>, b: Seq<u8>, k: Seq<u8>)
    requires
        above(a, k),
        above(b, k),
        a.len() < b.len(),
    ensures
        above(a, b),
{
    assert(b.take(a.len() as int) =~= k.take(a.len() as int));
    assert(b[a.len() as int] == k[a.len() as int]);
}

/// Adding a node with the directories above it keeps a tree in order.
proof fn lemma_with_node_ok(t: Tree, k: Seq<u8>, fresh: NodeView)
    requires
        tree_ok(t),
        k.len() > 0,
        k[0] != 47,
    ensures
        with_node(t, k, fresh) matches Some(n) ==> tree_ok(n) && n.contains_key(k),
{
    if let Some(n) = with_node(t, k, fresh) {
        if !t.contains_key(k) {
            assert forall|x: Seq<u8>| #[trigger] n.contains_key(x) implies x.len() > 0 && x[0]
                != 47 by {
                if x != k && !t.contains_key(x) {
                    assert(above(x, k));
                    assert(k.take(x.len() as int) == x);
                    if x.len() == 0 {
                        assert(k[0] == 47);
                    } else {
                        assert(x[0] == k[0]);
                    }
                }
            }
            assert forall|a: Seq<u8>, x: Seq<u8>|
                n.contains_key(x) && #[trigger] above(a, x) implies n.contains_key(a)
                && n[a] is Dir by {
                if x == k {
                    if t.contains_key(a) {
                        assert(t[a] is Dir) by {
                            if t[a] is File {
                                assert(blocked(t, k));
                            }
                        }
                    }
                } else if t.contains_key(x) {
                    assert(t.contains_key(a));
                    if a == k {
                        assert(false);
                    }
                } else {
                    assert(above(x, k));
                    lemma_above_chain(a, x, k);
                    if t.contains_key(a) && t[a] is File {
                        assert(blocked(t, k));
                    }
                }
            }
        }
    }
}

impl RamFs {
    pub closed spec fn view(&self) -> Tree {
        tree_of(self.entries@)
    }

    pub closed spec fn wf(&self) -> bool {
        distinct(self.entries@) && tree_ok(tree_of(self.entries@))
    }

    /// A file system in order is a tree in order.
    pub proof fn lemma_wf(&self)
        requires
            self.wf(),
        ensures
            tree_ok(self@),
    {
    }

    pub fn new() -> (r: RamFs)
        ensures
            r.wf(),
            r@ == Map::<Seq<u8>, NodeView>::empty(),
    {
        let r = RamFs { entries: Vec::new() };
        assert(r@ =~= Map::empty());
        r
    }

    fn index_of(&self, k: &[u8]) -> (r: usize)
        ensures
            r == key_index(self.entries@, k@),
            r <= self.entries@.len(),
            (r < self.entries@.len()) == self@.contains_key(k@),
            r < self.entries@.len() ==> self.entries@[r as int].0@ == k@ && self.entries@[r as int].1@
                == self@[k@],
    {
        let mut i: usize = 0;
        while i < self.entries.len() && !bytes_eq(&self.entries[i].0, k)
            invariant
                i <= self.entries@.len(),
                forall|x: int| 0 <= x < i ==> (#[trigger] self.entries@[x]).0@ != k@,
            decreases self.entries@.len() - i,
        {
            i += 1;
        }
        proof {
            lemma_key_index_unique(self.entries@, k@, i as int);
        }
        i
    }

    /// The node that a path leads to.
    pub fn find(&self, path: &[u8]) -> (r: Option<&FsNode>)
        requires
            self.wf(),
        ensures
            match r {
                Some(n) => looked_up(self@, path@) == Some(n@),
                None => looked_up(self@, path@) is None,
            },
    {
        let k: &[u8] = trim_root(path);
        let i: usize = self.index_of(k);
        if i < self.entries.len() {
            Some(&self.entries[i].1)
        } else {
            None
        }
    }

    /// Makes the directories above `k` that are missing. False, with nothing
    /// changed, where a file stands above it.
    fn ensure_parents(&mut self, k: &[u8]) -> (ok: bool)
        requires
            old(self).wf(),
            k.len() > 0,
            k@[0] != 47,
        ensures
            ok == !blocked(old(self)@, k@),
            distinct(final(self).entries@),
            final(self)@ == (if ok {
                with_parents(old(self)@, k@)
            } else {
                old(self)@
            }),
    {
        let ghost t = self@;
        let mut p: usize = 0;
        assert(self@ =~= partial(t, k@, 0)) by {
            assert forall|x: Seq<u8>| above(x, k@) implies x.len() >= 0 by {}
        }
        while p < k.len()
            invariant
                p <= k.len(),
                k.len() > 0,
                k@[0] != 47,
                old(self).wf(),
                t == old(self)@,
                tree_ok(t),
                distinct(self.entries@),
                self@ == partial(t, k@, p as int),
                forall|a: Seq<u8>|
                    #[trigger] above(a, k@) && a.len() < p && t.contains_key(a) ==> t[a] is Dir,
            decreases k.len() - p,
        {
            if k[p] == 47 {
                let a: &[u8] = slice_subrange(k, 0, p);
                assert(a@ =~= k@.take(p as int));
                assert(above(a@, k@));
                let i: usize = self.index_of(a);
                if i < self.entries.len() {
                    assert(t.contains_key(a@)) by {
                        // Only shorter paths were made so far.
                    }
                    match &self.entries[i].1 {
                        FsNode::Dir { mode } => {
                            assert(self@ =~= partial(t, k@, p + 1)) by {
                                lemma_partial_same(t, k@, p as int, a@);
                            }
                        },
                        FsNode::File { data, mode } => {
                            proof {
                                assert(blocked(t, k@));
                                lemma_partial_blocked(t, k@, p as int, a@);
                            }
                            return false;
                        },
                    }
                } else {
                    let ghost before = self.entries@;
                    let e = (copy_of(a), FsNode::Dir { mode: MODE_DIR_DEF });
                    proof {
                        lemma_push(before, e);
                    }
                    self.entries.push(e);
                    assert(self@ =~= partial(t, k@, p + 1)) by {
                        lemma_partial_more(t, k@, p as int, a@);
                    }
                }
            } else {
                assert(self@ =~= partial(t, k@, p + 1)) by {
                    lemma_partial_none(t, k@, p as int);
                }
            }
            p += 1;
        }
        proof {
            assert(partial(t, k@, k.len() as int) =~= with_parents(t, k@));
            if blocked(t, k@) {
                let a = choose|a: Seq<u8>| #[trigger]
                    above(a, k@) && t.contains_key(a) && t[a] is File;
                assert(t[a] is Dir);
            }
        }
        true
    }
}

/// The tree with the missing directories above `k` whose paths are shorter
/// than `p`.
spec fn partial(t: Tree, k: Seq<u8>, p: int) -> Tree {
    Map::new(
        |x: Seq<u8>| t.contains_key(x) || (above(x, k) && x.len() < p),
        |x: Seq<u8>|
            if t.contains_key(x) {
                t[x]
            } else {
                NodeView::Dir(MODE_DIR_DEF)
            },
    )
}

proof fn lemma_partial_none(t: Tree, k: Seq<u8>, p: int)
    requires
        0 <= p < k.len(),
        k[p] != 47,
    ensures
        partial(t, k, p) == partial(t, k, p + 1),
{
    assert(partial(t, k, p) =~= partial(t, k, p + 1));
}

proof fn lemma_partial_same(t: Tree, k: Seq<u8>, p: int, a: Seq<u8>)
    requires
        0 <= p < k.len(),
        a == k.take(p),
        t.contains_key(a),
    ensures
        partial(t, k, p) == partial(t, k, p + 1),
{
    assert forall|x: Seq<u8>| above(x, k) && x.len() == p implies x == a by {}
    assert(partial(t, k, p) =~= partial(t, k, p + 1));
}

proof fn lemma_partial_more(t: Tree, k: Seq<u8>, p: int, a: Seq<u8>)
    requires
        0 <= p < k.len(),
        k[p] == 47,
        a == k.take(p),
        !t.contains_key(a),
    ensures
        partial(t, k, p).insert(a, NodeView::Dir(MODE_DIR_DEF)) == partial(t, k, p + 1),
{
    assert forall|x: Seq<u8>| above(x, k) && x.len() == p implies x == a by {}
    assert(above(a, k));
    assert(partial(t, k, p).insert(a, NodeView::Dir(MODE_DIR_DEF)) =~= partial(t, k, p + 1));
}

proof fn lemma_partial_blocked(t: Tree, k: Seq<u8>, p: int, a: Seq<u8>)
    requires
        tree_ok(t),
        0 <= p < k.len(),
        above(a, k),
        a.len() == p,
        t.contains_key(a),
    ensures
        partial(t, k, p) == t,
{
    assert forall|x: Seq<u8>| above(x, k) && x.len() < p implies t.contains_key(x) by {
        lemma_above_order(x, a, k);
    }
    assert(partial(t, k, p) =~= t);
}

impl RamFs {
    /// Makes `k` with the directories above it, unless it is there already.
    /// Returns its index, or `None` where it cannot be made.
    fn make_node(&mut self, k: &[u8], dir: bool) -> (r: Option<usize>)
        requires
            old(self).wf(),
            k.len() > 0 ==> k@[0] != 47,
        ensures
            final(self).wf(),
            match with_node(
                old(self)@,
                k@,
                if dir {
                    new_dir()
                } else {
                    new_file()
                },
            ) {
                Some(t) => {
                    &&& final(self)@ == t
                    &&& r matches Some(i) && i < final(self).entries@.len()
                        && final(self).entries@[i as int].0@ == k@
                        && final(self).entries@[i as int].1@ == t[k@]
                },
                None => r is None && final(self)@ == old(self)@,
            },
    {
        if k.len() == 0 {
            return None;
        }
        let ghost fresh = if dir {
            new_dir()
        } else {
            new_file()
        };
        let i: usize = self.index_of(k);
        proof {
            lemma_with_node_ok(self@, k@, fresh);
        }
        if i < self.entries.len() {
            proof {
                if blocked(self@, k@) {
                    let a = choose|a: Seq<u8>| #[trigger]
                        above(a, k@) && self@.contains_key(a) && self@[a] is File;
                    assert(self@[a] is Dir);
                }
            }
            return Some(i);
        }
        if !self.ensure_parents(k) {
            return None;
        }
        let node = if dir {
            FsNode::Dir { mode: MODE_DIR_DEF }
        } else {
            let data: Vec<u8> = Vec::new();
            assert(data@ =~= Seq::empty());
            FsNode::File { data, mode: MODE_FILE_DEF }
        };
        assert(node@ == fresh);
        let e = (copy_of(k), node);
        proof {
            assert(!with_parents(old(self)@, k@).contains_key(k@));
            lemma_push(self.entries@, e);
        }
        let n: usize = self.entries.len();
        self.entries.push(e);
        Some(n)
    }

    /// Makes a file with the directories above it, unless there is a node
    /// already. False where it cannot be made.
    pub fn find_or_create(&mut self, path: &[u8]) -> (ok: bool)
        requires
            old(self).wf(),
        ensures
            final(self).wf(),
            match with_node(old(self)@, rel_key(path@), new_file()) {
                Some(t) => ok && final(self)@ == t,
                None => !ok && final(self)@ == old(self)@,
            },
    {
        let k: &[u8] = trim_root(path);
        proof {
            lemma_rel_key(path@);
        }
        self.make_node(k, false).is_some()
    }

    /// Makes a file, unless it is there already, and gives its contents.
    pub fn create_file(&mut self, path: &[u8]) -> (r: Option<&mut Vec<u8>>)
        requires
            old(self).wf(),
        ensures
            match with_node(old(self)@, rel_key(path@), new_file()) {
                Some(t) => match t[rel_key(path@)] {
                    NodeView::File(d, mode) => {
                        &&& r is Some
                        &&& r->0@ == d
                        &&& final(self)@ == t.insert(
                            rel_key(path@),
                            NodeView::File(final(r->0)@, mode),
                        )
                        &&& final(self).wf()
                    },
                    NodeView::Dir(_) => r is None && final(self)@ == t && final(self).wf(),
                },
                None => r is None && final(self)@ == old(self)@ && final(self).wf(),
            },
    {
        let k: &[u8] = trim_root(path);
        proof {
            lemma_rel_key(path@);
        }
        match self.make_node(k, false) {
            Some(i) => {
                let ghost s = self.entries@;
                assert forall|e: (Vec<u8>, FsNode)| e.0 == s[i as int].0 implies distinct(
                    #[trigger] s.update(i as int, e),
                ) && tree_of(s.update(i as int, e)) == tree_of(s).insert(k@, e.1@) && (s[i as int].1@
                    is File && e.1@ is File ==> tree_ok(tree_of(s.update(i as int, e)))) by {
                    lemma_set(s, i as int, e);
                    if s[i as int].1@ is File && e.1@ is File {
                        lemma_insert_file_ok(tree_of(s), k@, e.1@);
                    }
                }
                match &mut self.entries[i].1 {
                    FsNode::File { data, mode } => Some(data),
                    FsNode::Dir { mode } => None,
                }
            },
            None => None,
        }
    }
}

/// Another node in the place of one changes that path only.
proof fn lemma_set(s: Seq<(Vec<u8>, FsNode)>, i: int, e: (Vec<u8>, FsNode))
    requires
        distinct(s),
        0 <= i < s.len(),
        e.0@ == s[i].0@,
    ensures
        distinct(s.update(i, e)),
        tree_of(s.update(i, e)) == tree_of(s).insert(e.0@, e.1@),
{
    let t = s.update(i, e);
    assert forall|a: int, b: int| 0 <= a < b < t.len() implies (#[trigger] t[a]).0@ != (
    #[trigger] t[b]).0@ by {
        assert(s[a].0@ != s[b].0@);
    }
    assert forall|k: Seq<u8>| true implies #[trigger] tree_of(t).contains_key(k) == tree_of(
        s,
    ).insert(e.0@, e.1@).contains_key(k) && (tree_of(t).contains_key(k) ==> tree_of(t)[k]
        == tree_of(s).insert(e.0@, e.1@)[k]) by {
        lemma_key_index(s, k);
        let j = key_index(s, k);
        assert forall|x: int| 0 <= x < j implies (#[trigger] t[x]).0@ != k by {
            assert(s[x].0@ != k);
        }
        lemma_key_index_unique(t, k, j);
        if k == e.0@ {
            if j < i {
                assert(s[j].0@ != s[i].0@);
            } else if j > i {
                assert(s[i].0@ != k);
            }
        }
    }
    assert(tree_of(t) =~= tree_of(s).insert(e.0@, e.1@));
}

/// A file in the place of a file keeps a tree in order.
proof fn lemma_insert_file_ok(t: Tree, k: Seq<u8>, n: NodeView)
    requires
        tree_ok(t),
        t.contains_key(k),
        t[k] is File,
        n is File,
    ensures
        tree_ok(t.insert(k, n)),
{
    let r = t.insert(k, n);
    assert forall|a: Seq<u8>, x: Seq<u8>|
        r.contains_key(x) && #[trigger] above(a, x) implies r.contains_key(a) && r[a] is Dir by {
        assert(t.contains_key(x));
        assert(t.contains_key(a) && t[a] is Dir);
    }
}

/// A path without leading slashes does not start with one.
proof fn lemma_rel_key(path: Seq<u8>)
    ensures
        rel_key(path).len() > 0 ==> rel_key(path)[0] != 47,
    decreases path.len(),
{
    if path.len() > 0 && path[0] == 47 {
        lemma_rel_key(path.skip(1));
    }
}

/// The path of an entry of a directory.
spec fn entry_key(d: Seq<u8>, name: Seq<u8>) -> Seq<u8> {
    if d.len() == 0 {
        name
    } else {
        d + seq![47u8] + name
    }
}

/// The name that the path `k` has in the directory at `d`, if it is an entry
/// of it.
fn child_name(d: &[u8], k: &[u8]) -> (r: Option<Vec<u8>>)
    ensures
        match r {
            Some(n) => !n@.contains(47) && entry_key(d@, n@) == k@,
            None => forall|n: Seq<u8>| !n.contains(47) ==> #[trigger] entry_key(d@, n) != k@,
        },
{
    let from: usize = if d.len() == 0 {
        0
    } else {
        if !(k.len() > d.len() && k[d.len()] == 47 && starts_with(k, d)) {
            proof {
                assert forall|n: Seq<u8>| !n.contains(47) implies #[trigger] entry_key(d@, n)
                    != k@ by {
                    let e = d@ + seq![47u8] + n;
                    if e == k@ {
                        assert(e[d@.len() as int] == 47);
                        assert(e.take(d@.len() as int) =~= d@);
                    }
                }
            }
            return None;
        }
        d.len() + 1
    };
    let rest: &[u8] = slice_subrange(k, from, k.len());
    let j: usize = find_byte(rest, 0, 47);
    proof {
        bytes::lemma_index_from(rest@, 0, 47);
        if d.len() > 0 {
            assert(k@ =~= d@ + seq![47u8] + rest@) by {
                assert(k@.take(d@.len() as int) == d@);
            }
        } else {
            assert(rest@ =~= k@);
        }
    }
    if j < rest.len() {
        proof {
            assert forall|n: Seq<u8>| !n.contains(47) implies #[trigger] entry_key(d@, n)
                != k@ by {
                if entry_key(d@, n) == k@ {
                    assert(n =~= rest@) by {
                        if d.len() > 0 {
                            let e = d@ + seq![47u8] + n;
                            assert(e.skip(d@.len() as int + 1) =~= n);
                            assert(k@.skip(d@.len() as int + 1) =~= rest@);
                        }
                    }
                    assert(n[j as int] == 47);
                    assert(n.contains(47));
                }
            }
        }
        return None;
    }
    Some(copy_of(rest))
}

/// The directory that a path leads to: an empty path and `/` are the root.
pub open spec fn dir_at(t: Tree, path: Seq<u8>) -> Option<Seq<u8>> {
    if path.len() == 0 || path == seq![47u8] {
        Some(Seq::empty())
    } else if looked_up(t, path) matches Some(n) && n is Dir {
        Some(rel_key(path))
    } else {
        None
    }
}

/// Removing a node from the tree; `None` where it cannot be removed.
pub open spec fn without_node(t: Tree, path: Seq<u8>) -> Option<Tree> {
    if removable(t, rel_key(path)) {
        Some(t.remove(rel_key(path)))
    } else {
        None
    }
}

impl RamFs {
    fn list_at(&self, d: &[u8]) -> (r: Vec<Vec<u8>>)
        requires
            self.wf(),
        ensures
            lists(bytes::views(r@), self@, d@),
    {
        let mut out: Vec<Vec<u8>> = Vec::new();
        let mut i: usize = 0;
        let ghost s = self.entries@;
        assert(bytes::views(out@) =~= Seq::empty());
        while i < self.entries.len()
            invariant
                i <= s.len(),
                s == self.entries@,
                distinct(s),
                names::in_order(bytes::views(out@)),
                bytes::views(out@).no_duplicates(),
                forall|n: Seq<u8>| #[trigger]
                    bytes::views(out@).contains(n) == (!n.contains(47) && exists|j: int|
                        0 <= j < i && (#[trigger] s[j]).0@ == entry_key(d@, n)),
            decreases s.len() - i,
        {
            let ghost o0 = bytes::views(out@);
            match child_name(d, &self.entries[i].0) {
                Some(name) => {
                    let ghost nv = name@;
                    proof {
                        assert(!o0.contains(nv)) by {
                            if o0.contains(nv) {
                                let j = choose|j: int|
                                    0 <= j < i && (#[trigger] s[j]).0@ == entry_key(d@, nv);
                                assert(s[j].0@ != s[i as int].0@);
                            }
                        }
                        names::lemma_inserted_set(o0, nv);
                        names::lemma_inserted(o0, nv);
                    }
                    insert_sorted(&mut out, name);
                    assert forall|n: Seq<u8>| #[trigger]
                        bytes::views(out@).contains(n) == (!n.contains(47) && exists|j: int|
                            0 <= j < i + 1 && (#[trigger] s[j]).0@ == entry_key(d@, n)) by {
                        if n == nv {
                            assert(s[i as int].0@ == entry_key(d@, n));
                        } else if !n.contains(47) && s[i as int].0@ == entry_key(d@, n) {
                            lemma_entry_key_injective(d@, n, nv);
                        }
                    }
                },
                None => {
                    assert forall|n: Seq<u8>| #[trigger]
                        bytes::views(out@).contains(n) == (!n.contains(47) && exists|j: int|
                            0 <= j < i + 1 && (#[trigger] s[j]).0@ == entry_key(d@, n)) by {
                        if !n.contains(47) {
                            assert(entry_key(d@, n) != s[i as int].0@);
                        }
                    }
                },
            }
            i += 1;
        }
        assert forall|n: Seq<u8>| bytes::views(out@).contains(n) == child_of(self@, d@, n) by {
            lemma_key_index(s, entry_key(d@, n));
            if bytes::views(out@).contains(n) {
                let j = choose|j: int| 0 <= j < i && (#[trigger] s[j]).0@ == entry_key(d@, n);
                assert(key_index(s, entry_key(d@, n)) <= j) by {
                    if key_index(s, entry_key(d@, n)) > j {
                        assert(s[j].0@ != entry_key(d@, n));
                    }
                }
            }
            if child_of(self@, d@, n) {
                let j = key_index(s, entry_key(d@, n));
                assert(s[j].0@ == entry_key(d@, n));
            }
        }
        out
    }

    /// The entries of the directory that a path leads to, in byte order.
    pub fn readdir(&self, path: &[u8]) -> (r: Option<Vec<Vec<u8>>>)
        requires
            self.wf(),
        ensures
            match dir_at(self@, path@) {
                Some(d) => r matches Some(names) && lists(bytes::views(names@), self@, d),
                None => r is None,
            },
    {
        if path.len() == 0 || (path.len() == 1 && path[0] == 47) {
            let e: Vec<u8> = Vec::new();
            assert(e@ =~= Seq::empty());
            assert(path.len() == 1 ==> path@ =~= seq![47u8]);
            return Some(self.list_at(&e));
        }
        assert(path@ != seq![47u8]) by {
            if path@ == seq![47u8] {
                assert(path@[0] == 47);
            }
        }
        match self.find(path) {
            Some(FsNode::Dir { mode }) => Some(self.list_at(trim_root(path))),
            _ => None,
        }
    }

    /// Makes a directory with the directories above it, unless it is there
    /// already. Fails where a file stands there or above.
    pub fn mkdir(&mut self, path: &[u8]) -> (r: Option<()>)
        requires
            old(self).wf(),
        ensures
            final(self).wf(),
            match with_dir(old(self)@, rel_key(path@)) {
                Some(t) => r is Some && final(self)@ == t,
                None => r is None && final(self)@ == old(self)@,
            },
    {
        let k: &[u8] = trim_root(path);
        proof {
            lemma_rel_key(path@);
        }
        match self.make_node(k, true) {
            Some(i) => match self.entries[i].1 {
                FsNode::Dir { .. } => Some(()),
                FsNode::File { .. } => None,
            },
            None => None,
        }
    }

    fn is_leaf(&self, k: &[u8]) -> (r: bool)
        requires
            self.wf(),
        ensures
            r == !has_children(self@, k@),
    {
        let ghost s = self.entries@;
        let mut i: usize = 0;
        while i < self.entries.len()
            invariant
                i <= s.len(),
                s == self.entries@,
                forall|j: int| 0 <= j < i ==> !above(k@, (#[trigger] s[j]).0@),
            decreases s.len() - i,
        {
            let x: &Vec<u8> = &self.entries[i].0;
            if x.len() > k.len() && x[k.len()] == 47 && starts_with(x, k) {
                proof {
                    lemma_key_index(s, x@);
                    assert(key_index(s, x@) <= i) by {
                        if key_index(s, x@) > i {
                            assert(s[i as int].0@ != x@);
                        }
                    }
                    assert(self@.contains_key(x@));
                    assert(above(k@, x@));
                }
                return false;
            }
            i += 1;
        }
        proof {
            assert forall|x: Seq<u8>| #[trigger] self@.contains_key(x) implies !above(k@, x) by {
                lemma_key_index(s, x);
                let j = key_index(s, x);
                assert(!above(k@, s[j].0@));
            }
        }
        true
    }

    /// Removes a file or an empty directory.
    pub fn remove(&mut self, path: &[u8]) -> (r: Option<()>)
        requires
            old(self).wf(),
        ensures
            final(self).wf(),
            match without_node(old(self)@, path@) {
                Some(t) => r is Some && final(self)@ == t,
                None => r is None && final(self)@ == old(self)@,
            },
    {
        let k: &[u8] = trim_root(path);
        let i: usize = self.index_of(k);
        if i >= self.entries.len() {
            return None;
        }
        let ok: bool = match &self.entries[i].1 {
            FsNode::File { data, mode } => true,
            FsNode::Dir { mode } => self.is_leaf(k),
        };
        if !ok {
            return None;
        }
        proof {
            lemma_remove(self.entries@, i as int);
            let t = self@;
            let r = t.remove(k@);
            assert forall|a: Seq<u8>, x: Seq<u8>|
                r.contains_key(x) && #[trigger] above(a, x) implies r.contains_key(a)
                && r[a] is Dir by {
                assert(t.contains_key(x));
                assert(t.contains_key(a) && t[a] is Dir);
                if a == k@ {
                    assert(has_children(t, k@));
                }
            }
            assert(tree_ok(r));
        }
        self.entries.remove(i);
        Some(())
    }
}

proof fn lemma_entry_key_injective(d: Seq<u8>, a: Seq<u8>, b: Seq<u8>)
    requires
        entry_key(d, a) == entry_key(d, b),
    ensures
        a == b,
{
    if d.len() > 0 {
        assert((d + seq![47u8] + a).skip(d.len() as int + 1) =~= a);
        assert((d + seq![47u8] + b).skip(d.len() as int + 1) =~= b);
    }
}

/// A removed node is gone, and every other node stays.
pub proof fn law_remove_then_find(t: Tree, path: Seq<u8>, other: Seq<u8>)
    requires
        without_node(t, path) is Some,
    ensures
        looked_up(without_node(t, path)->0, other) == (if rel_key(other) == rel_key(path) {
            None
        } else {
            looked_up(t, other)
        }),
{
}

/// A file that was created is found, empty, and nothing that was there before
/// is changed.
pub proof fn law_create_then_find(t: Tree, path: Seq<u8>, other: Seq<u8>)
    requires
        tree_ok(t),
        with_node(t, rel_key(path), new_file()) is Some,
        !t.contains_key(rel_key(path)),
    ensures
        looked_up(with_node(t, rel_key(path), new_file())->0, path) == Some(new_file()),
        t.contains_key(rel_key(other)) ==> looked_up(
            with_node(t, rel_key(path), new_file())->0,
            other,
        ) == looked_up(t, other),
{
}

/// Writing to a file: the tree, and how many bytes were written or the error.
pub open spec fn ram_wrote(t: Tree, path: Seq<u8>, off: int, buf: Seq<u8>, append: bool) -> (
    Tree,
    Result<usize, u64>,
) {
    match with_node(t, rel_key(path), new_file()) {
        Some(n) => match n[rel_key(path)] {
            NodeView::File(d, mode) => (
                n.insert(rel_key(path), NodeView::File(written(d, off, buf, append), mode)),
                Ok(buf.len() as usize),
            ),
            NodeView::Dir(_) => (n, Err(ERR_ISDIR)),
        },
        None => (t, Err(ERR_NOTFOUND)),
    }
}

/// What is known of a path.
pub open spec fn ram_meta(t: Tree, path: Seq<u8>) -> Result<Meta, u64> {
    match looked_up(t, path) {
        Some(NodeView::File(d, _)) => Ok(
            Meta { size: d.len() as u64, kind: 0, readonly: false, mtime: 0 },
        ),
        Some(NodeView::Dir(_)) => Ok(Meta { size: 0, kind: 1, readonly: false, mtime: 0 }),
        None => Err(ERR_NOTFOUND),
    }
}

/// Making a directory: the tree, and the error if there is one.
pub open spec fn ram_made_dir(t: Tree, path: Seq<u8>) -> (Tree, Result<(), u64>) {
    let k = rel_key(path);
    if k.len() == 0 {
        (t, Err(ERR_INVALID))
    } else {
        match looked_up(t, k) {
            Some(NodeView::Dir(_)) => (t, Ok(())),
            Some(NodeView::File(_, _)) => (t, Err(ERR_NOTDIR)),
            None => match with_node(t, k, new_dir()) {
                Some(n) => (n, Ok(())),
                None => (t, Err(ERR_NOTDIR)),
            },
        }
    }
}

fn write_at(data: &mut Vec<u8>, off: usize, buf: &[u8], append: bool)
    requires
        append || off + buf.len() <= usize::MAX,
    ensures
        final(data)@ == written(old(data)@, off as int, buf@, append),
{
    if append {
        bytes::append_bytes(data, buf);
        return;
    }
    let ghost d = data@;
    let end: usize = off + buf.len();
    while data.len() < end
        invariant
            data@.len() >= d.len(),
            data@.len() <= end || data@.len() == d.len(),
            forall|i: int| 0 <= i < data@.len() ==> #[trigger] data@[i] == (if i < d.len() {
                d[i]
            } else {
                0u8
            }),
        decreases end - data@.len(),
    {
        data.push(0);
    }
    let ghost z = data@;
    let mut i: usize = 0;
    while i < buf.len()
        invariant
            i <= buf.len(),
            end == off + buf.len(),
            end <= data@.len(),
            data@.len() == z.len(),
            forall|x: int| 0 <= x < data@.len() ==> #[trigger] data@[x] == (if off <= x < off + i {
                buf@[x - off]
            } else {
                z[x]
            }),
        decreases buf.len() - i,
    {
        data.set(off + i, buf[i]);
        i += 1;
    }
    assert(data@ =~= written(d, off as int, buf@, append));
}

impl LocalFs for RamFs {
    type Handle = RamHandle;

    open spec fn ready(&self) -> bool {
        self.wf()
    }

    fn open(&mut self, rel: &[u8], flags: u32) -> (r: Result<RamHandle, u64>)
        ensures
            ({
                let (t, h) = ram_opened(old(self)@, rel@, flags);
                &&& final(self)@ == t
                &&& match r {
                    Ok(x) => h matches Ok(k) && x@ == handle_path(k),
                    Err(e) => h == Err::<Seq<u8>, u64>(e),
                }
            }),
    {
        let k: &[u8] = trim_root(rel);
        let ghost t = self@;
        proof {
            lemma_rel_key(rel@);
            lemma_rel_key_fixed(k@);
        }
        if k.len() == 0 {
            return Err(ERR_NOTFOUND);
        }
        let creat: bool = flags & O_CREAT != 0;
        let trunc: bool = flags & O_TRUNC != 0;
        let i: usize = self.index_of(k);
        if i >= self.entries.len() {
            if !creat {
                return Err(ERR_NOTFOUND);
            }
            return match self.make_node(k, false) {
                Some(_) => Ok(RamHandle::new(k)),
                None => Err(ERR_NOTFOUND),
            };
        }
        let is_dir: bool = match &self.entries[i].1 {
            FsNode::Dir { mode } => true,
            FsNode::File { data, mode } => false,
        };
        if is_dir {
            return Err(ERR_ISDIR);
        }
        if trunc {
            if let Some(data) = self.create_file(k) {
                data.clear();
            }
            proof {
                assert(!blocked(t, k@)) by {
                    if blocked(t, k@) {
                        let a = choose|a: Seq<u8>| #[trigger]
                            above(a, k@) && t.contains_key(a) && t[a] is File;
                        assert(t[a] is Dir);
                    }
                }
                assert(self@ =~= emptied(t, k@));
            }
        }
        Ok(RamHandle::new(k))
    }

    fn read(&mut self, h: RamHandle, off: usize, buf: &mut [u8]) -> (r: Result<usize, u64>)
        ensures
            final(self)@ == old(self)@,
            match looked_up(old(self)@, h@) {
                Some(NodeView::File(d, _)) => {
                    let part = read_part(d, off as int, old(buf)@.len() as int);
                    r == Ok::<usize, u64>(part.len() as usize) && final(buf)@ == part + old(
                        buf,
                    )@.skip(part.len() as int)
                },
                Some(NodeView::Dir(_)) => r == Err::<usize, u64>(ERR_ISDIR) && final(buf)@ == old(
                    buf,
                )@,
                None => r == Err::<usize, u64>(ERR_NOTFOUND) && final(buf)@ == old(buf)@,
            },
    {
        let path: Vec<u8> = h.to_path();
        match self.find(&path) {
            Some(FsNode::File { data, mode }) => {
                let left: usize = if off < data.len() {
                    data.len() - off
                } else {
                    0
                };
                let n: usize = if left < buf.len() {
                    left
                } else {
                    buf.len()
                };
                let total: usize = data.len();
                let mut i: usize = 0;
                while i < n
                    invariant
                        i <= n,
                        n <= buf@.len(),
                        n > 0 ==> off + n <= total,
                        total == data@.len(),
                        buf@.len() == old(buf)@.len(),
                        forall|x: int|
                            0 <= x < buf@.len() ==> #[trigger] buf@[x] == (if x < i {
                                data@[off + x]
                            } else {
                                old(buf)@[x]
                            }),
                    decreases n - i,
                {
                    buf[i] = data[off + i];
                    i += 1;
                }
                let ghost part = read_part(data@, off as int, old(buf)@.len() as int);
                assert(buf@ =~= part + old(buf)@.skip(part.len() as int));
                Ok(n)
            },
            Some(FsNode::Dir { mode }) => Err(ERR_ISDIR),
            None => Err(ERR_NOTFOUND),
        }
    }

    fn write(&mut self, h: RamHandle, off: usize, buf: &[u8], append: bool) -> (r: Result<
        usize,
        u64,
    >)
        ensures
            (final(self)@, r) == ram_wrote(old(self)@, h@, off as int, buf@, append),
    {
        let path: Vec<u8> = h.to_path();
        let ghost t = self@;
        let blocked_path: bool = !self.find_or_create(&path);
        if blocked_path {
            return Err(ERR_NOTFOUND);
        }
        let ghost t1 = self@;
        proof {
            lemma_rel_key(path@);
            lemma_with_node_ok(t, rel_key(path@), new_file());
            self.lemma_wf();
            if blocked(t1, rel_key(path@)) {
                let a = choose|a: Seq<u8>| #[trigger]
                    above(a, rel_key(path@)) && t1.contains_key(a) && t1[a] is File;
                assert(t1[a] is Dir);
            }
            assert(with_node(t1, rel_key(path@), new_file()) == Some(t1));
        }
        match self.create_file(&path) {
            Some(data) => {
                write_at(data, off, buf, append);
                Ok(buf.len())
            },
            None => Err(ERR_ISDIR),
        }
    }

    fn close(&mut self, h: RamHandle)
        ensures
            final(self)@ == old(self)@,
    {
    }

    fn list<S: EntrySink>(&mut self, rel: &[u8], out: &mut S) -> (r: Result<usize, u64>)
        ensures
            final(self)@ == old(self)@,
            match dir_at(old(self)@, rel@) {
                Some(d) => exists|names: Seq<Seq<u8>>|
                    {
                        &&& lists(names, old(self)@, d)
                        &&& r == Ok::<usize, u64>(names.len() as usize)
                        &&& final(out).taken() == old(out).taken() + names
                    },
                None => r == Err::<usize, u64>(ERR_NOTFOUND) && final(out).taken() == old(
                    out,
                ).taken(),
            },
    {
        match RamFs::readdir(self, rel) {
            Some(entries) => {
                let ghost names = bytes::views(entries@);
                let mut i: usize = 0;
                assert(old(out).taken() + names.take(0) =~= old(out).taken());
                while i < entries.len()
                    invariant
                        i <= entries.len(),
                        names == bytes::views(entries@),
                        self@ == old(self)@,
                        self.wf(),
                        out.taken() == old(out).taken() + names.take(i as int),
                    decreases entries.len() - i,
                {
                    out.emit(&entries[i]);
                    assert(names.take(i + 1) =~= names.take(i as int).push(entries@[i as int]@));
                    i += 1;
                    assert(out.taken() =~= old(out).taken() + names.take(i as int));
                }
                assert(names.take(i as int) =~= names);
                assert(names.len() == entries@.len());
                Ok(entries.len())
            },
            None => Err(ERR_NOTFOUND),
        }
    }

    fn stat(&mut self, rel: &[u8]) -> (r: Result<Meta, u64>)
        ensures
            final(self)@ == old(self)@,
            r == ram_meta(old(self)@, rel@),
    {
        match self.find(rel) {
            Some(FsNode::File { data, mode }) => Ok(
                Meta { size: data.len() as u64, kind: 0, readonly: false, mtime: 0 },
            ),
            Some(FsNode::Dir { mode }) => Ok(
                Meta { size: 0, kind: 1, readonly: false, mtime: 0 },
            ),
            None => Err(ERR_NOTFOUND),
        }
    }

    fn make_dir(&mut self, rel: &[u8]) -> (r: Result<(), u64>)
        ensures
            (final(self)@, r) == ram_made_dir(old(self)@, rel@),
    {
        let k: &[u8] = trim_root(rel);
        proof {
            lemma_rel_key(rel@);
            lemma_rel_key_fixed(k@);
        }
        if k.len() == 0 {
            return Err(ERR_INVALID);
        }
        match self.find(k) {
            Some(FsNode::Dir { mode }) => {
                return Ok(());
            },
            Some(FsNode::File { data, mode }) => {
                return Err(ERR_NOTDIR);
            },
            None => {},
        }
        match self.make_node(k, true) {
            Some(_) => Ok(()),
            None => Err(ERR_NOTDIR),
        }
    }

    fn unlink(&mut self, rel: &[u8]) -> (r: Result<(), u64>)
        ensures
            match without_node(old(self)@, rel@) {
                Some(t) => r == Ok::<(), u64>(()) && final(self)@ == t,
                None => r == Err::<(), u64>(ERR_NOTFOUND) && final(self)@ == old(self)@,
            },
    {
        match RamFs::remove(self, rel) {
            Some(_) => Ok(()),
            None => Err(ERR_NOTFOUND),
        }
    }
}

/// A path without a leading slash is its own key.
proof fn lemma_rel_key_fixed(k: Seq<u8>)
    requires
        k.len() > 0 ==> k[0] != 47,
    ensures
        rel_key(k) == k,
{
}

} // verus!
