//! What files in memory, pipes, descriptors and grants come to from one request
//! to the next.
use vstd::prelude::*;

use super::codes::{ERR_INVALID, ERR_ISDIR, ERR_NOTFOUND, O_CREAT, O_TRUNC};
use super::dup;
use super::dup::{GrantView, Parties};
use super::ftable;
use super::ftable::EntryView;
use super::pipes;
use super::pipes::PipeView;
use super::ramfs;
use super::ramfs::{NodeView, Tree};

verus! {

// ── Bytes of files ──

/// Two reads, the second from where the first ended, give what one read of both
/// gives.
pub proof fn law_reads_follow_each_other(data: Seq<u8>, off: int, a: int, b: int)
    requires
        0 <= off,
        0 <= a,
        0 <= b,
    ensures
        ({
            let first = ramfs::read_part(data, off, a);
            let second = ramfs::read_part(data, off + first.len(), b);
            first + second == ramfs::read_part(data, off, first.len() + b) && first.len() <= a
        }),
        off + a <= data.len() ==> ramfs::read_part(data, off, a).len() == a,
{
    let first = ramfs::read_part(data, off, a);
    let second = ramfs::read_part(data, off + first.len(), b);
    assert(first + second =~= ramfs::read_part(data, off, first.len() + b));
}

/// A read gives the bytes of the file from the position on.
pub proof fn law_read_gives_the_bytes_there(data: Seq<u8>, off: int, n: int, i: int)
    requires
        0 <= off,
        0 <= n,
        0 <= i < ramfs::read_part(data, off, n).len(),
    ensures
        ramfs::read_part(data, off, n)[i] == data[off + i],
        off + i < data.len(),
{
}

/// A write changes the bytes that it is for and no others; the file gets longer
/// only where the write goes past its end, and a gap is zero. Appended bytes
/// come behind all others.
pub proof fn law_write_changes_its_bytes_only(data: Seq<u8>, off: int, buf: Seq<u8>, i: int)
    requires
        0 <= off,
    ensures
        ({
            let w = ramfs::written(data, off, buf, false);
            &&& w.len() == (if off + buf.len() > data.len() {
                off + buf.len()
            } else {
                data.len() as int
            })
            &&& 0 <= i < off && i < data.len() ==> w[i] == data[i]
            &&& off + buf.len() <= i < data.len() ==> w[i] == data[i]
            &&& data.len() <= i < off && buf.len() > 0 ==> w[i] == 0
        }),
        ramfs::written(data, off, buf, true) == data + buf,
{
}

// ── The tree in memory ──

/// A directory that was made is there, and so is every directory on the way to
/// it; what was there before stays.
pub proof fn law_made_directory_is_there(t: Tree, path: Seq<u8>, up: Seq<u8>, other: Seq<u8>)
    requires
        ramfs::tree_ok(t),
        ramfs::ram_made_dir(t, path).1 is Ok,
    ensures
        ({
            let k = ramfs::rel_key(path);
            let n = ramfs::ram_made_dir(t, path).0;
            &&& ramfs::looked_up(n, k) matches Some(x) && x is Dir
            &&& ramfs::above(up, k) ==> n.contains_key(up) && n[up] is Dir
            &&& t.contains_key(other) ==> n.contains_key(other) && n[other] == t[other]
            &&& !t.contains_key(other) && other != k && !ramfs::above(other, k) ==> !n.contains_key(
                other,
            )
        }),
{
    let k = ramfs::rel_key(path);
    lemma_key_is_bare(path);
    lemma_key_fixed(k);
    if t.contains_key(k) {
        if ramfs::above(up, k) {
            assert(t.contains_key(up) && t[up] is Dir);
        }
    } else {
        let n = ramfs::ram_made_dir(t, path).0;
        if ramfs::above(up, k) {
            assert(up != k);
            if t.contains_key(up) {
                assert(!(t[up] is File));
            }
        }
    }
}

pub proof fn lemma_key_is_bare(path: Seq<u8>)
    ensures
        ramfs::rel_key(path).len() > 0 ==> ramfs::rel_key(path)[0] != 47,
    decreases path.len(),
{
    if path.len() > 0 && path[0] == 47 {
        lemma_key_is_bare(path.skip(1));
    }
}

pub proof fn lemma_key_fixed(k: Seq<u8>)
    requires
        k.len() > 0 ==> k[0] != 47,
    ensures
        ramfs::rel_key(k) == k,
{
}

/// A file is no directory: none is made where one stands, or below it.
pub proof fn law_no_directory_below_a_file(t: Tree, path: Seq<u8>, file: Seq<u8>)
    requires
        ramfs::tree_ok(t),
        t.contains_key(file),
        t[file] is File,
        file == ramfs::rel_key(path) || ramfs::above(file, ramfs::rel_key(path)),
    ensures
        ramfs::ram_made_dir(t, path).1 is Err,
        ramfs::ram_made_dir(t, path).0 == t,
{
    let k = ramfs::rel_key(path);
    lemma_key_is_bare(path);
    lemma_key_fixed(k);
    if file != k {
        assert(ramfs::blocked(t, k));
        if t.contains_key(k) {
            assert(ramfs::above(file, k));
        }
    }
}

/// What was created is listed in its directory under its name.
pub proof fn law_created_is_listed(
    t: Tree,
    d: Seq<u8>,
    name: Seq<u8>,
    names: Seq<Seq<u8>>,
    fresh: NodeView,
)
    requires
        !name.contains(47),
        name.len() > 0,
        d.len() > 0 ==> d[0] != 47,
        ({
            let k = if d.len() == 0 {
                name
            } else {
                d + seq![47u8] + name
            };
            ramfs::with_node(t, k, fresh) matches Some(n) && ramfs::lists(names, n, d)
        }),
    ensures
        names.contains(name),
{
    let k = if d.len() == 0 {
        name
    } else {
        d + seq![47u8] + name
    };
    let n = ramfs::with_node(t, k, fresh)->0;
    assert(n.contains_key(k));
    assert(ramfs::child_of(n, d, name));
}

/// Only an empty directory is removed, and a file whatever it holds.
pub proof fn law_full_directory_is_not_removed(t: Tree, path: Seq<u8>, below: Seq<u8>)
    requires
        t.contains_key(ramfs::rel_key(path)),
    ensures
        t[ramfs::rel_key(path)] is Dir && t.contains_key(below) && ramfs::above(
            ramfs::rel_key(path),
            below,
        ) ==> ramfs::without_node(t, path) is None,
        t[ramfs::rel_key(path)] is File ==> ramfs::without_node(t, path) is Some,
{
}

/// Opening creates only where it is asked to, empties only where it is asked to,
/// and refuses directories. Nothing else in the tree changes.
pub proof fn law_open_does_what_it_is_asked(t: Tree, path: Seq<u8>, flags: u32, other: Seq<u8>)
    requires
        ramfs::rel_key(path).len() > 0,
    ensures
        ({
            let k = ramfs::rel_key(path);
            let (n, r) = ramfs::ram_opened(t, path, flags);
            &&& !t.contains_key(k) && flags & O_CREAT == 0 ==> n == t && r == Err::<Seq<u8>, u64>(
                ERR_NOTFOUND,
            )
            &&& !t.contains_key(k) && r is Ok ==> n[k] == NodeView::File(
                Seq::empty(),
                ramfs::MODE_FILE_DEF,
            )
            &&& t.contains_key(k) && t[k] is Dir ==> n == t && r == Err::<Seq<u8>, u64>(ERR_ISDIR)
            &&& t.contains_key(k) && t[k] is File ==> r == Ok::<Seq<u8>, u64>(k) && n[k] is File
                && n[k]->File_0 == (if flags & O_TRUNC == 0 {
                t[k]->File_0
            } else {
                Seq::empty()
            })
            &&& other != k && t.contains_key(other) ==> n.contains_key(other) && n[other]
                == t[other]
        }),
{
}

/// What is known of a path is what stands there: the length of a file, and
/// whether it is a directory.
pub proof fn law_stat_tells_what_is_there(t: Tree, path: Seq<u8>)
    ensures
        match ramfs::looked_up(t, path) {
            Some(NodeView::File(d, _)) => ramfs::ram_meta(t, path) matches Ok(m) && m.size
                == d.len() as u64 && m.kind == 0,
            Some(NodeView::Dir(_)) => ramfs::ram_meta(t, path) matches Ok(m) && m.kind == 1,
            None => ramfs::ram_meta(t, path) is Err,
        },
{
}

// ── Pipes ──

/// A pipe holds as much as was asked for, within its bounds, and a usual amount
/// where too little was asked for.
pub proof fn law_capacity_is_within_bounds(hint: usize)
    ensures
        4096 <= pipes::capacity_for(hint) <= 16384,
        4096 <= hint <= 16384 ==> pipes::capacity_for(hint) == hint,
        hint > 16384 ==> pipes::capacity_for(hint) == 16384,
        hint < 4096 ==> pipes::capacity_for(hint) == 8192,
{
}

/// A pipe is there for as long as any of its ends is open, and gone when the
/// last one is closed, whichever that is.
pub proof fn law_pipe_lasts_as_long_as_its_ends(m: Map<u32, PipeView>, id: u32, write: bool)
    requires
        m.contains_key(id),
        write ==> m[id].writers > 0,
        !write ==> m[id].readers > 0,
    ensures
        ({
            let n = pipes::after_close(m, id, write);
            &&& n.contains_key(id) == (m[id].readers + m[id].writers > 1)
            &&& n.contains_key(id) ==> n[id].readers + n[id].writers == m[id].readers + m[id].writers
                - 1 && n[id].data == m[id].data && n[id].cap == m[id].cap
            &&& n.contains_key(id) && write ==> n[id].readers == m[id].readers
            &&& n.contains_key(id) && !write ==> n[id].writers == m[id].writers
            &&& forall|k: u32|
                k != id ==> #[trigger] n.contains_key(k) == m.contains_key(k) && n[k] == m[k]
        }),
{
}

/// Opening an end counts that end and leaves the other and what is under way.
pub proof fn law_open_end_is_counted(p: PipeView, write: bool)
    ensures
        ({
            let q = pipes::one_more(p, write);
            &&& q.writers == p.writers + (if write {
                1nat
            } else {
                0
            })
            &&& q.readers == p.readers + (if write {
                0nat
            } else {
                1
            })
            &&& q.data == p.data
            &&& q.cap == p.cap
        }),
{
}

// ── Descriptors ──

/// When the peer of a channel is gone, all its ends of pipes and all its files of
/// drivers are told, so that they can be closed.
pub proof fn law_all_that_was_open_is_told(s: Seq<(u32, EntryView)>, i: int)
    requires
        0 <= i < s.len(),
    ensures
        s[i].1 matches EntryView::Pipe { pipe, write } ==> ftable::pipe_ends_in(s).contains(
            (pipe, write),
        ),
        s[i].1 matches EntryView::Remote { server_chan, remote_fd } ==> ftable::remotes_in(
            s,
        ).contains((server_chan, remote_fd)),
    decreases s.len(),
{
    let d = s.drop_last();
    let ps = ftable::pipe_ends_in(d);
    let rs = ftable::remotes_in(d);
    let all_ps = ftable::pipe_ends_in(s);
    let all_rs = ftable::remotes_in(s);
    if i == s.len() - 1 {
        if s[i].1 is Pipe {
            assert(all_ps[all_ps.len() - 1] == (s[i].1->pipe, s[i].1->write));
        }
        if s[i].1 is Remote {
            assert(all_rs[all_rs.len() - 1] == (s[i].1->server_chan, s[i].1->remote_fd));
        }
    } else {
        law_all_that_was_open_is_told(d, i);
        assert(d[i] == s[i]);
        if s[i].1 is Pipe {
            let x = (s[i].1->pipe, s[i].1->write);
            let j = choose|j: int| 0 <= j < ps.len() && ps[j] == x;
            assert(all_ps[j] == x);
        }
        if s[i].1 is Remote {
            let x = (s[i].1->server_chan, s[i].1->remote_fd);
            let j = choose|j: int| 0 <= j < rs.len() && rs[j] == x;
            assert(all_rs[j] == x);
        }
    }
}

// ── Grants ──

/// What a child gets by claiming a grant is what was granted: the same file at
/// the same place in it, or the same end of the same pipe.
pub proof fn law_claimed_is_what_was_granted(
    tab: Map<(u64, u32), EntryView>,
    gs: (Map<u64, GrantView>, Map<u64, GrantView>),
    ps: (Map<u32, PipeView>, Map<u32, PipeView>),
    chan: u64,
    fd: u32,
    parent: i64,
    nonce: u64,
    tabs: (Map<(u64, u32), EntryView>, Map<(u64, u32), EntryView>),
    next: u32,
    after: Map<u64, GrantView>,
    to: u64,
    child: i64,
    r: Result<u64, u64>,
)
    requires
        0 <= parent <= 0xFFFF_FFFF,
        0 <= child <= 0xFFFF_FFFF,
        dup::grant_done(tab, gs, ps, chan, fd, Some(parent), Ok(nonce)),
        dup::claim_done(
            tabs,
            next,
            (gs.1, after),
            to,
            nonce,
            (Parties {
                claimant: Some(child),
                parent: Some(parent as u32),
                holder: Some(parent),
            }),
            r,
        ),
    ensures
        tab.contains_key((chan, fd)),
        r == Ok::<u64, u64>(next as u64),
        tabs.1.contains_key((to, next)),
        ({
            let was = tab[(chan, fd)];
            let is = tabs.1[(to, next)];
            &&& was matches EntryView::Local { path, kind, offset, mnt, handle, append, .. } ==> {
                &&& is matches EntryView::Local {
                    path: p,
                    kind: k,
                    offset: o,
                    mnt: m,
                    handle: h,
                    append: a,
                    ..
                }
                &&& (p, k, o, m, h, a) == (path, kind, offset, mnt, handle, append)
            }
            &&& was is Pipe ==> is == was
            &&& was !is Remote
        }),
        !after.contains_key(nonce),
{
}

/// Nobody but a child of the one that gave the grant gets anything by claiming
/// it, and the grant is used up by the attempt.
pub proof fn law_only_a_child_can_claim(
    tabs: (Map<(u64, u32), EntryView>, Map<(u64, u32), EntryView>),
    next: u32,
    gs: (Map<u64, GrantView>, Map<u64, GrantView>),
    chan: u64,
    nonce: u64,
    parties: Parties,
    r: Result<u64, u64>,
)
    requires
        dup::claim_done(tabs, next, gs, chan, nonce, parties, r),
        nonce != 0,
        gs.0.contains_key(nonce) ==> parties.parent != Some(gs.0[nonce].pid) || parties.holder
            != Some(gs.0[nonce].pid as i64),
    ensures
        r == Err::<u64, u64>(ERR_INVALID),
        tabs.1 == tabs.0,
        !gs.1.contains_key(nonce),
{
}

/// A grant of an end of a pipe keeps the pipe there: it counts as an end, until
/// it is given up.
pub proof fn law_grant_keeps_its_pipe(
    tab: Map<(u64, u32), EntryView>,
    gs: (Map<u64, GrantView>, Map<u64, GrantView>),
    ps: (Map<u32, PipeView>, Map<u32, PipeView>),
    chan: u64,
    fd: u32,
    peer: Option<i64>,
    nonce: u64,
    pipe: u32,
    write: bool,
    after: Map<u32, PipeView>,
    left: Map<u64, GrantView>,
    r: Result<u64, u64>,
)
    requires
        dup::grant_done(tab, gs, ps, chan, fd, peer, Ok(nonce)),
        tab.contains_key((chan, fd)),
        tab[(chan, fd)] == (EntryView::Pipe { pipe, write }),
        dup::cancel_done((gs.1, left), (ps.1, after), nonce, r),
    ensures
        ps.1.contains_key(pipe),
        write ==> ps.1[pipe].writers == ps.0[pipe].writers + 1 && ps.1[pipe].readers
            == ps.0[pipe].readers,
        !write ==> ps.1[pipe].readers == ps.0[pipe].readers + 1 && ps.1[pipe].writers
            == ps.0[pipe].writers,
        ps.1[pipe].data == ps.0[pipe].data,
        ps.0[pipe].readers + ps.0[pipe].writers > 0 ==> after == ps.0,
        !left.contains_key(nonce),
{
    if ps.0[pipe].readers + ps.0[pipe].writers > 0 {
        assert(after =~= ps.0);
    }
}

/// A directory can be made wherever nothing but directories, or nothing, is in
/// the way; a file can be created there too.
pub proof fn law_free_path_can_be_made(t: Tree, path: Seq<u8>)
    requires
        ramfs::rel_key(path).len() > 0,
        !ramfs::blocked(t, ramfs::rel_key(path)),
        !t.contains_key(ramfs::rel_key(path)),
    ensures
        ramfs::ram_made_dir(t, path).1 is Ok,
        ramfs::ram_opened(t, path, O_CREAT).1 == Ok::<Seq<u8>, u64>(ramfs::rel_key(path)),
        ramfs::ram_opened(t, path, O_CREAT).0.contains_key(ramfs::rel_key(path)),
        ramfs::ram_opened(t, path, 0).1 == Err::<Seq<u8>, u64>(ERR_NOTFOUND),
{
    let k = ramfs::rel_key(path);
    lemma_key_is_bare(path);
    lemma_key_fixed(k);
    assert(O_CREAT & O_CREAT != 0 && 0u32 & O_CREAT == 0) by (bit_vector);
}

} // verus!
