//! The server: what it knows of its clients, and what it does with each of
//! their messages.
use std::collections::BTreeMap;
use vstd::prelude::*;
use vstd::slice::slice_subrange;

use super::block::BlockSource;
use super::codes::{
    ERR, ERR_INVALID, MAX_DATA, R_CLOSE, R_DELETE, R_DUP_CANCEL, R_DUP_CLAIM, R_DUP_GRANT, R_LSEEK,
    R_MKDIR, R_MOUNT, R_OPEN, R_PIPE_CREATE, R_READ, R_READDIR, R_REGISTER, R_RIGHTS_DROP,
    R_RIGHTS_GET, R_STAT, R_UMOUNT, R_WRITE,
};
use super::dup;
use super::dup::{handle_cancel, handle_claim, handle_grant, GrantTable, Parties};
use super::fat32::dir;
use super::ftable;
use super::ftable::FileTable;
use super::handlers;
use super::handlers::{
    handle_close, handle_delete, handle_lseek, handle_mkdir, handle_mount, handle_open,
    handle_pipe_create, handle_read, handle_readdir, handle_stat, handle_umount,
    handle_write_local, handle_write_remote, Answers,
};
use super::mount;
use super::mount::{apply_mount_spec, static_mount, to_reply_res, FsMount};
use super::mount_legacy::Mount;
use super::pipes;
use super::pipes::PipeTable;
use super::policy::DEFAULT_UNKNOWN_OPS;
use super::provider;
use super::provider::MountedFs;
use super::ramfs;
use super::ramfs::RamFs;
use super::rights;
use super::rights::{
    handle_rights_drop, handle_rights_get, normalize_sub_view, op_permitted, rights_subtree,
    within_subtree, RightsTable,
};
use super::rings;
use super::rings::Frame;
use crate::bytes;
use crate::bytes::{bytes_eq, copy_of, find_byte, is_utf8, read_le64, starts_with};
use crate::text;

verus! {

broadcast use vstd::std_specs::btree::group_btree_axioms;

// ── Requests ──

/// How long the payload of a request is; `None` for an operation that there
/// is not.
pub open spec fn payload_len(op: u32, w0: u64, w1: u64) -> Option<u64> {
    if op == R_OPEN || op == R_MKDIR || op == R_READDIR || op == R_REGISTER || op == R_MOUNT || op
        == R_UMOUNT || op == R_DELETE || op == R_STAT {
        Some(w0)
    } else if op == R_WRITE || op == R_RIGHTS_DROP {
        Some(w1)
    } else if op == R_LSEEK {
        Some(1)
    } else if op == R_DUP_CLAIM || op == R_DUP_CANCEL {
        Some(8)
    } else if op == R_PIPE_CREATE || op == R_READ || op == R_CLOSE || op == R_RIGHTS_GET || op
        == R_DUP_GRANT {
        Some(0)
    } else {
        None
    }
}

/// How long the payload of a request is.
pub fn expected_len(op: u32, w0: u64, w1: u64) -> (r: Option<u64>)
    ensures
        r == payload_len(op, w0, w1),
{
    if op == R_OPEN || op == R_MKDIR || op == R_READDIR || op == R_REGISTER || op == R_MOUNT || op
        == R_UMOUNT || op == R_DELETE || op == R_STAT {
        Some(w0)
    } else if op == R_WRITE || op == R_RIGHTS_DROP {
        Some(w1)
    } else if op == R_LSEEK {
        Some(1)
    } else if op == R_DUP_CLAIM || op == R_DUP_CANCEL {
        Some(8)
    } else if op == R_PIPE_CREATE || op == R_READ || op == R_CLOSE || op == R_RIGHTS_GET || op
        == R_DUP_GRANT {
        Some(0)
    } else {
        None
    }
}

/// What becomes of the first request in a ring.
#[derive(Clone, Copy, PartialEq, Eq, Debug, Structural)]
pub enum Verdict {
    /// It cannot be one, or it is not whole: the ring is emptied.
    Resync,
    /// The client has no right to it. It is taken out of the ring, with so
    /// many bytes of payload.
    Denied(usize),
    /// It is a write to a file of a driver: it stays in the ring, for the
    /// driver to take out.
    Forward,
    /// It is taken out of the ring, with so many bytes of payload, and served.
    Serve(usize),
}

/// The state of the server.
pub struct Server<B: BlockSource> {
    pub fs: RamFs,
    pub ftable: FileTable,
    pub pipes: PipeTable,
    pub grants: GrantTable,
    pub fat_mounts: Vec<FsMount<B>>,
    pub mounts: Vec<Mount>,
    pub rights: RightsTable,
    /// The most that the peer of a channel may do.
    pub policy: BTreeMap<u64, u32>,
    /// The rings of a channel: where they lie in memory.
    pub rings: BTreeMap<u64, (u64, u64)>,
    /// The generation of what is known of files on volumes.
    pub fat_gen: u64,
    pub next_mount_id: u64,
}

/// A request of a client.
pub enum Request {
    Open { path: Vec<u8>, flags: u64 },
    Read { fd: u32, count: usize },
    Write { fd: u32, count: usize, data: Vec<u8> },
    Close { fd: u32 },
    ReadDir { path: Vec<u8> },
    MkDir { path: Vec<u8> },
    Mount { spec: Vec<u8> },
    Umount { target: Vec<u8> },
    Delete { path: Vec<u8> },
    Stat { path: Vec<u8> },
    Seek { fd: u32, off: i64, whence: u64 },
    Grant { fd: u32 },
    Claim { nonce: u64 },
    Cancel { nonce: u64 },
    PipeCreate { hint: usize },
    RightsDrop { keep: u32, subtree: Vec<u8> },
    RightsGet,
    /// The code of the refusal.
    Invalid { code: u64 },
}

/// An operation whose payload is a text.
pub open spec fn takes_text(op: u32) -> bool {
    op == R_OPEN || op == R_READDIR || op == R_MKDIR || op == R_MOUNT || op == R_UMOUNT || op
        == R_DELETE || op == R_STAT
}

/// The path that a listing or a question is about: none means the root.
pub open spec fn or_root(path: Seq<u8>) -> Seq<u8> {
    if path.len() == 0 {
        seq![47u8]
    } else {
        path
    }
}

/// What a request asks for.
pub open spec fn decoded(req: Request, op: u32, w0: u64, w1: u64, payload: Seq<u8>) -> bool {
    let fd = w0 as u32;
    if takes_text(op) && !vstd::utf8::valid_utf8(payload) {
        req == (Request::Invalid { code: ERR_INVALID })
    } else if op == R_OPEN {
        req matches Request::Open { path, flags } && path@ == payload && flags == w1
    } else if op == R_READ {
        req == (Request::Read { fd, count: w1 as usize })
    } else if op == R_WRITE {
        req matches Request::Write { fd: f, count, data } && f == fd && count == w1 as usize
            && data@ == payload
    } else if op == R_CLOSE {
        req == (Request::Close { fd })
    } else if op == R_READDIR {
        req matches Request::ReadDir { path } && path@ == or_root(payload)
    } else if op == R_MKDIR {
        req matches Request::MkDir { path } && path@ == payload
    } else if op == R_MOUNT {
        req matches Request::Mount { spec } && spec@ == payload
    } else if op == R_UMOUNT {
        req matches Request::Umount { target } && target@ == payload
    } else if op == R_DELETE {
        req matches Request::Delete { path } && path@ == payload
    } else if op == R_STAT {
        req matches Request::Stat { path } && path@ == or_root(payload)
    } else if op == R_LSEEK {
        req matches Request::Seek { fd: f, off, whence } && f == fd && off == w1 as i64 && whence
            == (if payload.len() > 0 {
            payload[0] as u64
        } else {
            0xFF
        })
    } else if op == R_DUP_GRANT {
        req == (Request::Grant { fd })
    } else if op == R_DUP_CLAIM || op == R_DUP_CANCEL {
        if payload.len() < 8 {
            req == (Request::Invalid { code: ERR_INVALID })
        } else if op == R_DUP_CLAIM {
            req matches Request::Claim { nonce } && nonce == bytes::le_value(payload, 0, 8)
        } else {
            req matches Request::Cancel { nonce } && nonce == bytes::le_value(payload, 0, 8)
        }
    } else if op == R_PIPE_CREATE {
        req == (Request::PipeCreate { hint: w0 as usize })
    } else if op == R_RIGHTS_DROP {
        req matches Request::RightsDrop { keep, subtree } && keep == fd && subtree@ == payload
    } else if op == R_RIGHTS_GET {
        req == Request::RightsGet
    } else {
        req == (Request::Invalid { code: ERR })
    }
}

fn root_if_empty(payload: Vec<u8>) -> (r: Vec<u8>)
    ensures
        r@ == or_root(payload@),
{
    if payload.len() == 0 {
        let root: [u8; 1] = [47];
        assert(root@ =~= seq![47u8]);
        copy_of(root.as_slice())
    } else {
        payload
    }
}

/// What a request asks for.
pub fn decode(op: u32, w0: u64, w1: u64, payload: Vec<u8>) -> (r: Request)
    ensures
        decoded(r, op, w0, w1, payload@),
{
    let fd: u32 = w0 as u32;
    if op == R_OPEN || op == R_READDIR || op == R_MKDIR || op == R_MOUNT || op == R_UMOUNT || op
        == R_DELETE || op == R_STAT {
        if !is_utf8(&payload) {
            return Request::Invalid { code: ERR_INVALID };
        }
        return if op == R_OPEN {
            Request::Open { path: payload, flags: w1 }
        } else if op == R_READDIR {
            Request::ReadDir { path: root_if_empty(payload) }
        } else if op == R_MKDIR {
            Request::MkDir { path: payload }
        } else if op == R_MOUNT {
            Request::Mount { spec: payload }
        } else if op == R_UMOUNT {
            Request::Umount { target: payload }
        } else if op == R_DELETE {
            Request::Delete { path: payload }
        } else {
            Request::Stat { path: root_if_empty(payload) }
        };
    }
    if op == R_READ {
        Request::Read { fd, count: w1 as usize }
    } else if op == R_WRITE {
        Request::Write { fd, count: w1 as usize, data: payload }
    } else if op == R_CLOSE {
        Request::Close { fd }
    } else if op == R_LSEEK {
        let whence: u64 = if payload.len() > 0 {
            payload[0] as u64
        } else {
            0xFF
        };
        Request::Seek { fd, off: w1 as i64, whence }
    } else if op == R_DUP_GRANT {
        Request::Grant { fd }
    } else if op == R_DUP_CLAIM || op == R_DUP_CANCEL {
        if payload.len() < 8 {
            return Request::Invalid { code: ERR_INVALID };
        }
        let nonce: u64 = read_le64(&payload, 0);
        if op == R_DUP_CLAIM {
            Request::Claim { nonce }
        } else {
            Request::Cancel { nonce }
        }
    } else if op == R_PIPE_CREATE {
        Request::PipeCreate { hint: w0 as usize }
    } else if op == R_RIGHTS_DROP {
        Request::RightsDrop { keep: fd, subtree: payload }
    } else if op == R_RIGHTS_GET {
        Request::RightsGet
    } else {
        Request::Invalid { code: ERR }
    }
}

// ── The subtree of a client ──

/// A byte string without the zero bytes at its end.
pub open spec fn unterminated(s: Seq<u8>) -> Seq<u8>
    decreases s.len(),
{
    if s.len() > 0 && s.last() == 0 {
        unterminated(s.drop_last())
    } else {
        s
    }
}

/// The path that a request is about, as far as the subtree of the client goes.
/// What is malformed is left for the operation to refuse.
pub open spec fn guarded_path(op: u32, payload: Seq<u8>) -> Option<Seq<u8>> {
    if !takes_text(op) || !vstd::utf8::valid_utf8(payload) {
        None
    } else if op == R_MOUNT {
        let j = bytes::index_from(payload, 0, 0);
        if j < payload.len() {
            Some(unterminated(payload.skip(j + 1)))
        } else {
            None
        }
    } else {
        Some(payload)
    }
}

/// A request stays within the subtree of the client.
pub open spec fn in_subtree(sub: Seq<u8>, op: u32, payload: Seq<u8>) -> bool {
    match guarded_path(op, payload) {
        Some(p) => rights::inside(sub, rights::normal_sub(p)),
        None => true,
    }
}

fn trim_zeros(s: &[u8]) -> (r: &[u8])
    ensures
        r@ == unterminated(s@),
{
    let mut n: usize = s.len();
    assert(s@.take(n as int) =~= s@);
    while n > 0 && s[n - 1] == 0
        invariant
            n <= s@.len(),
            unterminated(s@) == unterminated(s@.take(n as int)),
        decreases n,
    {
        assert(s@.take(n as int).drop_last() =~= s@.take(n - 1));
        n -= 1;
    }
    let r: &[u8] = slice_subrange(s, 0, n);
    assert(r@ =~= s@.take(n as int));
    r
}

/// Whether a request stays within the subtree of the client.
pub fn subtree_ok(rights: &RightsTable, chan: u64, op: u32, payload: &[u8]) -> (r: bool)
    ensures
        r == in_subtree(rights::rights_of(rights@, chan).subtree, op, payload@),
{
    let text: bool = op == R_OPEN || op == R_READDIR || op == R_MKDIR || op == R_MOUNT || op
        == R_UMOUNT || op == R_DELETE || op == R_STAT;
    if !text || !is_utf8(payload) {
        return true;
    }
    let sub: Vec<u8> = rights_subtree(rights, chan);
    if op == R_MOUNT {
        let j: usize = find_byte(payload, 0, 0);
        if j >= payload.len() {
            return true;
        }
        let rest: &[u8] = slice_subrange(payload, j + 1, payload.len());
        assert(rest@ =~= payload@.skip(j + 1));
        return within_subtree(&sub, &normalize_sub_view(trim_zeros(rest)));
    }
    within_subtree(&sub, &normalize_sub_view(payload))
}

// ── Replies ──

/// What a request came to: the result, a second word, the response that is
/// written already, and the file of a driver that is to be closed.
pub struct Outcome {
    pub result: Result<u64, u64>,
    pub w1: u64,
    pub frame: Option<Frame>,
    pub told: Option<(u64, u32)>,
}

/// The response to a request: some operations make their own, or leave it to
/// a driver.
pub open spec fn response_to(op: u32, out: Outcome) -> Option<rings::FrameView> {
    if op == R_READ || op == R_READDIR || op == R_RIGHTS_GET || op == R_STAT {
        handlers::frame_view(out.frame)
    } else {
        Some(
            rings::FrameView {
                result: match out.result {
                    Ok(v) => v,
                    Err(e) => e,
                },
                w1: out.w1,
                payload: Seq::empty(),
            },
        )
    }
}

/// The response to a request, and the value of the reply.
pub fn finish(op: u32, out: Outcome) -> (r: (u64, Option<Frame>))
    ensures
        r.0 == (match out.result {
            Ok(v) => v,
            Err(e) => e,
        }),
        handlers::frame_view(r.1) == response_to(op, out),
{
    let v: u64 = to_reply_res(out.result);
    if op == R_READ || op == R_READDIR || op == R_RIGHTS_GET || op == R_STAT {
        (v, out.frame)
    } else {
        (v, Some(Frame { result: v, w1: out.w1, payload: Vec::new() }))
    }
}

// ── The server ──

/// What is known of the driver on a channel: whether it is gone, and whether
/// it runs the same image as the process that wants its place.
#[derive(Clone, Copy)]
pub struct DriverFact {
    pub chan: u64,
    pub gone: bool,
    pub same_image: bool,
}

/// What is known of the driver on a channel.
pub open spec fn fact_of(facts: Seq<DriverFact>, chan: u64) -> (bool, bool)
    decreases facts.len(),
{
    if facts.len() == 0 {
        (false, false)
    } else if facts[0].chan == chan {
        (facts[0].gone, facts[0].same_image)
    } else {
        fact_of(facts.skip(1), chan)
    }
}

fn find_fact(facts: &[DriverFact], chan: u64) -> (r: (bool, bool))
    ensures
        r == fact_of(facts@, chan),
{
    let mut i: usize = 0;
    assert(facts@.skip(0) =~= facts@);
    while i < facts.len()
        invariant
            i <= facts@.len(),
            fact_of(facts@, chan) == fact_of(facts@.skip(i as int), chan),
        decreases facts@.len() - i,
    {
        assert(facts@.skip(i as int).skip(1) =~= facts@.skip(i + 1));
        assert(facts@.skip(i as int)[0] == facts@[i as int]);
        if facts[i].chan == chan {
            return (facts[i].gone, facts[i].same_image);
        }
        i += 1;
    }
    (false, false)
}

/// The mount points of drivers, as values.
pub open spec fn mount_views(m: Seq<Mount>) -> Seq<(Seq<u8>, u64)> {
    Seq::new(m.len(), |i: int| (m[i].prefix@, m[i].driver_chan))
}

/// The channel of the driver that has a mount point.
pub open spec fn holder_of(m: Seq<(Seq<u8>, u64)>, prefix: Seq<u8>) -> Option<u64>
    decreases m.len(),
{
    if m.len() == 0 {
        None
    } else if m[0].0 == prefix {
        Some(m[0].1)
    } else {
        holder_of(m.skip(1), prefix)
    }
}

/// The mount points without one of them.
pub open spec fn without_prefix(m: Seq<(Seq<u8>, u64)>, prefix: Seq<u8>) -> Seq<(Seq<u8>, u64)>
    decreases m.len(),
{
    if m.len() == 0 {
        Seq::empty()
    } else {
        let r = without_prefix(m.drop_last(), prefix);
        if m.last().0 == prefix {
            r
        } else {
            r.push(m.last())
        }
    }
}

/// The mount points without those of a driver.
pub open spec fn without_driver(m: Seq<(Seq<u8>, u64)>, chan: u64) -> Seq<(Seq<u8>, u64)>
    decreases m.len(),
{
    if m.len() == 0 {
        Seq::empty()
    } else {
        let r = without_driver(m.drop_last(), chan);
        if m.last().1 == chan {
            r
        } else {
            r.push(m.last())
        }
    }
}

/// A mount point can be had: it lies below `/dev/`, and no other driver has it
/// that is still there and of another image, unless a child of init asks.
pub open spec fn may_register(
    m: Seq<(Seq<u8>, u64)>,
    prefix: Seq<u8>,
    init_child: bool,
    facts: Seq<DriverFact>,
) -> bool {
    &&& bytes::has_prefix(prefix, mount::dev_prefix())
    &&& match holder_of(m, prefix) {
        None => true,
        Some(c) => init_child || fact_of(facts, c).0 || fact_of(facts, c).1,
    }
}

/// The mount points after one was asked for.
pub open spec fn registered(
    m: Seq<(Seq<u8>, u64)>,
    prefix: Seq<u8>,
    chan: u64,
    init_child: bool,
    facts: Seq<DriverFact>,
) -> Seq<(Seq<u8>, u64)> {
    if prefix.len() > 0 && vstd::utf8::valid_utf8(prefix) && may_register(
        m,
        prefix,
        init_child,
        facts,
    ) {
        without_prefix(m, prefix).push((prefix, chan))
    } else {
        m
    }
}

/// The mount points after several were asked for, one after the other; zero
/// bytes stand between them.
pub open spec fn all_registered(
    m: Seq<(Seq<u8>, u64)>,
    payload: Seq<u8>,
    chan: u64,
    init_child: bool,
    facts: Seq<DriverFact>,
) -> Seq<(Seq<u8>, u64)>
    decreases payload.len(),
{
    let j = bytes::index_from(payload, 0, 0);
    if j < 0 || j >= payload.len() {
        registered(m, payload, chan, init_child, facts)
    } else {
        all_registered(
            registered(m, payload.take(j), chan, init_child, facts),
            payload.skip(j + 1),
            chan,
            init_child,
            facts,
        )
    }
}

/// The channel of the driver that has a mount point.
pub fn driver_at(mounts: &Vec<Mount>, prefix: &[u8]) -> (r: Option<u64>)
    ensures
        r == holder_of(mount_views(mounts@), prefix@),
{
    let ghost m = mount_views(mounts@);
    let mut i: usize = 0;
    assert(m.skip(0) =~= m);
    while i < mounts.len()
        invariant
            i <= mounts@.len(),
            m == mount_views(mounts@),
            holder_of(m, prefix@) == holder_of(m.skip(i as int), prefix@),
        decreases mounts@.len() - i,
    {
        assert(m.skip(i as int).skip(1) =~= m.skip(i + 1));
        assert(m.skip(i as int)[0] == m[i as int]);
        if bytes_eq(&mounts[i].prefix, prefix) {
            return Some(mounts[i].driver_chan);
        }
        i += 1;
    }
    None
}

/// Takes the mount points away that another has asked for, or whose driver is
/// gone.
fn drop_mounts(mounts: &mut Vec<Mount>, prefix: Option<&[u8]>, chan: u64)
    ensures
        mount_views(final(mounts)@) == (match prefix {
            Some(p) => without_prefix(mount_views(old(mounts)@), p@),
            None => without_driver(mount_views(old(mounts)@), chan),
        }),
{
    let ghost m = mount_views(mounts@);
    let mut kept: Vec<Mount> = Vec::new();
    let mut i: usize = 0;
    assert(m.take(0) =~= Seq::empty());
    assert(mount_views(kept@) =~= Seq::empty());
    while i < mounts.len()
        invariant
            i <= mounts@.len(),
            mounts@ == old(mounts)@,
            m == mount_views(mounts@),
            mount_views(kept@) == (match prefix {
                Some(p) => without_prefix(m.take(i as int), p@),
                None => without_driver(m.take(i as int), chan),
            }),
        decreases mounts@.len() - i,
    {
        let ghost k0 = mount_views(kept@);
        proof {
            assert(m.take(i + 1).drop_last() =~= m.take(i as int));
            assert(m.take(i + 1).last() == m[i as int]);
        }
        let gone: bool = match prefix {
            Some(p) => bytes_eq(&mounts[i].prefix, p),
            None => mounts[i].driver_chan == chan,
        };
        if !gone {
            kept.push(
                Mount { prefix: copy_of(&mounts[i].prefix), driver_chan: mounts[i].driver_chan },
            );
            assert(mount_views(kept@) =~= k0.push(m[i as int]));
        }
        i += 1;
    }
    assert(m.take(i as int) =~= m);
    *mounts = kept;
}

/// A driver asks for one mount point.
fn register_one(
    mounts: &mut Vec<Mount>,
    prefix: &[u8],
    chan: u64,
    init_child: bool,
    facts: &[DriverFact],
)
    ensures
        mount_views(final(mounts)@) == registered(
            mount_views(old(mounts)@),
            prefix@,
            chan,
            init_child,
            facts@,
        ),
{
    let dev: [u8; 5] = [47, 100, 101, 118, 47];
    assert(dev@ =~= mount::dev_prefix());
    if prefix.len() == 0 || !is_utf8(prefix) || !starts_with(prefix, dev.as_slice()) {
        return;
    }
    if let Some(c) = driver_at(mounts, prefix) {
        let (gone, same_image): (bool, bool) = find_fact(facts, c);
        if !init_child && !gone && !same_image {
            return;
        }
    }
    drop_mounts(mounts, Some(prefix), 0);
    let ghost m = mount_views(mounts@);
    mounts.push(Mount { prefix: copy_of(prefix), driver_chan: chan });
    assert(mount_views(mounts@) =~= m.push((prefix@, chan)));
}

/// A driver asks for mount points; zero bytes stand between them.
pub fn register_prefixes(
    mounts: &mut Vec<Mount>,
    payload: &[u8],
    chan: u64,
    init_child: bool,
    facts: &[DriverFact],
)
    ensures
        mount_views(final(mounts)@) == all_registered(
            mount_views(old(mounts)@),
            payload@,
            chan,
            init_child,
            facts@,
        ),
{
    let ghost goal = all_registered(
        mount_views(mounts@),
        payload@,
        chan,
        init_child,
        facts@,
    );
    let mut rest: &[u8] = payload;
    let mut more: bool = true;
    while more
        invariant
            more ==> goal == all_registered(
                mount_views(mounts@),
                rest@,
                chan,
                init_child,
                facts@,
            ),
            !more ==> goal == mount_views(mounts@),
        decreases
                if more {
                    rest@.len() + 1
                } else {
                    0
                },
    {
        let j: usize = find_byte(rest, 0, 0);
        let p: &[u8] = slice_subrange(rest, 0, j);
        proof {
            bytes::lemma_index_from(rest@, 0, 0);
            assert(p@ =~= rest@.take(j as int));
            if j == rest@.len() {
                assert(p@ =~= rest@);
            }
        }
        register_one(mounts, p, chan, init_child, facts);
        if j < rest.len() {
            let next: &[u8] = slice_subrange(rest, j + 1, rest.len());
            assert(next@ =~= rest@.skip(j + 1));
            rest = next;
        } else {
            more = false;
        }
    }
}

/// A driver that is there keeps its mount points: unless a child of init asks,
/// no process of another image gets one of them.
pub proof fn law_live_driver_keeps_mount(
    m: Seq<(Seq<u8>, u64)>,
    prefix: Seq<u8>,
    chan: u64,
    facts: Seq<DriverFact>,
    holder: u64,
)
    requires
        holder_of(m, prefix) == Some(holder),
        fact_of(facts, holder) == (false, false),
    ensures
        registered(m, prefix, chan, false, facts) == m,
{
}

/// What a process asks for outside `/dev/` it does not get.
pub proof fn law_mounts_only_below_dev(
    m: Seq<(Seq<u8>, u64)>,
    prefix: Seq<u8>,
    chan: u64,
    init_child: bool,
    facts: Seq<DriverFact>,
)
    requires
        !bytes::has_prefix(prefix, mount::dev_prefix()),
    ensures
        registered(m, prefix, chan, init_child, facts) == m,
{
}

/// What the system and the drivers answered while a request is served.
pub struct Outside<B: BlockSource> {
    pub answers: Answers<B>,
    /// The process on the channel of the client.
    pub peer: Option<i64>,
    pub parties: Parties,
}

/// The most that the peer of a channel may do.
pub open spec fn ceiling_at(policy: Map<u64, u32>, chan: u64) -> u32 {
    if policy.contains_key(chan) {
        policy[chan]
    } else {
        DEFAULT_UNKNOWN_OPS
    }
}

/// What becomes of the first request in a ring, which has `avail` bytes behind
/// its head.
pub open spec fn judged(
    rights: Map<u64, rights::RightsView>,
    ceiling: u32,
    fds: Map<(u64, u32), ftable::EntryView>,
    chan: u64,
    op: u32,
    w0: u64,
    w1: u64,
    avail: int,
) -> Verdict {
    match payload_len(op, w0, w1) {
        None => Verdict::Resync,
        Some(n) => if n > MAX_DATA || avail < n {
            Verdict::Resync
        } else if !rights::op_allowed(rights::rights_of(rights, chan), ceiling, op) {
            Verdict::Denied(n as usize)
        } else if op == R_WRITE && (ftable::entry_at(fds, chan, w0 as u32) matches Some(
            ftable::EntryView::Remote { .. },
        )) {
            Verdict::Forward
        } else {
            Verdict::Serve(n as usize)
        },
    }
}

/// Nothing but the descriptors, files and mounts may have changed.
pub open spec fn kept_tables<B: BlockSource>(a: Server<B>, b: Server<B>) -> bool {
    &&& b.mounts@ == a.mounts@
    &&& b.policy@ == a.policy@
    &&& b.rings@ == a.rings@
}

/// `UUID=4F4C4556`
pub open spec fn first_source() -> Seq<u8> {
    mount::uuid_prefix() + seq![52u8, 70, 52, 67, 52, 53, 53, 54]
}

/// `fat`
pub open spec fn first_target() -> Seq<u8> {
    seq![102u8, 97, 116]
}

proof fn lemma_first_mount()
    ensures
        mount::spec_of(first_source(), first_target()) == (mount::SpecView::Volume {
            target: first_target(),
            source: first_source(),
        }),
{
    let s = first_source();
    let t = first_target();
    reveal_with_fuel(bytes::index_from, 5);
    assert(text::all_ascii(t));
    assert(text::ascii_trimmed(t) == t);
    assert(dir::stripped(t) == t);
    assert(bytes::index_from(t, 0, 47) == 3);
    assert(t != seq![46u8] && t != seq![46u8, 46u8]) by {
        assert(t.len() == 3);
    }
    assert(mount::target_form(t) == Some(t));
    assert(s.len() == 13);
    assert(text::all_ascii(s));
    assert(text::ascii_trimmed(s) == s);
    assert(s != mount::ramfs_name()) by {
        assert(mount::ramfs_name().len() == 5);
    }
    assert(s[0] == 85);
    assert(mount::dev_prefix()[0] == 47);
    assert(!bytes::has_prefix(s, mount::dev_prefix())) by {
        if bytes::has_prefix(s, mount::dev_prefix()) {
            assert(s.take(5)[0] == mount::dev_prefix()[0]);
        }
    }
    assert(s.take(5) =~= mount::uuid_prefix());
    assert(bytes::has_prefix(s, mount::uuid_prefix()));
    assert(mount::source_form(s) == Some(s));
}

/// `hello.txt` and `test.txt`, with a line or three in them.
pub open spec fn first_files() -> ramfs::Tree {
    let mode = ramfs::new_file()->File_1;
    Map::empty().insert(
        seq![104u8, 101, 108, 108, 111, 46, 116, 120, 116],
        ramfs::NodeView::File(
            seq![
                72u8, 101, 108, 108, 111, 32, 102, 114, 111, 109, 32, 86, 101, 108, 111, 114, 100,
                111, 114, 32, 114, 97, 109, 102, 115, 33, 10,
            ],
            mode,
        ),
    ).insert(
        seq![116u8, 101, 115, 116, 46, 116, 120, 116],
        ramfs::NodeView::File(
            seq![
                76u8, 105, 110, 101, 32, 49, 10, 76, 105, 110, 101, 32, 50, 10, 76, 105, 110, 101,
                32, 51, 10,
            ],
            mode,
        ),
    )
}

impl<B: BlockSource> Server<B> {
    pub open spec fn wf(&self) -> bool {
        &&& self.fs.wf()
        &&& self.ftable.wf()
        &&& self.pipes.wf()
        &&& mount::mounts_ready(self.fat_mounts@)
    }

    /// Starts the server: the volume that is mounted on every start, if its
    /// disk is there, and two files in memory.
    pub fn start(disk: Option<B>) -> (r: Server<B>)
        ensures
            r.wf(),
            r.ftable@ == Map::<(u64, u32), ftable::EntryView>::empty(),
            r.pipes@ == Map::<u32, pipes::PipeView>::empty(),
            r.grants@ == Map::<u64, dup::GrantView>::empty(),
            r.rights@ == Map::<u64, rights::RightsView>::empty(),
            r.policy@ == Map::<u64, u32>::empty(),
            r.rings@ == Map::<u64, (u64, u64)>::empty(),
            r.mounts@.len() == 0,
            r.fat_gen == 1,
            forall|c: u64| r.ftable.next_fd(c) == 1,
            r.pipes.next_id() == 1,
            r.grants.counter() == 1,
            r.fs@ == first_files(),
            match disk {
                Some(d) => {
                    &&& r.fat_mounts@.len() == 1
                    &&& r.fat_mounts@[0].id == 1
                    &&& r.fat_mounts@[0].target@ == first_target()
                    &&& r.fat_mounts@[0].source@ == first_source()
                    &&& r.fat_mounts@[0].opts@.len() == 0
                    &&& r.fat_mounts@[0].fstype == provider::FsType::Vfat
                    &&& provider::mounted_from(d, r.fat_mounts@[0].fs)
                    &&& r.next_mount_id == 2
                },
                None => r.fat_mounts@.len() == 0 && r.next_mount_id == 1,
            },
    {
        let mut fat_mounts: Vec<FsMount<B>> = Vec::new();
        let mut next_mount_id: u64 = 1;
        let (source, target): (Vec<u8>, Vec<u8>) = static_mount();
        let none: [u8; 0] = [];
        proof {
            lemma_first_mount();
        }
        let _active: bool = apply_mount_spec(
            &mut fat_mounts,
            &source,
            &target,
            none.as_slice(),
            &mut next_mount_id,
            disk,
        );
        let mut fs = RamFs::new();
        let hello: [u8; 9] = [104, 101, 108, 108, 111, 46, 116, 120, 116];
        let test: [u8; 8] = [116, 101, 115, 116, 46, 116, 120, 116];
        let greeting: [u8; 27] = [
            72, 101, 108, 108, 111, 32, 102, 114, 111, 109, 32, 86, 101, 108, 111, 114, 100, 111,
            114, 32, 114, 97, 109, 102, 115, 33, 10,
        ];
        let lines: [u8; 21] = [
            76, 105, 110, 101, 32, 49, 10, 76, 105, 110, 101, 32, 50, 10, 76, 105, 110, 101, 32,
            51, 10,
        ];
        if let Some(data) = fs.create_file(hello.as_slice()) {
            bytes::append_bytes(data, greeting.as_slice());
        }
        if let Some(data) = fs.create_file(test.as_slice()) {
            bytes::append_bytes(data, lines.as_slice());
        }
        let r = Server {
            fs,
            ftable: FileTable::new(),
            pipes: PipeTable::new(),
            grants: GrantTable::new(),
            fat_mounts,
            mounts: Vec::new(),
            rights: RightsTable::new(),
            policy: BTreeMap::new(),
            rings: BTreeMap::new(),
            fat_gen: 1,
            next_mount_id,
        };
        r
    }

    /// A client tells where its rings are; `ceiling` is the most that its
    /// process may do.
    pub fn register_rings(&mut self, chan: u64, req: u64, resp: u64, ceiling: u32)
        requires
            old(self).wf(),
        ensures
            final(self).wf(),
            final(self).rings@ == old(self).rings@.insert(chan, (req, resp)),
            final(self).policy@ == old(self).policy@.insert(chan, ceiling),
            *final(self) == (Server {
                rings: final(self).rings,
                policy: final(self).policy,
                ..*old(self)
            }),
    {
        self.rings.insert(chan, (req, resp));
        self.policy.insert(chan, ceiling);
    }

    /// Where the rings of a client are.
    pub fn rings_of(&self, chan: u64) -> (r: Option<(u64, u64)>)
        ensures
            r == (if self.rings@.contains_key(chan) {
                Some(self.rings@[chan])
            } else {
                None
            }),
    {
        match self.rings.get(&chan) {
            Some(x) => Some(*x),
            None => None,
        }
    }

    /// The most that the peer of a channel may do.
    pub fn ceiling(&self, chan: u64) -> (r: u32)
        ensures
            r == ceiling_at(self.policy@, chan),
    {
        match self.policy.get(&chan) {
            Some(c) => *c,
            None => DEFAULT_UNKNOWN_OPS,
        }
    }

    /// What becomes of the first request in a ring, which has `avail` bytes
    /// behind its head.
    pub fn judge(&self, chan: u64, op: u32, w0: u64, w1: u64, avail: usize) -> (r: Verdict)
        requires
            self.wf(),
        ensures
            r == judged(
                self.rights@,
                ceiling_at(self.policy@, chan),
                self.ftable@,
                chan,
                op,
                w0,
                w1,
                avail as int,
            ),
    {
        let n: u64 = match expected_len(op, w0, w1) {
            Some(n) => n,
            None => {
                return Verdict::Resync;
            },
        };
        if n > MAX_DATA as u64 || (avail as u64) < n {
            return Verdict::Resync;
        }
        if !op_permitted(&self.rights, chan, self.ceiling(chan), op) {
            return Verdict::Denied(n as usize);
        }
        if op == R_WRITE && self.ftable.get_remote(chan, w0 as u32).is_some() {
            return Verdict::Forward;
        }
        Verdict::Serve(n as usize)
    }

    /// The peer of a channel is gone: everything that it had goes with it. A
    /// volume whose disk talked to it becomes inactive; `lost` tells which.
    /// The files of drivers that are to be closed are returned.
    pub fn peer_died(&mut self, chan: u64, lost: &Vec<bool>) -> (r: Vec<(u64, u32)>)
        requires
            old(self).wf(),
            lost@.len() == old(self).fat_mounts@.len(),
        ensures
            final(self).wf(),
            r@ == ftable::remotes_in(old(self).ftable.of_chan(chan)),
            forall|k: (u64, u32)| #[trigger]
                final(self).ftable@.contains_key(k) == (old(self).ftable@.contains_key(k) && k.0
                    != chan),
            forall|k: (u64, u32)| #[trigger]
                final(self).ftable@.contains_key(k) ==> final(self).ftable@[k] == old(
                    self,
                ).ftable@[k],
            exists|ns: Seq<u64>| #[trigger]
                dup::given_on(old(self).grants@, chan, ns) && final(self).pipes@ == dup::released(
                    ends_closed(
                        old(self).pipes@,
                        ftable::pipe_ends_in(old(self).ftable.of_chan(chan)),
                    ),
                    old(self).grants@,
                    ns,
                ),
            forall|n: u64| #[trigger]
                final(self).grants@.contains_key(n) == (old(self).grants@.contains_key(n) && old(
                    self,
                ).grants@[n].chan != chan),
            forall|n: u64| #[trigger]
                final(self).grants@.contains_key(n) ==> final(self).grants@[n] == old(
                    self,
                ).grants@[n],
            final(self).grants.counter() == old(self).grants.counter(),
            final(self).pipes.next_id() == old(self).pipes.next_id(),
            forall|c: u64| #[trigger]
                final(self).ftable.next_fd(c) == (if c == chan {
                    1u32
                } else {
                    old(self).ftable.next_fd(c)
                }),
            final(self).rings@ == old(self).rings@.remove(chan),
            final(self).rights@ == old(self).rights@.remove(chan),
            final(self).policy@ == old(self).policy@.remove(chan),
            mount_views(final(self).mounts@) == without_driver(
                mount_views(old(self).mounts@),
                chan,
            ),
            final(self).fs@ == old(self).fs@,
            dropped_volumes(old(self).fat_mounts@, final(self).fat_mounts@, lost@),
            final(self).fat_gen == (if exists|i: int|
                0 <= i < lost@.len() && #[trigger] drops(old(self).fat_mounts@[i], lost@[i]) {
                mount::bumped(old(self).fat_gen)
            } else {
                old(self).fat_gen
            }),
            final(self).next_mount_id == old(self).next_mount_id,
    {
        let mut remotes: Vec<(u64, u32)> = Vec::new();
        let mut ends: Vec<(u32, bool)> = Vec::new();
        let ghost of = self.ftable.of_chan(chan);
        self.ftable.purge(chan, &mut remotes, &mut ends);
        proof {
            assert(remotes@ =~= ftable::remotes_in(of));
            assert(ends@ =~= ftable::pipe_ends_in(of));
            assert(ends@.take(0) =~= Seq::empty());
        }
        let mut i: usize = 0;
        while i < ends.len()
            invariant
                i <= ends@.len(),
                self.wf(),
                self.pipes@ == ends_closed(old(self).pipes@, ends@.take(i as int)),
                self.pipes.next_id() == old(self).pipes.next_id(),
                forall|c: u64| #[trigger]
                    self.ftable.next_fd(c) == (if c == chan {
                        1u32
                    } else {
                        old(self).ftable.next_fd(c)
                    }),
                *self == (Server { pipes: self.pipes, ftable: self.ftable, ..*old(self) }),
                forall|k: (u64, u32)| #[trigger]
                    self.ftable@.contains_key(k) == (old(self).ftable@.contains_key(k) && k.0
                        != chan),
                forall|k: (u64, u32)| #[trigger]
                    self.ftable@.contains_key(k) ==> self.ftable@[k] == old(self).ftable@[k],
            decreases ends@.len() - i,
        {
            proof {
                assert(ends@.take(i + 1).drop_last() =~= ends@.take(i as int));
                assert(ends@.take(i + 1).last() == ends@[i as int]);
            }
            let (id, write): (u32, bool) = ends[i];
            self.pipes.end_closed(id, write);
            i += 1;
        }
        assert(ends@.take(i as int) =~= ends@);
        self.rings.remove(&chan);
        self.rights.forget(chan);
        self.policy.remove(&chan);
        self.grants.purge_registrant(chan, &mut self.pipes);
        drop_mounts(&mut self.mounts, None, chan);
        if drop_volumes(&mut self.fat_mounts, lost) {
            self.fat_gen = self.fat_gen.wrapping_add(1);
        }
        remotes
    }
}

/// A volume becomes inactive.
pub open spec fn drops<B: BlockSource>(m: FsMount<B>, lost: bool) -> bool {
    lost && (m.fs matches MountedFs::Fat(Some(_)))
}

/// The volumes whose disks are lost become inactive.
pub open spec fn dropped_volumes<B: BlockSource>(
    before: Seq<FsMount<B>>,
    after: Seq<FsMount<B>>,
    lost: Seq<bool>,
) -> bool {
    &&& after.len() == before.len()
    &&& forall|i: int|
        0 <= i < before.len() ==> (#[trigger] after[i]) == (if drops(before[i], lost[i]) {
            FsMount { fs: MountedFs::Fat(None), ..before[i] }
        } else {
            before[i]
        })
}

fn drop_volumes<B: BlockSource>(mounts: &mut Vec<FsMount<B>>, lost: &Vec<bool>) -> (any: bool)
    requires
        lost@.len() == old(mounts)@.len(),
        mount::mounts_ready(old(mounts)@),
    ensures
        mount::mounts_ready(final(mounts)@),
        dropped_volumes(old(mounts)@, final(mounts)@, lost@),
        any == exists|i: int|
            0 <= i < lost@.len() && #[trigger] drops(old(mounts)@[i], lost@[i]),
{
    let mut any: bool = false;
    let mut i: usize = 0;
    while i < mounts.len()
        invariant
            i <= mounts@.len(),
            mounts@.len() == old(mounts)@.len(),
            lost@.len() == mounts@.len(),
            mount::mounts_ready(mounts@),
            forall|k: int|
                0 <= k < mounts@.len() ==> (#[trigger] mounts@[k]) == (if k < i && drops(
                    old(mounts)@[k],
                    lost@[k],
                ) {
                    FsMount { fs: MountedFs::Fat(None), ..old(mounts)@[k] }
                } else {
                    old(mounts)@[k]
                }),
            any == exists|k: int| 0 <= k < i && #[trigger] drops(old(mounts)@[k], lost@[k]),
        decreases mounts@.len() - i,
    {
        let gone: bool = lost[i];
        let ghost m0 = mounts@;
        assert(mounts@[i as int] == old(mounts)@[i as int]);
        let dropped: bool = mounts[i].note_peer_death(gone);
        assert(dropped == drops(old(mounts)@[i as int], lost@[i as int]));
        assert(mounts@ == m0.update(i as int, mounts@[i as int]));
        if dropped {
            any = true;
        }
        i += 1;
    }
    any
}

/// The pipes once ends of them are closed, one after the other.
pub open spec fn ends_closed(p: Map<u32, pipes::PipeView>, ends: Seq<(u32, bool)>) -> Map<
    u32,
    pipes::PipeView,
>
    decreases ends.len(),
{
    if ends.len() == 0 {
        p
    } else {
        pipes::after_close(
            ends_closed(p, ends.drop_last()),
            ends.last().0,
            ends.last().1,
        )
    }
}

// ── Serving ──

/// There is room for what a request makes.
pub open spec fn roomy<B: BlockSource>(s: Server<B>, chan: u64, req: Request) -> bool {
    match req {
        Request::Open { .. } => s.ftable.next_fd(chan) < u32::MAX,
        Request::Claim { .. } => s.ftable.next_fd(chan) < u32::MAX,
        Request::PipeCreate { .. } => s.ftable.next_fd(chan) < u32::MAX - 1 && s.pipes.has_room(),
        Request::Grant { fd } => s.grants.has_room() && dup::countable(
            ftable::entry_at(s.ftable@, chan, fd),
            s.pipes@,
        ),
        _ => true,
    }
}

/// The files, descriptors and pipes of two states are the same.
pub open spec fn same_files<B: BlockSource>(a: Server<B>, b: Server<B>) -> bool {
    b.fs@ == a.fs@ && b.ftable@ == a.ftable@ && b.pipes@ == a.pipes@
}

/// The mounted file systems of two states are the same.
pub open spec fn same_mounts<B: BlockSource>(a: Server<B>, b: Server<B>) -> bool {
    b.fat_mounts@ == a.fat_mounts@ && b.fat_gen == a.fat_gen
}

/// The tables of two states that few requests touch are the same.
pub open spec fn same_grants<B: BlockSource>(a: Server<B>, b: Server<B>) -> bool {
    b.grants@ == a.grants@ && b.rights@ == a.rights@ && b.next_mount_id == a.next_mount_id
}

/// How many numbers of descriptors a request takes.
pub open spec fn numbers_taken(req: Request, result: Result<u64, u64>) -> int {
    match req {
        Request::Open { .. } | Request::Claim { .. } => if result is Ok {
            1
        } else {
            0
        },
        Request::PipeCreate { .. } => 2,
        _ => 0,
    }
}

/// How a request moves the counters that numbers come of. `peer` is the process
/// that asks.
pub open spec fn counted<B: BlockSource>(
    a: Server<B>,
    b: Server<B>,
    chan: u64,
    req: Request,
    peer: Option<i64>,
    result: Result<u64, u64>,
) -> bool {
    &&& ftable::numbered(a.ftable, b.ftable, chan, numbers_taken(req, result))
    &&& if req is Grant && result is Ok {
        exists|k: nat| #[trigger]
            dup::nonce_at(
                a.grants@,
                a.grants.counter(),
                peer->0 as u32,
                k,
                result->Ok_0,
                b.grants.counter(),
            )
    } else {
        b.grants.counter() == a.grants.counter()
    }
}

/// What a request does to the state `a`, which becomes `b`, and what comes of it.
pub open spec fn served<B: BlockSource>(
    a: Server<B>,
    b: Server<B>,
    chan: u64,
    req: Request,
    has_ring: bool,
    o: Outside<B>,
    out: Outcome,
) -> bool {
    let tree = (a.fs@, b.fs@);
    let tabs = (a.ftable@, b.ftable@);
    let next = a.ftable.next_fd(chan);
    let ps = (a.pipes@, b.pipes@);
    let gs = (a.grants@, b.grants@);
    let ms = (a.fat_mounts@, b.fat_mounts@);
    let gens = (a.fat_gen, b.fat_gen);
    let frame = handlers::frame_view(out.frame);
    let plain = out.w1 == 0 && out.frame is None && out.told is None;
    counted(a, b, chan, req, o.peer, out.result) && match req {
        Request::Open { path, flags } => plain && b.pipes@ == a.pipes@ && same_grants(a, b)
            && handlers::open_done(
            tree,
            tabs,
            next,
            ms,
            a.mounts@,
            chan,
            flags,
            path@,
            gens,
            o.answers,
            out.result,
        ),
        Request::Read { fd, count } => out.w1 == 0 && out.told is None && b.fs@ == a.fs@
            && same_grants(a, b) && handlers::fd_read_done(
            tree,
            tabs,
            ps,
            ms,
            has_ring,
            chan,
            fd,
            count,
            gens,
            o.answers.disk,
            o.answers.reply,
            out.result,
            frame,
        ),
        Request::Write { fd, count, data } => plain && same_grants(a, b)
            && handlers::fd_write_done(
            tree,
            tabs,
            ps,
            ms,
            chan,
            fd,
            count,
            data@,
            gens,
            o.answers.disk,
            out.result,
        ),
        Request::Close { fd } => out.w1 == 0 && out.frame is None && b.fs@ == a.fs@ && same_mounts(
            a,
            b,
        ) && same_grants(a, b) && handlers::close_done(tabs, ps, chan, fd, out.result, out.told),
        Request::ReadDir { path } => out.w1 == 0 && out.told is None && same_files(a, b)
            && same_grants(a, b) && handlers::readdir_done(
            tree,
            ms,
            a.mounts@,
            has_ring,
            path@,
            gens,
            o.answers.disk,
            o.answers.reply,
            out.result,
            frame,
        ),
        Request::MkDir { path } => plain && b.ftable@ == a.ftable@ && b.pipes@ == a.pipes@
            && same_grants(a, b) && handlers::mkdir_done(
            tree,
            ms,
            path@,
            gens,
            o.answers.disk,
            out.result,
        ),
        Request::Mount { spec } => plain && same_files(a, b) && b.grants@ == a.grants@ && b.rights@
            == a.rights@ && handlers::mount_done(
            ms,
            spec@,
            gens,
            (a.next_mount_id, b.next_mount_id),
            o.answers.disk,
            out.result,
        ),
        Request::Umount { target } => plain && same_files(a, b) && same_grants(a, b)
            && handlers::umount_done(ms, a.ftable@, target@, gens, out.result),
        Request::Delete { path } => plain && b.ftable@ == a.ftable@ && b.pipes@ == a.pipes@
            && same_grants(a, b) && handlers::delete_done(
            tree,
            ms,
            a.mounts@,
            path@,
            gens,
            o.answers.disk,
            out.result,
        ),
        Request::Stat { path } => out.w1 == 0 && out.told is None && same_files(a, b)
            && same_grants(a, b) && handlers::path_stat_done(
            tree,
            ms,
            a.mounts@,
            has_ring,
            path@,
            gens,
            o.answers.disk,
            out.result,
            frame,
        ),
        Request::Seek { fd, off, whence } => plain && b.fs@ == a.fs@ && b.pipes@ == a.pipes@
            && same_grants(a, b) && handlers::lseek_done(
            a.fs@,
            tabs,
            ms,
            chan,
            fd,
            off,
            whence,
            gens,
            o.answers.disk,
            out.result,
        ),
        Request::Grant { fd } => plain && b.fs@ == a.fs@ && b.ftable@ == a.ftable@ && same_mounts(
            a,
            b,
        ) && b.rights@ == a.rights@ && b.next_mount_id == a.next_mount_id && dup::grant_done(
            a.ftable@,
            gs,
            ps,
            chan,
            fd,
            o.peer,
            out.result,
        ),
        Request::Claim { nonce } => plain && b.fs@ == a.fs@ && b.pipes@ == a.pipes@ && same_mounts(
            a,
            b,
        ) && b.rights@ == a.rights@ && b.next_mount_id == a.next_mount_id && dup::claim_done(
            tabs,
            next,
            gs,
            chan,
            nonce,
            o.parties,
            out.result,
        ),
        Request::Cancel { nonce } => plain && b.fs@ == a.fs@ && b.ftable@ == a.ftable@
            && same_mounts(a, b) && b.rights@ == a.rights@ && b.next_mount_id == a.next_mount_id
            && dup::cancel_done(gs, ps, nonce, out.result),
        Request::PipeCreate { hint } => out.frame is None && out.told is None && b.fs@ == a.fs@
            && same_mounts(a, b) && same_grants(a, b) && handlers::pipe_created(
            tabs,
            next,
            ps,
            chan,
            hint,
            Ok((next as u64, out.w1)),
        ) && out.result == Ok::<u64, u64>(next as u64),
        Request::RightsDrop { keep, subtree } => plain && same_files(a, b) && same_mounts(a, b)
            && b.grants@ == a.grants@ && b.next_mount_id == a.next_mount_id
            && match rights::dropped(
            rights::rights_of(a.rights@, chan),
            keep,
            subtree@,
            ceiling_at(a.policy@, chan),
        ) {
            Some(n) => out.result == Ok::<u64, u64>(0) && b.rights@ == a.rights@.insert(chan, n),
            None => out.result == Err::<u64, u64>(ERR) && b.rights@ == a.rights@,
        },
        Request::RightsGet => {
            let v = rights::rights_of(a.rights@, chan);
            let ops = v.ops & ceiling_at(a.policy@, chan);
            &&& out.w1 == 0
            &&& out.told is None
            &&& same_files(a, b)
            &&& same_mounts(a, b)
            &&& same_grants(a, b)
            &&& out.result == Ok::<u64, u64>(ops as u64)
            &&& frame == handlers::framed(
                has_ring,
                ops as u64,
                v.subtree.len() as u64,
                v.subtree,
            )
        },
        Request::Invalid { code } => plain && same_files(a, b) && same_mounts(a, b) && same_grants(
            a,
            b,
        ) && out.result == Err::<u64, u64>(code),
    }
}

fn just(result: Result<u64, u64>) -> (r: Outcome)
    ensures
        r.result == result,
        r.w1 == 0,
        r.frame is None,
        r.told is None,
{
    Outcome { result, w1: 0, frame: None, told: None }
}

fn with_frame(x: (Result<u64, u64>, Option<Frame>)) -> (r: Outcome)
    ensures
        r.result == x.0,
        r.w1 == 0,
        r.frame == x.1,
        r.told is None,
{
    Outcome { result: x.0, w1: 0, frame: x.1, told: None }
}

impl<B: BlockSource> Server<B> {
    /// Whether there is room for what a request makes.
    pub fn has_room(&self, chan: u64, req: &Request) -> (r: bool)
        requires
            self.wf(),
        ensures
            r == roomy(*self, chan, *req),
    {
        match req {
            Request::Open { .. } => self.ftable.peek_fd(chan) < u32::MAX,
            Request::Claim { .. } => self.ftable.peek_fd(chan) < u32::MAX,
            Request::PipeCreate { .. } => self.ftable.peek_fd(chan) < u32::MAX - 1
                && self.pipes.can_create(),
            Request::Grant { fd } => self.grants.can_insert() && match self.ftable.get_pipe(
                chan,
                *fd,
            ) {
                Some((id, _)) => self.pipes.can_open(id),
                None => true,
            },
            _ => true,
        }
    }

    /// Serves a request.
    #[verifier::rlimit(60)]
    pub fn serve(&mut self, chan: u64, req: Request, has_ring: bool, o: Outside<B>) -> (out:
        Outcome)
        requires
            old(self).wf(),
            roomy(*old(self), chan, req),
        ensures
            final(self).wf(),
            kept_tables(*old(self), *final(self)),
            served(*old(self), *final(self), chan, req, has_ring, o, out),
    {
        match req {
            Request::Open { path, flags } => just(
                handle_open(
                    &mut self.fs,
                    &mut self.ftable,
                    &mut self.fat_mounts,
                    &self.mounts,
                    chan,
                    flags,
                    &path,
                    &mut self.fat_gen,
                    o.answers,
                ),
            ),
            Request::Read { fd, count } => with_frame(
                handle_read(
                    &mut self.fs,
                    &mut self.ftable,
                    &mut self.pipes,
                    &mut self.fat_mounts,
                    has_ring,
                    chan,
                    fd,
                    count,
                    &mut self.fat_gen,
                    o.answers.disk,
                    o.answers.reply,
                ),
            ),
            Request::Write { fd, count, data } => just(
                handle_write_local(
                    &mut self.fs,
                    &mut self.ftable,
                    &mut self.pipes,
                    &mut self.fat_mounts,
                    chan,
                    fd,
                    count,
                    &data,
                    &mut self.fat_gen,
                    o.answers.disk,
                ),
            ),
            Request::Close { fd } => {
                let (result, told): (Result<u64, u64>, Option<(u64, u32)>) = handle_close(
                    &mut self.ftable,
                    &mut self.pipes,
                    chan,
                    fd,
                );
                Outcome { result, w1: 0, frame: None, told }
            },
            Request::ReadDir { path } => with_frame(
                handle_readdir(
                    &mut self.fs,
                    &mut self.fat_mounts,
                    &self.mounts,
                    has_ring,
                    &path,
                    &mut self.fat_gen,
                    o.answers.disk,
                    o.answers.reply,
                ),
            ),
            Request::MkDir { path } => just(
                handle_mkdir(
                    &mut self.fs,
                    &mut self.fat_mounts,
                    &path,
                    &mut self.fat_gen,
                    o.answers.disk,
                ),
            ),
            Request::Mount { spec } => just(
                handle_mount(
                    &mut self.fat_mounts,
                    &spec,
                    &mut self.fat_gen,
                    &mut self.next_mount_id,
                    o.answers.disk,
                ),
            ),
            Request::Umount { target } => just(
                handle_umount(&mut self.fat_mounts, &self.ftable, &target, &mut self.fat_gen),
            ),
            Request::Delete { path } => just(
                handle_delete(
                    &mut self.fs,
                    &mut self.fat_mounts,
                    &self.mounts,
                    &path,
                    &mut self.fat_gen,
                    o.answers.disk,
                ),
            ),
            Request::Stat { path } => with_frame(
                handle_stat(
                    &mut self.fs,
                    &mut self.fat_mounts,
                    &self.mounts,
                    has_ring,
                    &path,
                    &mut self.fat_gen,
                    o.answers.disk,
                ),
            ),
            Request::Seek { fd, off, whence } => just(
                handle_lseek(
                    &self.fs,
                    &mut self.ftable,
                    &mut self.fat_mounts,
                    chan,
                    fd,
                    off,
                    whence,
                    &mut self.fat_gen,
                    o.answers.disk,
                ),
            ),
            Request::Grant { fd } => just(
                handle_grant(&self.ftable, &mut self.grants, &mut self.pipes, chan, fd, o.peer),
            ),
            Request::Claim { nonce } => just(
                handle_claim(&mut self.ftable, &mut self.grants, chan, nonce, o.parties),
            ),
            Request::Cancel { nonce } => just(
                handle_cancel(&mut self.grants, &mut self.pipes, chan, nonce),
            ),
            Request::PipeCreate { hint } => match handle_pipe_create(
                &mut self.ftable,
                &mut self.pipes,
                chan,
                hint,
            ) {
                Ok((r, w)) => Outcome { result: Ok(r), w1: w, frame: None, told: None },
                Err(e) => just(Err(e)),
            },
            Request::RightsDrop { keep, subtree } => {
                let ceiling: u32 = self.ceiling(chan);
                match handle_rights_drop(&mut self.rights, chan, keep, &subtree, ceiling) {
                    Some(v) => just(Ok(v)),
                    None => just(Err(ERR)),
                }
            },
            Request::RightsGet => {
                let (ops, sub): (u32, Vec<u8>) = handle_rights_get(
                    &self.rights,
                    chan,
                    self.ceiling(chan),
                );
                let n: u64 = sub.len() as u64;
                let frame: Option<Frame> = if has_ring {
                    Some(Frame { result: ops as u64, w1: n, payload: sub })
                } else {
                    None
                };
                with_frame((Ok(ops as u64), frame))
            },
            Request::Invalid { code } => just(Err(code)),
        }
    }

    /// Forwards a write to the driver whose file it goes to; `reply` is its
    /// answer.
    pub fn forward(&self, chan: u64, fd: u32, has_ring: bool, reply: Option<u64>) -> (out: Outcome)
        requires
            self.wf(),
        ensures
            out.w1 == 0,
            out.frame is None,
            out.told is None,
            out.result == (match ftable::entry_at(self.ftable@, chan, fd) {
                Some(ftable::EntryView::Remote { .. }) => if has_ring && reply is Some {
                    Ok::<u64, u64>(reply->0)
                } else {
                    Err(ERR)
                },
                _ => Err(ERR_INVALID),
            }),
    {
        just(handle_write_remote(&self.ftable, has_ring, chan, fd, reply))
    }
}

/// The number of a descriptor is not given out twice while the peer of its
/// channel lives: after a request that took numbers, whatever else was served,
/// the next number of the channel is behind them.
pub proof fn law_number_is_not_given_twice<B: BlockSource>(
    a: Server<B>,
    b: Server<B>,
    c: Server<B>,
    chan: u64,
    req: Request,
    has_ring: bool,
    o: Outside<B>,
    out: Outcome,
    chan2: u64,
    req2: Request,
    has_ring2: bool,
    o2: Outside<B>,
    out2: Outcome,
)
    requires
        served(a, b, chan, req, has_ring, o, out),
        served(b, c, chan2, req2, has_ring2, o2, out2),
    ensures
        b.ftable.next_fd(chan) == a.ftable.next_fd(chan) + numbers_taken(req, out.result),
        c.ftable.next_fd(chan) >= b.ftable.next_fd(chan),
{
}

/// A request that a channel has no right to is never served, and neither is
/// one that it gave up the right to.
pub proof fn law_denied_is_not_served(
    rights: Map<u64, rights::RightsView>,
    ceiling: u32,
    fds: Map<(u64, u32), ftable::EntryView>,
    chan: u64,
    op: u32,
    w0: u64,
    w1: u64,
    avail: int,
)
    requires
        !rights::op_allowed(rights::rights_of(rights, chan), ceiling, op),
    ensures
        !(judged(rights, ceiling, fds, chan, op, w0, w1, avail) is Serve),
        !(judged(rights, ceiling, fds, chan, op, w0, w1, avail) is Forward),
{
}

/// A request that is served leaves exactly what follows it in the ring: as
/// many bytes are taken out as it announces, and so many are there.
pub proof fn law_served_frame_is_whole(
    rights: Map<u64, rights::RightsView>,
    ceiling: u32,
    fds: Map<(u64, u32), ftable::EntryView>,
    chan: u64,
    op: u32,
    w0: u64,
    w1: u64,
    avail: int,
)
    ensures
        judged(rights, ceiling, fds, chan, op, w0, w1, avail) matches Verdict::Serve(n)
            ==> payload_len(op, w0, w1) == Some(n as u64) && n <= avail && n <= MAX_DATA,
        judged(rights, ceiling, fds, chan, op, w0, w1, avail) matches Verdict::Denied(n)
            ==> payload_len(op, w0, w1) == Some(n as u64) && n <= avail && n <= MAX_DATA,
{
}

} // verus!
