//! What a channel may do. A channel can only give rights up: it keeps a set of
//! operations and a subtree, and every change makes them smaller.
use std::collections::BTreeMap;
use vstd::prelude::*;

use super::codes::{
    RIGHTS_ALL, RIGHTS_DELETE, RIGHTS_GRANT, RIGHTS_MKDIR, RIGHTS_MOUNT, RIGHTS_OPEN, RIGHTS_PIPE,
    RIGHTS_READ, RIGHTS_READDIR, RIGHTS_SEEK, RIGHTS_UMOUNT, RIGHTS_WRITE, R_DELETE, R_DUP_GRANT,
    R_LSEEK, R_MKDIR, R_MOUNT, R_OPEN, R_PIPE_CREATE, R_READ, R_READDIR, R_STAT, R_UMOUNT, R_WRITE,
};
use super::fat32::dir;
use super::fat32::dir::strip_slashes;
use super::policy::DEFAULT_UNKNOWN_OPS;
use crate::bytes;
use crate::bytes::{bytes_eq, copy_of, is_utf8, starts_with};
use crate::text;
use crate::text::trim;

verus! {

broadcast use vstd::std_specs::btree::group_btree_axioms;

/// The operations that a channel may use and the subtree it may name, without
/// slashes at the ends; an empty subtree is the root.
pub struct ChanRights {
    pub ops: u32,
    pub subtree: Vec<u8>,
}

/// The rights of a channel as a value.
#[verifier::ext_equal]
pub struct RightsView {
    pub ops: u32,
    pub subtree: Seq<u8>,
}

impl View for ChanRights {
    type V = RightsView;

    open spec fn view(&self) -> RightsView {
        RightsView { ops: self.ops, subtree: self.subtree@ }
    }
}

/// The rights of the channels that gave some up.
pub struct RightsTable {
    map: BTreeMap<u64, ChanRights>,
}

/// What a channel has that never gave anything up.
pub open spec fn full_rights() -> RightsView {
    RightsView { ops: RIGHTS_ALL, subtree: Seq::empty() }
}

/// The rights of a channel.
pub open spec fn rights_of(m: Map<u64, RightsView>, chan: u64) -> RightsView {
    if m.contains_key(chan) {
        m[chan]
    } else {
        full_rights()
    }
}

/// A path as it is compared with a subtree: no white space and no slashes at
/// the ends.
pub open spec fn normal_sub(path: Seq<u8>) -> Seq<u8> {
    dir::stripped(text::trimmed_form(path))
}

/// `p` is `sub` or lies below it; everything lies below the root.
pub open spec fn inside(sub: Seq<u8>, p: Seq<u8>) -> bool {
    sub.len() == 0 || p == sub || (p.len() > sub.len() && p[sub.len() as int] == 47
        && bytes::has_prefix(p, sub))
}

/// A path as it is compared with a subtree.
pub fn normalize_sub_view(path: &[u8]) -> (r: Vec<u8>)
    ensures
        r@ == normal_sub(path@),
{
    let t: Vec<u8> = trim(path);
    copy_of(strip_slashes(&t))
}

/// Whether a path lies in a subtree.
pub fn within_subtree(sub: &[u8], p: &[u8]) -> (r: bool)
    ensures
        r == inside(sub@, p@),
{
    sub.len() == 0 || bytes_eq(p, sub) || (p.len() > sub.len() && p[sub.len()] == 47 && starts_with(
        p,
        sub,
    ))
}

/// What lies in a subtree of a subtree lies in the larger one.
pub proof fn law_subtrees_nest(a: Seq<u8>, b: Seq<u8>, p: Seq<u8>)
    requires
        inside(a, b),
        inside(b, p),
    ensures
        inside(a, p),
{
    if a.len() > 0 && p != a && b != p && b != a {
        assert(p.take(a.len() as int) =~= p.take(b.len() as int).take(a.len() as int));
        assert(p[a.len() as int] == p.take(b.len() as int)[a.len() as int]);
    }
}

/// The right that an operation needs; `None` is always allowed.
pub open spec fn needed_right(op: u32) -> Option<u32> {
    if op == R_OPEN {
        Some(RIGHTS_OPEN)
    } else if op == R_READ {
        Some(RIGHTS_READ)
    } else if op == R_WRITE {
        Some(RIGHTS_WRITE)
    } else if op == R_READDIR || op == R_STAT {
        Some(RIGHTS_READDIR)
    } else if op == R_MKDIR {
        Some(RIGHTS_MKDIR)
    } else if op == R_MOUNT {
        Some(RIGHTS_MOUNT)
    } else if op == R_UMOUNT {
        Some(RIGHTS_UMOUNT)
    } else if op == R_DELETE {
        Some(RIGHTS_DELETE)
    } else if op == R_LSEEK {
        Some(RIGHTS_SEEK)
    } else if op == R_DUP_GRANT {
        Some(RIGHTS_GRANT)
    } else if op == R_PIPE_CREATE {
        Some(RIGHTS_PIPE)
    } else {
        None
    }
}

/// The right that an operation needs. Reading metadata needs the right to list
/// directories; closing, claiming or taking back a grant, and the handling of
/// rights need none.
pub fn op_bit(op_tag: u32) -> (r: Option<u32>)
    ensures
        r == needed_right(op_tag),
{
    if op_tag == R_OPEN {
        Some(RIGHTS_OPEN)
    } else if op_tag == R_READ {
        Some(RIGHTS_READ)
    } else if op_tag == R_WRITE {
        Some(RIGHTS_WRITE)
    } else if op_tag == R_READDIR || op_tag == R_STAT {
        Some(RIGHTS_READDIR)
    } else if op_tag == R_MKDIR {
        Some(RIGHTS_MKDIR)
    } else if op_tag == R_MOUNT {
        Some(RIGHTS_MOUNT)
    } else if op_tag == R_UMOUNT {
        Some(RIGHTS_UMOUNT)
    } else if op_tag == R_DELETE {
        Some(RIGHTS_DELETE)
    } else if op_tag == R_LSEEK {
        Some(RIGHTS_SEEK)
    } else if op_tag == R_DUP_GRANT {
        Some(RIGHTS_GRANT)
    } else if op_tag == R_PIPE_CREATE {
        Some(RIGHTS_PIPE)
    } else {
        None
    }
}

/// Whether an operation is allowed to a channel below a ceiling.
pub open spec fn op_allowed(r: RightsView, ceiling: u32, op: u32) -> bool {
    match needed_right(op) {
        Some(bit) => r.ops & ceiling & bit != 0,
        None => true,
    }
}

/// The rights of a channel once it gave some up; `None` if the request asks
/// for a subtree outside the one it has, or is no text.
pub open spec fn dropped(r: RightsView, keep: u32, payload: Seq<u8>, ceiling: u32) -> Option<
    RightsView,
> {
    if !vstd::utf8::valid_utf8(payload) {
        None
    } else if payload.len() == 0 {
        Some(RightsView { ops: r.ops & ceiling & keep & RIGHTS_ALL, subtree: r.subtree })
    } else if inside(r.subtree, normal_sub(payload)) {
        Some(
            RightsView {
                ops: r.ops & ceiling & keep & RIGHTS_ALL,
                subtree: normal_sub(payload),
            },
        )
    } else {
        None
    }
}

/// `a` has no right that `b` does not have.
pub open spec fn no_wider(a: u32, b: u32) -> bool {
    a & b == a
}

/// Giving up rights never widens them: no operation is gained, and the new
/// subtree lies in the old one.
pub proof fn law_drop_only_shrinks(r: RightsView, keep: u32, payload: Seq<u8>, ceiling: u32)
    ensures
        dropped(r, keep, payload, ceiling) matches Some(n) ==> {
            &&& no_wider(n.ops, r.ops)
            &&& no_wider(n.ops, ceiling)
            &&& no_wider(n.ops, keep)
            &&& (n.subtree == r.subtree || inside(r.subtree, n.subtree))
        },
{
    let a = r.ops;
    assert(no_wider(a & ceiling & keep & RIGHTS_ALL, a)) by {
        assert((a & ceiling & keep & 0x7FF) & a == (a & ceiling & keep & 0x7FF)) by (bit_vector);
    }
    assert(no_wider(a & ceiling & keep & RIGHTS_ALL, ceiling)) by {
        assert((a & ceiling & keep & 0x7FF) & ceiling == (a & ceiling & keep & 0x7FF))
            by (bit_vector);
    }
    assert(no_wider(a & ceiling & keep & RIGHTS_ALL, keep)) by {
        assert((a & ceiling & keep & 0x7FF) & keep == (a & ceiling & keep & 0x7FF))
            by (bit_vector);
    }
}

/// An operation that is refused stays refused after rights were given up.
pub proof fn law_refused_stays_refused(
    r: RightsView,
    keep: u32,
    payload: Seq<u8>,
    ceiling: u32,
    op: u32,
)
    requires
        !op_allowed(r, ceiling, op),
    ensures
        dropped(r, keep, payload, ceiling) matches Some(n) ==> !op_allowed(n, ceiling, op),
{
    let a = r.ops;
    if let Some(bit) = needed_right(op) {
        assert((a & ceiling & bit) == 0 ==> ((a & ceiling & keep & 0x7FF) & ceiling & bit) == 0)
            by (bit_vector);
    }
}

/// A program with an unknown image neither mounts nor unmounts, grants no
/// descriptors and makes no pipes, whatever rights its channel has kept.
pub proof fn law_unknown_program_is_confined(r: RightsView)
    ensures
        !op_allowed(r, DEFAULT_UNKNOWN_OPS, R_MOUNT),
        !op_allowed(r, DEFAULT_UNKNOWN_OPS, R_UMOUNT),
        !op_allowed(r, DEFAULT_UNKNOWN_OPS, R_DUP_GRANT),
        !op_allowed(r, DEFAULT_UNKNOWN_OPS, R_PIPE_CREATE),
{
    let a = r.ops;
    assert(a & 0x19F & 0x20 == 0 && a & 0x19F & 0x40 == 0 && a & 0x19F & 0x200 == 0 && a & 0x19F
        & 0x400 == 0) by (bit_vector);
}

/// Every other operation is open to a program with an unknown image that has
/// given nothing up.
pub proof fn law_unknown_program_uses_files(subtree: Seq<u8>, op: u32)
    requires
        op != R_MOUNT,
        op != R_UMOUNT,
        op != R_DUP_GRANT,
        op != R_PIPE_CREATE,
    ensures
        op_allowed(RightsView { ops: RIGHTS_ALL, subtree }, DEFAULT_UNKNOWN_OPS, op),
{
    assert(0x7FFu32 & 0x19F & 0x1 != 0 && 0x7FFu32 & 0x19F & 0x2 != 0 && 0x7FFu32 & 0x19F & 0x4
        != 0 && 0x7FFu32 & 0x19F & 0x8 != 0 && 0x7FFu32 & 0x19F & 0x10 != 0 && 0x7FFu32 & 0x19F
        & 0x80 != 0 && 0x7FFu32 & 0x19F & 0x100 != 0) by (bit_vector);
}

impl RightsTable {
    pub closed spec fn view(&self) -> Map<u64, RightsView> {
        Map::new(|c: u64| self.map@.contains_key(c), |c: u64| self.map@[c]@)
    }

    pub fn new() -> (r: RightsTable)
        ensures
            r@ == Map::<u64, RightsView>::empty(),
    {
        let r = RightsTable { map: BTreeMap::new() };
        assert(r@ =~= Map::empty());
        r
    }

    /// The peer of a channel is gone, and its rights with it.
    pub fn forget(&mut self, chan: u64)
        ensures
            final(self)@ == old(self)@.remove(chan),
    {
        self.map.remove(&chan);
        assert(self@ =~= old(self)@.remove(chan));
    }
}

/// The operations that a channel kept.
pub fn rights_ops(rights: &RightsTable, chan: u64) -> (r: u32)
    ensures
        r == rights_of(rights@, chan).ops,
{
    assert(rights@.contains_key(chan) == rights.map@.contains_key(chan));
    match rights.map.get(&chan) {
        Some(r) => r.ops,
        None => RIGHTS_ALL,
    }
}

/// The subtree that a channel kept.
pub fn rights_subtree(rights: &RightsTable, chan: u64) -> (r: Vec<u8>)
    ensures
        r@ == rights_of(rights@, chan).subtree,
{
    assert(rights@.contains_key(chan) == rights.map@.contains_key(chan));
    match rights.map.get(&chan) {
        Some(r) => copy_of(&r.subtree),
        None => {
            let e: Vec<u8> = Vec::new();
            assert(e@ =~= Seq::empty());
            e
        },
    }
}

/// Whether an operation is allowed to a channel below a ceiling.
pub fn op_permitted(rights: &RightsTable, chan: u64, ceiling: u32, op_tag: u32) -> (r: bool)
    ensures
        r == op_allowed(rights_of(rights@, chan), ceiling, op_tag),
{
    match op_bit(op_tag) {
        Some(bit) => rights_ops(rights, chan) & ceiling & bit != 0,
        None => true,
    }
}

/// A channel gives rights up: it keeps the operations in `keep` and, if the
/// payload names one, a subtree. A subtree outside the one it has is
/// refused, and then nothing changes.
pub fn handle_rights_drop(
    rights: &mut RightsTable,
    chan: u64,
    keep: u32,
    payload: &[u8],
    ceiling: u32,
) -> (r: Option<u64>)
    ensures
        match dropped(rights_of(old(rights)@, chan), keep, payload@, ceiling) {
            Some(n) => r == Some(0u64) && final(rights)@ == old(rights)@.insert(chan, n),
            None => r is None && final(rights)@ == old(rights)@,
        },
{
    if !is_utf8(payload) {
        return None;
    }
    let ops: u32 = rights_ops(rights, chan) & ceiling & keep & RIGHTS_ALL;
    let mut subtree: Vec<u8> = rights_subtree(rights, chan);
    if payload.len() > 0 {
        let n: Vec<u8> = normalize_sub_view(payload);
        if !within_subtree(&subtree, &n) {
            return None;
        }
        subtree = n;
    }
    let ghost v = RightsView { ops, subtree: subtree@ };
    rights.map.insert(chan, ChanRights { ops, subtree });
    assert(rights@ =~= old(rights)@.insert(chan, v));
    Some(0)
}

/// What a channel may do below a ceiling, as a reply tells it: the
/// operations and the subtree.
pub fn handle_rights_get(rights: &RightsTable, chan: u64, ceiling: u32) -> (r: (u32, Vec<u8>))
    ensures
        r.0 == rights_of(rights@, chan).ops & ceiling,
        r.1@ == rights_of(rights@, chan).subtree,
{
    (rights_ops(rights, chan) & ceiling, rights_subtree(rights, chan))
}

} // verus!
