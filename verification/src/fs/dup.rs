//! Handing descriptors from a parent to its child: a grant is a snapshot of a
//! descriptor that the child can claim once.
use std::collections::BTreeMap;
use vstd::prelude::*;

use super::codes::ERR_INVALID;
use super::ftable;
use super::ftable::{FileEntry, FileTable};
use super::pipes;
use super::pipes::PipeTable;
use crate::tables::keys64;

verus! {

broadcast use vstd::std_specs::btree::group_btree_axioms;

/// A pending grant: the snapshot, and who gave it.
pub struct Grant {
    pub snap: FileEntry,
    pub registrant_pid: u32,
    pub registrant_chan: u64,
}

/// A grant as a value.
#[verifier::ext_equal]
pub struct GrantView {
    pub snap: ftable::EntryView,
    pub pid: u32,
    pub chan: u64,
}

impl View for Grant {
    type V = GrantView;

    open spec fn view(&self) -> GrantView {
        GrantView { snap: self.snap@, pid: self.registrant_pid, chan: self.registrant_chan }
    }
}

/// Pending grants by their numbers.
pub struct GrantTable {
    grants: BTreeMap<u64, Grant>,
    next: u64,
}

/// Numbers that a reply can carry: neither 0 nor the code of a refusal.
pub open spec fn usable(n: u64) -> bool {
    0 < n < 0xFFFF_FFFF_FFFF_FFF5
}

/// The counter `i` steps behind `start`.
pub open spec fn turn(start: u64, i: int) -> u64 {
    if start + i < 0x1_0000_0000_0000_0000 {
        (start + i) as u64
    } else {
        (start + i - 0x1_0000_0000_0000_0000) as u64
    }
}

/// What the counter is mixed with for a process.
pub open spec fn pid_mix(pid: u32) -> u64 {
    ((pid * 0x9E37_79B9_7F4A_7C15) % 0x1_0000_0000_0000_0000) as u64
}

/// The counter `c` gives a number to a grant of the process `pid`.
pub open spec fn gives(m: Map<u64, GrantView>, c: u64, pid: u32) -> bool {
    c != 0 && usable(c ^ pid_mix(pid)) && !m.contains_key(c ^ pid_mix(pid))
}

/// The number of a grant of the process `pid` comes of the first counter from
/// `start` on that gives one, `k` steps behind it.
pub open spec fn nonce_at(
    m: Map<u64, GrantView>,
    start: u64,
    pid: u32,
    k: nat,
    nonce: u64,
    next: u64,
) -> bool {
    &&& gives(m, turn(start, k as int), pid)
    &&& nonce == turn(start, k as int) ^ pid_mix(pid)
    &&& next == turn(start, k as int + 1)
    &&& forall|i: int| 0 <= i < k ==> !gives(m, #[trigger] turn(start, i), pid)
}

/// The numbers that cannot be given out: those of pending grants, the few that
/// are not usable, and the one that the counter 0 would give.
spec fn taken(dom: Set<u64>, mix: u64) -> Set<u64> {
    dom.insert(mix).insert(0).insert(0xFFFF_FFFF_FFFF_FFF5).insert(0xFFFF_FFFF_FFFF_FFF6).insert(
        0xFFFF_FFFF_FFFF_FFF7,
    ).insert(0xFFFF_FFFF_FFFF_FFF8).insert(0xFFFF_FFFF_FFFF_FFF9).insert(
        0xFFFF_FFFF_FFFF_FFFA,
    ).insert(0xFFFF_FFFF_FFFF_FFFB).insert(0xFFFF_FFFF_FFFF_FFFC).insert(
        0xFFFF_FFFF_FFFF_FFFD,
    ).insert(0xFFFF_FFFF_FFFF_FFFE).insert(0xFFFF_FFFF_FFFF_FFFF)
}

proof fn lemma_taken(dom: Set<u64>, mix: u64)
    requires
        dom.finite(),
    ensures
        taken(dom, mix).finite(),
        taken(dom, mix).len() <= dom.len() + 13,
        forall|n: u64| #[trigger]
            taken(dom, mix).contains(n) == (dom.contains(n) || n == mix || !usable(n)),
{
}

proof fn lemma_xor_injective(a: u64, b: u64, m: u64)
    ensures
        a ^ m == b ^ m ==> a == b,
        0u64 ^ m == m,
{
    assert(a ^ m == b ^ m ==> a == b) by (bit_vector);
    assert(0u64 ^ m == m) by (bit_vector);
}

/// Different numbers that all lie in a set: there are no more than it holds.
proof fn lemma_distinct_in(s: Seq<u64>, t: Set<u64>)
    requires
        s.no_duplicates(),
        t.finite(),
        forall|i: int| 0 <= i < s.len() ==> t.contains(#[trigger] s[i]),
    ensures
        s.len() <= t.len(),
{
    s.unique_seq_to_set();
    assert(s.to_set().subset_of(t));
    vstd::set_lib::lemma_len_subset(s.to_set(), t);
}

impl GrantTable {
    pub closed spec fn view(&self) -> Map<u64, GrantView> {
        Map::new(|n: u64| self.grants@.contains_key(n), |n: u64| self.grants@[n]@)
    }

    /// The counter that the numbers come of.
    pub closed spec fn counter(&self) -> u64 {
        self.next
    }

    /// There is a number left for another grant.
    pub closed spec fn has_room(&self) -> bool {
        self.grants@.len() < 0xFFFF_FFFF_0000_0000
    }

    pub fn new() -> (r: GrantTable)
        ensures
            r@ == Map::<u64, GrantView>::empty(),
            r.counter() == 1,
            r.has_room(),
    {
        let r = GrantTable { grants: BTreeMap::new(), next: 1 };
        assert(r@ =~= Map::empty());
        assert(r.grants@.len() == 0);
        r
    }

    /// Whether there is a number left for another grant.
    pub fn can_insert(&self) -> (r: bool)
        ensures
            r == self.has_room(),
    {
        let n: u64 = self.grants.len() as u64;
        n < 0xFFFF_FFFF_0000_0000
    }

    /// Records a grant. Its number is a counter mixed with the process. It is
    /// new among the pending ones, and never one that a reply uses for something
    /// else.
    pub fn insert(&mut self, g: Grant) -> (nonce: u64)
        requires
            old(self).has_room(),
        ensures
            usable(nonce),
            !old(self)@.contains_key(nonce),
            final(self)@ == old(self)@.insert(nonce, g@),
            exists|k: nat| #[trigger]
                nonce_at(
                    old(self)@,
                    old(self).counter(),
                    g.registrant_pid,
                    k,
                    nonce,
                    final(self).counter(),
                ),
    {
        let ghost gv = g@;
        let ghost pid = g.registrant_pid;
        let ghost before = self.grants@;
        let mix: u64 = (g.registrant_pid as u64).wrapping_mul(0x9E37_79B9_7F4A_7C15);
        let ghost start = self.next;
        assert(mix == pid_mix(pid));
        let ghost mut tried: Seq<u64> = Seq::empty();
        let ghost t = taken(before.dom(), mix);
        let mut found: u64 = 0;
        proof {
            lemma_taken(before.dom(), mix);
        }
        while found == 0
            invariant
                self.grants@ == before,
                before == old(self).grants@,
                mix == pid_mix(pid),
                start == old(self).next,
                before.len() < 0xFFFF_FFFF_0000_0000,
                before.dom().len() == before.len(),
                t == taken(before.dom(), mix),
                t.finite(),
                t.len() <= before.dom().len() + 13,
                forall|n: u64| #[trigger]
                    t.contains(n) == (before.dom().contains(n) || n == mix || !usable(n)),
                found != 0 ==> usable(found) && !before.contains_key(found),
                found == 0 ==> self.next == turn(start, tried.len() as int),
                found != 0 ==> nonce_at(
                    old(self)@,
                    start,
                    pid,
                    tried.len(),
                    found,
                    self.next,
                ),
                forall|i: int|
                    0 <= i < tried.len() ==> !gives(old(self)@, #[trigger] turn(start, i), pid),
                tried.len() <= t.len(),
                tried.no_duplicates(),
                forall|i: int|
                    0 <= i < tried.len() ==> #[trigger] tried[i] == turn(start, i) ^ mix,
                forall|i: int| 0 <= i < tried.len() ==> t.contains(#[trigger] tried[i]),
            decreases
                    if found == 0 {
                        t.len() + 1 - tried.len()
                    } else {
                        0
                    },
        {
            let c: u64 = self.next;
            self.next = c.wrapping_add(1);
            let n: u64 = c ^ mix;
            proof {
                lemma_xor_injective(c, 0, mix);
            }
            if c != 0 && n != 0 && n < 0xFFFF_FFFF_FFFF_FFF5 && !self.grants.contains_key(&n) {
                found = n;
            } else {
                proof {
                    assert(t.contains(n));
                    let next = tried.push(n);
                    assert forall|i: int, j: int|
                        0 <= i < next.len() && 0 <= j < next.len() && i != j implies next[i]
                        != next[j] by {
                        lemma_xor_injective(turn(start, i), turn(start, j), mix);
                        assert(turn(start, i) != turn(start, j));
                    }
                    lemma_distinct_in(next, t);
                    tried = next;
                }
            }
        }
        self.grants.insert(found, g);
        assert(self@ =~= old(self)@.insert(found, gv));
        assert(nonce_at(
            old(self)@,
            old(self).counter(),
            pid,
            tried.len(),
            found,
            self.counter(),
        ));
        found
    }

    /// Takes a grant out of the table.
    pub fn remove(&mut self, nonce: u64) -> (r: Option<Grant>)
        ensures
            match r {
                Some(g) => old(self)@.contains_key(nonce) && old(self)@[nonce] == g@,
                None => !old(self)@.contains_key(nonce),
            },
            final(self)@ == old(self)@.remove(nonce),
            final(self).counter() == old(self).counter(),
            old(self).has_room() ==> final(self).has_room(),
    {
        let r = self.grants.remove(&nonce);
        assert(self@ =~= old(self)@.remove(nonce));
        r
    }

    /// The channel on which a grant was given.
    pub fn registrant(&self, nonce: u64) -> (r: Option<u64>)
        ensures
            r == (if self@.contains_key(nonce) {
                Some(self@[nonce].chan)
            } else {
                None
            }),
    {
        match self.grants.get(&nonce) {
            Some(g) => Some(g.registrant_chan),
            None => None,
        }
    }

    /// Who gave grants on a channel is gone: these grants go, and the ends of
    /// pipes that they held are closed.
    pub fn purge_registrant(&mut self, chan: u64, pipes: &mut PipeTable)
        requires
            old(pipes).wf(),
        ensures
            final(pipes).wf(),
            forall|n: u64| #[trigger]
                final(self)@.contains_key(n) == (old(self)@.contains_key(n) && old(self)@[n].chan
                    != chan),
            forall|n: u64| #[trigger]
                final(self)@.contains_key(n) ==> final(self)@[n] == old(self)@[n],
            exists|ns: Seq<u64>| #[trigger]
                given_on(old(self)@, chan, ns) && final(pipes)@ == released(
                    old(pipes)@,
                    old(self)@,
                    ns,
                ),
            final(self).counter() == old(self).counter(),
            final(pipes).next_id() == old(pipes).next_id(),
            old(self).has_room() ==> final(self).has_room(),
    {
        let ks: Vec<u64> = keys64(&self.grants);
        let ghost before = self@;
        let ghost mut ns: Seq<u64> = Seq::empty();
        let mut i: usize = 0;
        while i < ks.len()
            invariant
                i <= ks@.len(),
                ks@.no_duplicates(),
                before == old(self)@,
                forall|n: u64| #[trigger] ks@.contains(n) == before.contains_key(n),
                pipes.wf(),
                pipes@ == released(old(pipes)@, before, ns),
                pipes.next_id() == old(pipes).next_id(),
                ns.no_duplicates(),
                forall|n: u64| #[trigger]
                    ns.contains(n) == (ks@.take(i as int).contains(n) && before[n].chan == chan),
                forall|n: u64| #[trigger]
                    self@.contains_key(n) == (before.contains_key(n) && !ns.contains(n)),
                forall|n: u64| #[trigger] self@.contains_key(n) ==> self@[n] == before[n],
                self.counter() == old(self).counter(),
                old(self).has_room() ==> self.has_room(),
            decreases ks@.len() - i,
        {
            let n: u64 = ks[i];
            proof {
                assert(ks@.contains(n));
                let a = ks@.take(i as int);
                let b = ks@.take(i + 1);
                assert(b =~= a.push(n));
                assert forall|x: u64| #[trigger] b.contains(x) == (a.contains(x) || x == n) by {
                    if a.contains(x) {
                        let k = choose|k: int| 0 <= k < a.len() && a[k] == x;
                        assert(b[k] == x);
                    }
                    assert(b[i as int] == n);
                }
                assert(!a.contains(n)) by {
                    if a.contains(n) {
                        let k = choose|k: int| 0 <= k < a.len() && a[k] == n;
                        assert(ks@[k] == ks@[i as int]);
                    }
                }
            }
            let mine: bool = match self.registrant(n) {
                Some(c) => c == chan,
                None => false,
            };
            if mine {
                if let Some(g) = self.remove(n) {
                    if let FileEntry::Pipe { pipe, write } = g.snap {
                        pipes.end_closed(pipe, write);
                    }
                }
                proof {
                    let next = ns.push(n);
                    assert(next.drop_last() =~= ns);
                    assert forall|x: u64| #[trigger] next.contains(x) == (ns.contains(x) || x
                        == n) by {
                        if ns.contains(x) {
                            let k = choose|k: int| 0 <= k < ns.len() && ns[k] == x;
                            assert(next[k] == x);
                        }
                        assert(next[ns.len() as int] == n);
                    }
                    assert(!ns.contains(n));
                    ns = next;
                }
            }
            i += 1;
        }
        proof {
            assert(ks@.take(i as int) =~= ks@);
            assert forall|n: u64| #[trigger] ns.contains(n) == (before.contains_key(n)
                && before[n].chan == chan) by {
                assert(ks@.contains(n) == before.contains_key(n));
            }
            assert(given_on(before, chan, ns));
        }
    }
}

/// The numbers of the grants that were given on a channel.
pub open spec fn given_on(m: Map<u64, GrantView>, chan: u64, ns: Seq<u64>) -> bool {
    ns.no_duplicates() && forall|n: u64| #[trigger]
        ns.contains(n) == (m.contains_key(n) && m[n].chan == chan)
}

/// The pipes once a grant is given up: the end that it held is closed.
pub open spec fn let_go(p: Map<u32, pipes::PipeView>, g: GrantView) -> Map<u32, pipes::PipeView> {
    match g.snap {
        ftable::EntryView::Pipe { pipe, write } => pipes::after_close(p, pipe, write),
        _ => p,
    }
}

/// The pipes once grants are given up, one after the other.
pub open spec fn released(
    p: Map<u32, pipes::PipeView>,
    m: Map<u64, GrantView>,
    ns: Seq<u64>,
) -> Map<u32, pipes::PipeView>
    decreases ns.len(),
{
    if ns.len() == 0 {
        p
    } else {
        let_go(released(p, m, ns.drop_last()), m[ns.last()])
    }
}

/// A process number that the system gave: it fits in 32 bits.
pub open spec fn valid_pid(pid: Option<i64>) -> bool {
    pid matches Some(p) && 0 <= p <= 0xFFFF_FFFF
}

fn pid_of(pid: Option<i64>) -> (r: Option<u32>)
    ensures
        r == (if valid_pid(pid) {
            Some(pid->0 as u32)
        } else {
            None
        }),
{
    match pid {
        Some(p) => {
            if p < 0 || p > 0xFFFF_FFFF {
                None
            } else {
                Some(p as u32)
            }
        },
        None => None,
    }
}

/// The pipes once a grant took hold of an end.
pub open spec fn held(p: Map<u32, pipes::PipeView>, e: ftable::EntryView) -> Map<
    u32,
    pipes::PipeView,
> {
    match e {
        ftable::EntryView::Pipe { pipe, write } => p.insert(
            pipe,
            pipes::one_more(p[pipe], write),
        ),
        _ => p,
    }
}

/// A descriptor that can be handed over: a local file, or an end of a pipe
/// that there is.
pub open spec fn grantable(e: Option<ftable::EntryView>, p: Map<u32, pipes::PipeView>) -> bool {
    match e {
        Some(ftable::EntryView::Local { .. }) => true,
        Some(ftable::EntryView::Pipe { pipe, .. }) => p.contains_key(pipe),
        _ => false,
    }
}

/// Another end of the pipe of a descriptor can be counted.
pub open spec fn countable(e: Option<ftable::EntryView>, p: Map<u32, pipes::PipeView>) -> bool {
    e matches Some(ftable::EntryView::Pipe { pipe, .. }) ==> p.contains_key(pipe) ==> p[pipe].readers
        < u32::MAX && p[pipe].writers < u32::MAX
}

/// What granting a descriptor does.
pub open spec fn grant_done(
    tab: Map<(u64, u32), ftable::EntryView>,
    gs: (Map<u64, GrantView>, Map<u64, GrantView>),
    ps: (Map<u32, pipes::PipeView>, Map<u32, pipes::PipeView>),
    chan: u64,
    fd: u32,
    peer: Option<i64>,
    r: Result<u64, u64>,
) -> bool {
    let e = ftable::entry_at(tab, chan, fd);
    if !grantable(e, ps.0) {
        r == Err::<u64, u64>(ERR_INVALID) && ps.1 == ps.0 && gs.1 == gs.0
    } else {
        &&& ps.1 == held(ps.0, e->0)
        &&& if valid_pid(peer) {
            r matches Ok(n) && usable(n) && !gs.0.contains_key(n) && gs.1 == gs.0.insert(
                n,
                GrantView { snap: e->0, pid: peer->0 as u32, chan },
            )
        } else {
            r == Err::<u64, u64>(ERR_INVALID) && gs.1 == gs.0
        }
    }
}

/// Grants a descriptor of the caller, whose process is `peer`. The number of
/// the grant is returned. A grant of an end of a pipe counts as an end that is
/// open until it is claimed and closed, canceled or purged. It is counted before
/// the process is known, and stays counted where that one is not.
pub fn handle_grant(
    ftable: &FileTable,
    grants: &mut GrantTable,
    pipes: &mut PipeTable,
    chan: u64,
    fd: u32,
    peer: Option<i64>,
) -> (r: Result<u64, u64>)
    requires
        ftable.wf(),
        old(pipes).wf(),
        old(grants).has_room(),
        countable(ftable::entry_at(ftable@, chan, fd), old(pipes)@),
    ensures
        final(pipes).wf(),
        grant_done(
            ftable@,
            (old(grants)@, final(grants)@),
            (old(pipes)@, final(pipes)@),
            chan,
            fd,
            peer,
            r,
        ),
        match r {
            Ok(n) => exists|k: nat| #[trigger]
                nonce_at(
                    old(grants)@,
                    old(grants).counter(),
                    peer->0 as u32,
                    k,
                    n,
                    final(grants).counter(),
                ),
            Err(_) => final(grants).counter() == old(grants).counter(),
        },
{
    let snap: FileEntry = match ftable.entry(chan, fd) {
        Some(e) => match e {
            FileEntry::Local { .. } => e.snapshot(),
            FileEntry::Pipe { pipe, write } => {
                if !pipes.end_opened(*pipe, *write) {
                    return Err(ERR_INVALID);
                }
                e.snapshot()
            },
            FileEntry::Remote { .. } => {
                return Err(ERR_INVALID);
            },
        },
        None => {
            return Err(ERR_INVALID);
        },
    };
    match pid_of(peer) {
        Some(pid) => Ok(
            grants.insert(Grant { snap, registrant_pid: pid, registrant_chan: chan }),
        ),
        None => Err(ERR_INVALID),
    }
}

/// What the system knows of the two parties to a claim: the process that
/// claims, its parent, and the process that is on the channel of the grant now.
#[derive(Clone, Copy)]
pub struct Parties {
    pub claimant: Option<i64>,
    pub parent: Option<u32>,
    pub holder: Option<i64>,
}

/// The claimant is a child of the process that gave the grant, and that
/// process is still there.
pub open spec fn entitled(g: GrantView, w: Parties) -> bool {
    valid_pid(w.claimant) && w.parent == Some(g.pid) && w.holder == Some(g.pid as i64)
}

/// The descriptor that a claim of a grant opens.
pub open spec fn claimed(g: GrantView) -> Option<ftable::EntryView> {
    match g.snap {
        ftable::EntryView::Pipe { pipe, write } => Some(g.snap),
        e => ftable::cloned_entry(e),
    }
}

/// What claiming a grant does.
pub open spec fn claim_done(
    tabs: (Map<(u64, u32), ftable::EntryView>, Map<(u64, u32), ftable::EntryView>),
    next: u32,
    gs: (Map<u64, GrantView>, Map<u64, GrantView>),
    chan: u64,
    nonce: u64,
    parties: Parties,
    r: Result<u64, u64>,
) -> bool {
    &&& gs.1 == (if nonce == 0 {
        gs.0
    } else {
        gs.0.remove(nonce)
    })
    &&& if nonce != 0 && gs.0.contains_key(nonce) && entitled(gs.0[nonce], parties) && claimed(
        gs.0[nonce],
    ) is Some {
        r == Ok::<u64, u64>(next as u64) && tabs.1 == tabs.0.insert(
            (chan, next),
            claimed(gs.0[nonce])->0,
        )
    } else {
        r == Err::<u64, u64>(ERR_INVALID) && tabs.1 == tabs.0
    }
}

/// Claims a grant: opens its descriptor on the channel of the claimant. The
/// grant is used up, whether the claimant was entitled to it or not; the counts
/// of pipes are left alone either way.
pub fn handle_claim(
    ftable: &mut FileTable,
    grants: &mut GrantTable,
    chan: u64,
    nonce: u64,
    parties: Parties,
) -> (r: Result<u64, u64>)
    requires
        old(ftable).wf(),
        old(ftable).next_fd(chan) < u32::MAX,
    ensures
        final(ftable).wf(),
        claim_done(
            (old(ftable)@, final(ftable)@),
            old(ftable).next_fd(chan),
            (old(grants)@, final(grants)@),
            chan,
            nonce,
            parties,
            r,
        ),
        ftable::numbered(*old(ftable), *final(ftable), chan, (if r is Ok { 1int } else { 0 })),
        final(grants).counter() == old(grants).counter(),
        old(grants).has_room() ==> final(grants).has_room(),
{
    if nonce == 0 {
        return Err(ERR_INVALID);
    }
    let g: Grant = match grants.remove(nonce) {
        Some(g) => g,
        None => {
            return Err(ERR_INVALID);
        },
    };
    if pid_of(parties.claimant).is_none() {
        return Err(ERR_INVALID);
    }
    match parties.parent {
        Some(p) => {
            if p != g.registrant_pid {
                return Err(ERR_INVALID);
            }
        },
        None => {
            return Err(ERR_INVALID);
        },
    }
    match parties.holder {
        Some(p) => {
            if p != g.registrant_pid as i64 {
                return Err(ERR_INVALID);
            }
        },
        None => {
            return Err(ERR_INVALID);
        },
    }
    match &g.snap {
        FileEntry::Pipe { pipe, write } => Ok(ftable.open_pipe(chan, *pipe, *write)),
        FileEntry::Local { .. } => match ftable.open_cloned(chan, &g.snap) {
            Some(fd) => Ok(fd),
            None => Err(ERR_INVALID),
        },
        FileEntry::Remote { .. } => Err(ERR_INVALID),
    }
}

/// What giving a grant up does.
pub open spec fn cancel_done(
    gs: (Map<u64, GrantView>, Map<u64, GrantView>),
    ps: (Map<u32, pipes::PipeView>, Map<u32, pipes::PipeView>),
    nonce: u64,
    r: Result<u64, u64>,
) -> bool {
    &&& r == Ok::<u64, u64>(0)
    &&& gs.1 == gs.0.remove(nonce)
    &&& ps.1 == (if gs.0.contains_key(nonce) {
        let_go(ps.0, gs.0[nonce])
    } else {
        ps.0
    })
}

/// Gives a grant up; one that is not there is no error. An end of a pipe that
/// it held is closed.
pub fn handle_cancel(
    grants: &mut GrantTable,
    pipes: &mut PipeTable,
    chan: u64,
    nonce: u64,
) -> (r: Result<u64, u64>)
    requires
        old(pipes).wf(),
    ensures
        final(pipes).wf(),
        cancel_done((old(grants)@, final(grants)@), (old(pipes)@, final(pipes)@), nonce, r),
        final(grants).counter() == old(grants).counter(),
        old(grants).has_room() ==> final(grants).has_room(),
{
    if let Some(g) = grants.remove(nonce) {
        if let FileEntry::Pipe { pipe, write } = g.snap {
            pipes.end_closed(pipe, write);
        }
    }
    Ok(0)
}

/// A grant can be claimed only once: after a claim, whatever its outcome, no
/// claim of the same number succeeds, until it is given out again.
pub proof fn law_grant_is_single_use(m: Map<u64, GrantView>, nonce: u64)
    ensures
        !m.remove(nonce).contains_key(nonce),
        m.remove(nonce).remove(nonce) == m.remove(nonce),
{
    assert(m.remove(nonce).remove(nonce) =~= m.remove(nonce));
}

/// Granting an end of a pipe and canceling the grant leaves the pipes as they
/// were, if an end was open.
pub proof fn law_grant_then_cancel(
    p: Map<u32, pipes::PipeView>,
    e: ftable::EntryView,
    pid: u32,
    chan: u64,
)
    requires
        grantable(Some(e), p),
        e matches ftable::EntryView::Pipe { pipe, .. } ==> p[pipe].readers > 0 || p[pipe].writers
            > 0,
    ensures
        let_go(held(p, e), (GrantView { snap: e, pid, chan })) == p,
{
    if let ftable::EntryView::Pipe { pipe, write } = e {
        pipes::law_open_then_close(p, pipe, write);
    }
}

} // verus!
