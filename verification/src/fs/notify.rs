//! What a client's notice leads to: the first request in its ring is taken out
//! and served, refused, or left for a driver.
use vstd::prelude::*;

use super::block::BlockSource;
use super::codes::{MAX_DATA, R_REGISTER};
use super::rights;
use super::rings::{req_resync, req_ring_consume, req_ring_read, req_ring_read_payload};
use super::server;
use super::server::{decode, subtree_ok, Request, Server, Verdict};
use crate::bytes;
use crate::ring;
use crate::ring::Ring;

verus! {

broadcast use vstd::std_specs::btree::group_btree_axioms;

/// How long the mount points of one request may be together.
pub const MAX_PREFIXES: usize = 514;

/// What became of the first request in a ring.
pub enum Taken {
    /// The client is unknown, and has to tell anew where its rings are.
    NoHandshake,
    /// There is none, or it cannot be one: refused, without a response.
    Bad,
    /// The client has no right to it: refused, with a response.
    Denied,
    /// A write to a file of a driver. It stays in the ring.
    Forward { fd: u32 },
    /// It is to be served.
    Ask { op: u32, req: Request },
}

/// What is asked in a request.
pub open spec fn op_in(s: Seq<u8>) -> u32 {
    bytes::le_value(s, 0, 4) as u32
}

pub open spec fn w0_in(s: Seq<u8>) -> u64 {
    bytes::le_value(s, 4, 8) as u64
}

pub open spec fn w1_in(s: Seq<u8>) -> u64 {
    bytes::le_value(s, 12, 8) as u64
}

/// What the server makes of the first request in a ring.
pub open spec fn verdict_on<B: BlockSource>(a: Server<B>, chan: u64, s: Seq<u8>) -> Verdict {
    server::judged(
        a.rights@,
        server::ceiling_at(a.policy@, chan),
        a.ftable@,
        chan,
        op_in(s),
        w0_in(s),
        w1_in(s),
        s.len() - 20,
    )
}

/// A request was taken out of a ring, or left there.
pub open spec fn taken_from<B: BlockSource>(
    a: Server<B>,
    chan: u64,
    s: Seq<u8>,
    rest: Seq<u8>,
    t: Taken,
) -> bool {
    if !a.rings@.contains_key(chan) {
        t is NoHandshake && rest == s
    } else if s.len() < 20 {
        t is Bad && rest == s
    } else {
        match verdict_on(a, chan, s) {
            Verdict::Resync => t is Bad && rest == Seq::<u8>::empty(),
            Verdict::Denied(n) => t is Denied && rest == s.skip(20 + n),
            Verdict::Forward => t == (Taken::Forward { fd: low_half(w0_in(s)) }) && rest == s,
            Verdict::Serve(n) => {
                let payload = s.subrange(20, 20 + n);
                &&& rest == s.skip(20 + n)
                &&& if server::in_subtree(
                    rights::rights_of(a.rights@, chan).subtree,
                    op_in(s),
                    payload,
                ) {
                    &&& t matches Taken::Ask { op, req }
                    &&& op == op_in(s)
                    &&& server::decoded(req, op, w0_in(s), w1_in(s), payload)
                } else {
                    t is Denied
                }
            },
        }
    }
}

pub open spec fn low_half(w: u64) -> u32 {
    w as u32
}

impl<B: BlockSource> Server<B> {
    /// Takes the first request out of a client's ring. Exactly what it announces
    /// is taken: what lies behind it is the next request.
    pub fn take(&self, chan: u64, ring: &mut Ring) -> (r: Taken)
        requires
            self.wf(),
            old(ring).wf(),
        ensures
            final(ring).wf(),
            ring::reader_moved(*old(ring), *final(ring)),
            taken_from(*self, chan, old(ring)@, final(ring)@, r),
    {
        if self.rings_of(chan).is_none() {
            return Taken::NoHandshake;
        }
        let (op, w0, w1, avail): (u32, u64, u64, usize) = match req_ring_read(ring) {
            Some(h) => h,
            None => {
                return Taken::Bad;
            },
        };
        match self.judge(chan, op, w0, w1, avail) {
            Verdict::Resync => {
                req_resync(ring);
                Taken::Bad
            },
            Verdict::Denied(n) => {
                req_ring_consume(ring, 20 + n);
                Taken::Denied
            },
            Verdict::Forward => Taken::Forward { fd: w0 as u32 },
            Verdict::Serve(n) => {
                let payload: Vec<u8> = req_ring_read_payload(ring, n);
                if !subtree_ok(&self.rights, chan, op, &payload) {
                    return Taken::Denied;
                }
                Taken::Ask { op, req: decode(op, w0, w1, payload) }
            },
        }
    }
}

/// What becomes of a driver's request for mount points.
pub enum Wanted {
    /// The driver is unknown, and has to tell anew where its rings are.
    NoHandshake,
    /// There is no request.
    Bad,
    /// These mount points, with zero bytes between them, are asked for; none if
    /// it was another request, or too long.
    Prefixes(Vec<u8>),
}

/// The mount points that a ring asks for. The whole ring is the request.
pub open spec fn prefixes_in(s: Seq<u8>) -> Seq<u8> {
    if op_in(s) == R_REGISTER && 20 < s.len() <= 20 + MAX_PREFIXES {
        s.skip(20)
    } else {
        Seq::empty()
    }
}

impl<B: BlockSource> Server<B> {
    /// Takes a request for mount points out of a driver's ring.
    pub fn take_prefixes(&self, chan: u64, ring: &mut Ring) -> (r: Wanted)
        requires
            old(ring).wf(),
        ensures
            final(ring).wf(),
            ring::reader_moved(*old(ring), *final(ring)),
            if !self.rings@.contains_key(chan) {
                r is NoHandshake && final(ring)@ == old(ring)@
            } else if old(ring)@.len() < 20 {
                r is Bad && final(ring)@ == old(ring)@
            } else {
                &&& r matches Wanted::Prefixes(p) && p@ == prefixes_in(old(ring)@)
                &&& final(ring)@ == Seq::<u8>::empty()
            },
    {
        if self.rings_of(chan).is_none() {
            return Wanted::NoHandshake;
        }
        let (op, _w0, _w1, avail): (u32, u64, u64, usize) = match req_ring_read(ring) {
            Some(h) => h,
            None => {
                return Wanted::Bad;
            },
        };
        let ghost s = ring@;
        if op == R_REGISTER && avail > 0 && avail <= MAX_PREFIXES {
            let p: Vec<u8> = req_ring_read_payload(ring, avail);
            assert(p@ =~= s.skip(20));
            assert(ring@ =~= Seq::empty());
            Wanted::Prefixes(p)
        } else {
            req_ring_consume(ring, 20 + avail);
            assert(ring@ =~= Seq::empty());
            let none: Vec<u8> = Vec::new();
            assert(none@ =~= Seq::empty());
            Wanted::Prefixes(none)
        }
    }
}

/// The ring of a client never gets out of step: a request that is taken out is
/// taken out whole, and nothing of the next one with it. Where a request cannot
/// be one, nothing of it is left to be read as the next.
pub proof fn law_ring_stays_in_step<B: BlockSource>(
    a: Server<B>,
    chan: u64,
    s: Seq<u8>,
    rest: Seq<u8>,
    t: Taken,
)
    requires
        taken_from(a, chan, s, rest, t),
        s.len() >= 20,
    ensures
        ({
            let n = server::payload_len(op_in(s), w0_in(s), w1_in(s));
            ||| rest == s && (t is NoHandshake || t is Forward)
            ||| rest == Seq::<u8>::empty() && t is Bad && (n is None || n->0 > MAX_DATA || s.len()
                < 20 + n->0)
            ||| n is Some && s.len() >= 20 + n->0 && rest == s.skip(20 + n->0 as int)
        }),
{
}

/// What a client has no right to is not served, whatever it asks for: neither
/// an operation that it may not use nor a path outside its subtree.
pub proof fn law_rights_are_kept<B: BlockSource>(
    a: Server<B>,
    chan: u64,
    s: Seq<u8>,
    rest: Seq<u8>,
    t: Taken,
)
    requires
        taken_from(a, chan, s, rest, t),
        t is Ask,
    ensures
        rights::op_allowed(
            rights::rights_of(a.rights@, chan),
            server::ceiling_at(a.policy@, chan),
            op_in(s),
        ),
        ({
            let n = server::payload_len(op_in(s), w0_in(s), w1_in(s))->0;
            server::in_subtree(
                rights::rights_of(a.rights@, chan).subtree,
                op_in(s),
                s.subrange(20, 20 + n as int),
            )
        }),
{
}

} // verus!
