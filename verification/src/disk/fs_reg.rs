//! How the driver gets its mount points: a handshake with the file system
//! server, and then one mount point after the other. Nothing ever waits.
use vstd::prelude::*;

use super::rings::{fs_req_rollback, fs_req_write, fs_resp_read, fs_rings_reset};
use crate::bytes;
use crate::fs::codes::R_REGISTER;
use crate::ring;
use crate::ring::Ring;

verus! {

/// How far the driver has come.
#[derive(Clone, Copy, PartialEq, Eq, Debug, Structural)]
pub struct FsReg {
    pub fs_req_phys: u64,
    pub fs_resp_phys: u64,
    /// The channel to the server, once it is known.
    pub chan: Option<u64>,
    /// The server knows the rings.
    pub bufreg_done: bool,
    /// The request under way.
    pub pending: Option<i64>,
    /// The next mount point.
    pub idx: usize,
}

/// What is to be done.
#[derive(Clone, Copy, PartialEq, Eq, Debug, Structural)]
pub enum RegAction {
    /// Nothing, until something else happens.
    Idle,
    /// The server is to be looked up.
    Lookup,
    /// The server is to be told where the rings are.
    SendRings { chan: u64 },
    /// The server is to be told that a request of so many bytes is in the ring.
    SendRegister { chan: u64, len: usize },
}

/// What is to be done in a state, when `total` mount points are to be had.
pub open spec fn next_action(s: FsReg, total: int, prefix: Seq<u8>, fits: bool) -> RegAction {
    if s.idx >= total || s.pending is Some {
        RegAction::Idle
    } else {
        match s.chan {
            None => RegAction::Lookup,
            Some(chan) => if !s.bufreg_done {
                RegAction::SendRings { chan }
            } else if fits {
                RegAction::SendRegister { chan, len: (20 + prefix.len()) as usize }
            } else {
                RegAction::Idle
            },
        }
    }
}

/// The server is gone: everything starts anew, with the handshake.
pub open spec fn started_anew(r: FsReg) -> FsReg {
    FsReg { chan: None, bufreg_done: false, pending: None, idx: 0, ..r }
}

/// The state and the responses once the reply to the request under way came:
/// the handshake is done, or the mount point is had if the response says so.
pub open spec fn collected(r: FsReg, s: Seq<u8>) -> (FsReg, Seq<u8>) {
    let free = FsReg { pending: None, ..r };
    if !r.bufreg_done {
        (FsReg { bufreg_done: true, ..free }, s)
    } else if s.len() < 16 {
        (free, s)
    } else if bytes::le_value(s, 0, 8) == 0 {
        (FsReg { idx: (r.idx + 1) as usize, ..free }, s.skip(16))
    } else {
        (free, s.skip(16))
    }
}

impl FsReg {
    pub fn new(fs_req_phys: u64, fs_resp_phys: u64) -> (r: FsReg)
        ensures
            r == (FsReg {
                fs_req_phys,
                fs_resp_phys,
                chan: None,
                bufreg_done: false,
                pending: None,
                idx: 0,
            }),
    {
        FsReg { fs_req_phys, fs_resp_phys, chan: None, bufreg_done: false, pending: None, idx: 0 }
    }

    /// The server is gone: everything starts anew, with the handshake.
    pub fn reset(&mut self, req: &mut Ring, resp: &mut Ring)
        requires
            old(req).wf(),
            old(resp).wf(),
        ensures
            *final(self) == started_anew(*old(self)),
            final(req).wf(),
            final(resp).wf(),
            final(req)@ == Seq::<u8>::empty(),
            final(req).head_pos() == 0 && final(req).tail_pos() == 0,
            final(resp)@ == Seq::<u8>::empty(),
            final(resp).head_pos() == 0 && final(resp).tail_pos() == 0,
    {
        self.chan = None;
        self.bufreg_done = false;
        self.pending = None;
        self.idx = 0;
        fs_rings_reset(req, resp);
    }

    /// Whether all mount points are had.
    pub fn done(&self, total: usize) -> (r: bool)
        ensures
            r == (self.idx >= total),
    {
        self.idx >= total
    }

    /// What is to be done now. A request for a mount point is written into the
    /// ring.
    pub fn step(&self, prefixes: &Vec<Vec<u8>>, req: &mut Ring) -> (r: RegAction)
        requires
            old(req).wf(),
            self.idx < prefixes@.len() ==> prefixes@[self.idx as int]@.len() <= 0xFFEB,
        ensures
            final(req).wf(),
            ({
                let p = prefixes@[self.idx as int]@;
                &&& r == next_action(
                    *self,
                    prefixes@.len() as int,
                    p,
                    old(req).fits(20 + p.len() as int),
                )
                &&& final(req)@ == (if r is SendRegister {
                    old(req)@ + ring::request(R_REGISTER, p.len() as u64, 0, p)
                } else {
                    old(req)@
                })
                &&& if r is SendRegister {
                    ring::writer_moved(
                        *old(req),
                        *final(req),
                        ring::request(R_REGISTER, p.len() as u64, 0, p),
                    )
                } else {
                    ring::untouched(*old(req), *final(req))
                }
            }),
    {
        if self.done(prefixes.len()) || self.pending.is_some() {
            return RegAction::Idle;
        }
        match self.chan {
            None => RegAction::Lookup,
            Some(chan) => {
                if !self.bufreg_done {
                    return RegAction::SendRings { chan };
                }
                let p: &Vec<u8> = &prefixes[self.idx];
                if !fs_req_write(req, R_REGISTER, p.len() as u64, 0, p) {
                    return RegAction::Idle;
                }
                RegAction::SendRegister { chan, len: 20 + p.len() }
            },
        }
    }

    /// The server was looked up.
    pub fn looked_up(&mut self, chan: Option<u64>)
        ensures
            *final(self) == (match chan {
                Some(c) => FsReg { chan: Some(c), bufreg_done: false, ..*old(self) },
                None => *old(self),
            }),
    {
        if let Some(c) = chan {
            self.chan = Some(c);
            self.bufreg_done = false;
        }
    }

    /// A message was sent, under a number, or could not be: then a request is
    /// taken out of the ring again, and the server has to be looked up anew.
    pub fn sent(&mut self, action: RegAction, req_id: Option<i64>, req: &mut Ring)
        requires
            old(req).wf(),
            action matches RegAction::SendRegister { len, .. } ==> len <= old(req)@.len(),
        ensures
            final(req).wf(),
            *final(self) == (match req_id {
                Some(id) => FsReg { pending: Some(id), ..*old(self) },
                None => FsReg { chan: None, ..*old(self) },
            }),
            final(req)@ == (match (action, req_id) {
                (RegAction::SendRegister { len, .. }, None) => old(req)@.take(
                    old(req)@.len() - len,
                ),
                _ => old(req)@,
            }),
            final(req).tail_pos() == old(req).tail_pos(),
            final(req).page() == old(req).page(),
    {
        match req_id {
            Some(id) => {
                self.pending = Some(id);
            },
            None => {
                if let RegAction::SendRegister { chan, len } = action {
                    fs_req_rollback(req, len);
                }
                self.chan = None;
            },
        }
    }

    /// A reply came in. True if it answers the request under way: then the
    /// handshake is done, or the mount point is had if the response says so.
    pub fn collect_if_mine(&mut self, req_id: i64, resp: &mut Ring) -> (mine: bool)
        requires
            old(resp).wf(),
            old(self).idx < usize::MAX,
        ensures
            final(resp).wf(),
            ring::reader_moved(*old(resp), *final(resp)),
            mine == (req_id > 0 && old(self).pending == Some(req_id)),
            (*final(self), final(resp)@) == (if mine {
                collected(*old(self), old(resp)@)
            } else {
                (*old(self), old(resp)@)
            }),
    {
        match self.pending {
            Some(p) => {
                if req_id <= 0 || req_id != p {
                    return false;
                }
            },
            None => {
                return false;
            },
        }
        self.pending = None;
        if !self.bufreg_done {
            self.bufreg_done = true;
            return true;
        }
        match fs_resp_read(resp) {
            Some(v) => {
                if v == 0 {
                    self.idx = self.idx + 1;
                }
            },
            None => {},
        }
        true
    }
}

/// A request under way is never followed by another before it is answered.
pub proof fn law_one_request_at_a_time(s: FsReg, total: int, prefix: Seq<u8>, fits: bool)
    requires
        s.pending is Some,
    ensures
        next_action(s, total, prefix, fits) is Idle,
{
}

} // verus!
