//! What the driver does with a message: a reply to a request of its own, the
//! end of the file system server, a request for sectors or names, or one for a
//! device.
use vstd::prelude::*;

use super::fs_reg;
use super::fs_reg::FsReg;
use super::rings;
use super::server;
use super::server::DiskServer;
use crate::fs::block::BlockSource;
use crate::fs::codes::{
    DEV_CLOSE, DEV_OPEN, DEV_READ, DEV_READDIR, DEV_WRITE, DISK_CLOSE, DISK_HELLO, DISK_OPEN,
    DISK_READ, DISK_RESOLVE, DISK_WRITE, ERR,
};
use crate::ring;
use crate::ring::Ring;

verus! {

/// A message.
#[derive(Clone, Copy, PartialEq, Eq, Debug, Structural)]
pub struct Msg {
    pub tag: u64,
    pub w0: u64,
    pub w1: u64,
    /// The number of the request that it replies to, if it is a reply.
    pub req_id: i64,
    /// It tells that the file system server ended.
    pub exit: bool,
}

/// What is done about a message.
pub struct Answer {
    /// The two words of the reply; none if nobody waits for one.
    pub reply: Option<(u64, u64)>,
    /// The bytes for the client of a device.
    pub frame: Option<Vec<u8>>,
    /// How many bytes the client sent along, which are to be dropped.
    pub dropped: u64,
}

/// The rings of the driver.
pub struct Pages {
    /// Its requests to the file system server, and the responses.
    pub fs_req: Ring,
    pub fs_resp: Ring,
    /// The requests of the file system server to it, and its responses.
    pub disk_req: Ring,
    pub disk_resp: Ring,
    /// Where the latter two are in memory.
    pub req_phys: u64,
    pub resp_phys: u64,
}

impl Pages {
    pub open spec fn wf(&self) -> bool {
        self.fs_req.wf() && self.fs_resp.wf() && self.disk_req.wf() && self.disk_resp.wf()
    }
}

/// Whether a message replies to the request under way.
pub open spec fn is_reply(reg: FsReg, m: Msg) -> bool {
    m.req_id > 0 && reg.pending == Some(m.req_id)
}

/// The words, and nothing else.
pub open spec fn only(a: Answer, w0: u64, w1: u64) -> bool {
    a.reply == Some((w0, w1)) && a.frame is None && a.dropped == 0
}

/// The handle, or the descriptor, in a word: its low half.
pub open spec fn low_half(w: u64) -> u32 {
    (w % 0x1_0000_0000) as u32
}

/// A request for sectors or names was served.
pub open spec fn disk_served<D: BlockSource>(
    a: DiskServer<D>,
    b: DiskServer<D>,
    p: Pages,
    q: Pages,
    m: Msg,
    ans: Answer,
) -> bool {
    let handle = low_half(m.w0);
    &&& ans.frame is None
    &&& ans.dropped == 0
    &&& ring::untouched(p.fs_req, q.fs_req)
    &&& ring::untouched(p.fs_resp, q.fs_resp)
    &&& ring::reader_moved(p.disk_req, q.disk_req)
    &&& b.fds@ == a.fds@
    &&& b.next_fd == a.next_fd
    &&& ans.reply is Some
    &&& ({
        let (w0, w1) = ans.reply->0;
        if m.tag == DISK_HELLO {
            &&& (w0, w1) == (p.req_phys, p.resp_phys)
            &&& b == a
            &&& ring::untouched(p.disk_req, q.disk_req)
            &&& ring::untouched(p.disk_resp, q.disk_resp)
        } else if m.tag == DISK_OPEN || m.tag == DISK_CLOSE {
            &&& w1 == 0
            &&& w0 == (if m.tag == DISK_OPEN {
                server::open_reply(a, handle)
            } else {
                0
            })
            &&& b == a
            &&& ring::untouched(p.disk_req, q.disk_req)
            &&& ring::untouched(p.disk_resp, q.disk_resp)
        } else if m.tag == DISK_READ {
            &&& w1 == 0
            &&& b.only_read(&a)
            &&& server::disk_read_done(
                a,
                b,
                handle,
                m.w1,
                p.disk_req@,
                q.disk_req@,
                p.disk_resp,
                q.disk_resp,
                w0,
            )
        } else if m.tag == DISK_WRITE {
            &&& w1 == 0
            &&& server::disk_write_done(a, b, handle, m.w1, p.disk_req@, w0)
            &&& q.disk_req@ == rings::past_sectors(p.disk_req@)
            &&& ring::untouched(p.disk_resp, q.disk_resp)
        } else {
            &&& w1 == 0
            &&& w0 == server::resolve_reply(a, p.disk_req@)
            &&& b == a
            &&& q.disk_req@ == rings::past_name(p.disk_req@)
            &&& ring::untouched(p.disk_resp, q.disk_resp)
        }
    })
}

/// A request for a device was served. Devices cannot be written, and have no
/// names below them.
pub open spec fn dev_served<D: BlockSource>(
    a: DiskServer<D>,
    b: DiskServer<D>,
    m: Msg,
    ans: Answer,
) -> bool {
    let low = low_half(m.w0);
    &&& b.only_read(&a)
    &&& ans.reply is Some
    &&& ({
        let (w0, w1) = ans.reply->0;
        &&& w1 == 0
        &&& ans.dropped == (if m.tag == DEV_WRITE {
            m.w1
        } else {
            0
        })
        &&& if m.tag == DEV_OPEN {
            ans.frame is None && server::dev_open_done(a, b, low, w0)
        } else if m.tag == DEV_READ {
            b.next_fd == a.next_fd && server::dev_read_done(a, b, low, m.w1, w0, ans.frame)
        } else if m.tag == DEV_CLOSE {
            ans.frame is None && server::dev_close_done(a, b, low, w0)
        } else {
            &&& b == a
            &&& if m.tag == DEV_READDIR {
                w0 == 0 && (ans.frame matches Some(f) && f@.len() == 0)
            } else {
                w0 == ERR && ans.frame is None
            }
        }
    })
}

pub open spec fn is_disk_request(tag: u64) -> bool {
    tag == DISK_HELLO || tag == DISK_OPEN || tag == DISK_READ || tag == DISK_CLOSE || tag
        == DISK_WRITE || tag == DISK_RESOLVE
}

/// A message was dealt with: replies first, then the end of the file system
/// server, then requests.
pub open spec fn dealt_with<D: BlockSource>(
    a: DiskServer<D>,
    b: DiskServer<D>,
    r0: FsReg,
    r1: FsReg,
    p: Pages,
    q: Pages,
    m: Msg,
    ans: Answer,
) -> bool {
    if is_reply(r0, m) || m.exit {
        &&& ans.reply is None
        &&& ans.frame is None
        &&& ans.dropped == 0
        &&& b == a
        &&& ring::untouched(p.disk_req, q.disk_req)
        &&& ring::untouched(p.disk_resp, q.disk_resp)
        &&& if is_reply(r0, m) {
            &&& ring::untouched(p.fs_req, q.fs_req)
            &&& ring::reader_moved(p.fs_resp, q.fs_resp)
            &&& (r1, q.fs_resp@) == fs_reg::collected(r0, p.fs_resp@)
        } else {
            &&& r1 == fs_reg::started_anew(r0)
            &&& q.fs_req@ == Seq::<u8>::empty()
            &&& q.fs_req.head_pos() == 0 && q.fs_req.tail_pos() == 0
            &&& q.fs_resp@ == Seq::<u8>::empty()
            &&& q.fs_resp.head_pos() == 0 && q.fs_resp.tail_pos() == 0
        }
    } else {
        &&& r1 == r0
        &&& if is_disk_request(m.tag) {
            disk_served(a, b, p, q, m, ans)
        } else {
            &&& dev_served(a, b, m, ans)
            &&& ring::untouched(p.fs_req, q.fs_req)
            &&& ring::untouched(p.fs_resp, q.fs_resp)
            &&& ring::untouched(p.disk_req, q.disk_req)
            &&& ring::untouched(p.disk_resp, q.disk_resp)
        }
    }
}

fn words(w0: u64, w1: u64) -> (r: Answer)
    ensures
        only(r, w0, w1),
{
    Answer { reply: Some((w0, w1)), frame: None, dropped: 0 }
}

fn serve_disk<D: BlockSource>(s: &mut DiskServer<D>, p: &mut Pages, m: Msg) -> (r: Answer)
    requires
        old(s).wf(),
        old(p).wf(),
        is_disk_request(m.tag),
    ensures
        final(s).wf(),
        final(p).wf(),
        final(p).req_phys == old(p).req_phys,
        final(p).resp_phys == old(p).resp_phys,
        disk_served(*old(s), *final(s), *old(p), *final(p), m, r),
{
    let handle: u32 = (m.w0 % 0x1_0000_0000) as u32;
    if m.tag == DISK_HELLO {
        words(p.req_phys, p.resp_phys)
    } else if m.tag == DISK_OPEN {
        let v: u64 = s.disk_open(handle);
        words(v, 0)
    } else if m.tag == DISK_CLOSE {
        words(0, 0)
    } else if m.tag == DISK_READ {
        let v: u64 = s.disk_read(handle, m.w1, &mut p.disk_req, &mut p.disk_resp);
        words(v, 0)
    } else if m.tag == DISK_WRITE {
        let v: u64 = s.disk_write(handle, m.w1, &mut p.disk_req);
        words(v, 0)
    } else {
        let v: u64 = s.disk_resolve(&mut p.disk_req);
        words(v, 0)
    }
}

fn serve_dev<D: BlockSource>(s: &mut DiskServer<D>, m: Msg) -> (r: Answer)
    requires
        old(s).wf(),
        old(s).next_fd < u32::MAX,
    ensures
        final(s).wf(),
        dev_served(*old(s), *final(s), m, r),
{
    let low: u32 = (m.w0 % 0x1_0000_0000) as u32;
    if m.tag == DEV_OPEN {
        let v: u64 = s.dev_open(low);
        words(v, 0)
    } else if m.tag == DEV_READ {
        let (v, frame): (u64, Option<Vec<u8>>) = s.dev_read(low, m.w1);
        Answer { reply: Some((v, 0)), frame, dropped: 0 }
    } else if m.tag == DEV_WRITE {
        Answer { reply: Some((ERR, 0)), frame: None, dropped: m.w1 }
    } else if m.tag == DEV_CLOSE {
        let v: u64 = s.dev_close(low);
        words(v, 0)
    } else if m.tag == DEV_READDIR {
        let none: Vec<u8> = Vec::new();
        Answer { reply: Some((0, 0)), frame: Some(none), dropped: 0 }
    } else {
        words(ERR, 0)
    }
}

/// Deals with a message.
pub fn deal_with<D: BlockSource>(
    s: &mut DiskServer<D>,
    reg: &mut FsReg,
    p: &mut Pages,
    m: Msg,
) -> (r: Answer)
    requires
        old(s).wf(),
        old(p).wf(),
        old(s).next_fd < u32::MAX,
        old(reg).idx < usize::MAX,
    ensures
        final(s).wf(),
        final(p).wf(),
        final(p).req_phys == old(p).req_phys,
        final(p).resp_phys == old(p).resp_phys,
        dealt_with(*old(s), *final(s), *old(reg), *final(reg), *old(p), *final(p), m, r),
{
    if reg.collect_if_mine(m.req_id, &mut p.fs_resp) {
        return Answer { reply: None, frame: None, dropped: 0 };
    }
    if m.exit {
        reg.reset(&mut p.fs_req, &mut p.fs_resp);
        return Answer { reply: None, frame: None, dropped: 0 };
    }
    if m.tag == DISK_HELLO || m.tag == DISK_OPEN || m.tag == DISK_READ || m.tag == DISK_CLOSE
        || m.tag == DISK_WRITE || m.tag == DISK_RESOLVE {
        serve_disk(s, p, m)
    } else {
        serve_dev(s, m)
    }
}

/// The driver never leaves a client without an answer: everything but a reply
/// to itself and the end of the file system server is answered. And it answers
/// neither of those two, so that it never waits for the file system server.
pub proof fn law_every_request_is_answered<D: BlockSource>(
    a: DiskServer<D>,
    b: DiskServer<D>,
    r0: FsReg,
    r1: FsReg,
    p: Pages,
    q: Pages,
    m: Msg,
    ans: Answer,
)
    requires
        dealt_with(a, b, r0, r1, p, q, m, ans),
    ensures
        ans.reply is Some <==> !is_reply(r0, m) && !m.exit,
{
}

/// Whole disks and partitions cannot be written as devices: what they hold
/// stays, and the writer is refused.
pub proof fn law_devices_are_read_only<D: BlockSource>(
    a: DiskServer<D>,
    b: DiskServer<D>,
    r0: FsReg,
    r1: FsReg,
    p: Pages,
    q: Pages,
    m: Msg,
    ans: Answer,
)
    requires
        dealt_with(a, b, r0, r1, p, q, m, ans),
        !is_reply(r0, m),
        !m.exit,
        m.tag == DEV_WRITE,
    ensures
        ans.reply == Some((ERR, 0u64)),
        b.held() == a.held(),
{
}

} // verus!
