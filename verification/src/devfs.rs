//! The devices `/dev/null` and `/dev/zero`.
use std::collections::BTreeMap;
use vstd::prelude::*;

use crate::bytes;
use crate::fs::codes::{
    DEV_CLOSE, DEV_NULL, DEV_OPEN, DEV_READ, DEV_READDIR, DEV_WRITE, DEV_ZERO, ERR,
};

verus! {

broadcast use vstd::std_specs::btree::group_btree_axioms;

/// How many bytes are read at once at most.
pub const READ_MAX: usize = 4096;

#[derive(Clone, Copy, PartialEq, Eq, Debug, Structural)]
pub enum DeviceType {
    Null,
    Zero,
}

/// The open descriptors.
pub struct DevTable {
    pub fds: BTreeMap<u32, DeviceType>,
    pub next_fd: u32,
}

/// What is answered to a request: a word, and bytes for the one who reads.
pub struct Answer {
    pub reply: u64,
    pub frame: Option<Vec<u8>>,
}

/// The kind of device with a number.
pub open spec fn device_of(w0: u64) -> Option<DeviceType> {
    if w0 == DEV_NULL {
        Some(DeviceType::Null)
    } else if w0 == DEV_ZERO {
        Some(DeviceType::Zero)
    } else {
        None
    }
}

/// The bytes that a read gets: none from `/dev/null`, zeros from `/dev/zero`.
pub open spec fn device_bytes(d: DeviceType, w1: u64) -> Seq<u8> {
    match d {
        DeviceType::Null => Seq::empty(),
        DeviceType::Zero => bytes::filled(
            0,
            if w1 < READ_MAX {
                w1 as nat
            } else {
                READ_MAX as nat
            },
        ),
    }
}

/// The descriptor that a word stands for: its low half.
pub open spec fn fd_of(w0: u64) -> u32 {
    (w0 % 0x1_0000_0000) as u32
}

/// A request was served.
pub open spec fn served(
    before: (Map<u32, DeviceType>, u32),
    after: (Map<u32, DeviceType>, u32),
    tag: u64,
    w0: u64,
    w1: u64,
    reply: u64,
    frame: Option<Seq<u8>>,
) -> bool {
    let (fds, next) = before;
    if tag == DEV_OPEN {
        &&& frame is None
        &&& match device_of(w0) {
            Some(d) => {
                &&& reply == next
                &&& after == (fds.insert(next, d), (next + 1) as u32)
            },
            None => reply == ERR && after == before,
        }
    } else if tag == DEV_READ {
        &&& after == before
        &&& if fds.contains_key(fd_of(w0)) {
            let b = device_bytes(fds[fd_of(w0)], w1);
            frame == Some(b) && reply == b.len()
        } else {
            frame is None && reply == ERR
        }
    } else if tag == DEV_WRITE {
        &&& after == before
        &&& frame is None
        &&& reply == w1
    } else if tag == DEV_CLOSE {
        &&& frame is None
        &&& after == (fds.remove(fd_of(w0)), next)
        &&& reply == (if fds.contains_key(fd_of(w0)) {
            0
        } else {
            ERR
        })
    } else if tag == DEV_READDIR {
        &&& after == before
        &&& frame == Some(bytes::lit("null\0zero\0"))
        &&& reply == 2
    } else {
        &&& after == before
        &&& frame is None
        &&& reply == ERR
    }
}

impl DevTable {
    pub open spec fn view(&self) -> (Map<u32, DeviceType>, u32) {
        (self.fds@, self.next_fd)
    }

    /// Descriptors are given out in order: those in use are below the next one.
    pub open spec fn wf(&self) -> bool {
        forall|fd: u32| #[trigger] self.fds@.contains_key(fd) ==> fd < self.next_fd
    }

    pub fn new() -> (r: DevTable)
        ensures
            r@ == (Map::<u32, DeviceType>::empty(), 1u32),
            r.wf(),
    {
        let r = DevTable { fds: BTreeMap::new(), next_fd: 1 };
        assert(r.fds@ =~= Map::empty());
        r
    }

    pub fn open(&mut self, device: DeviceType) -> (r: u64)
        requires
            old(self).wf(),
            old(self).next_fd < u32::MAX,
        ensures
            final(self).wf(),
            r == old(self).next_fd,
            !old(self).fds@.contains_key(old(self).next_fd),
            final(self)@ == (
                old(self).fds@.insert(old(self).next_fd, device),
                (old(self).next_fd + 1) as u32,
            ),
    {
        let fd: u32 = self.next_fd;
        self.next_fd = fd + 1;
        self.fds.insert(fd, device);
        fd as u64
    }

    pub fn close(&mut self, fd: u32) -> (r: bool)
        requires
            old(self).wf(),
        ensures
            final(self).wf(),
            r == old(self).fds@.contains_key(fd),
            final(self)@ == (old(self).fds@.remove(fd), old(self).next_fd),
    {
        match self.fds.remove(&fd) {
            Some(_) => true,
            None => false,
        }
    }

    pub fn get(&self, fd: u32) -> (r: Option<DeviceType>)
        ensures
            r == (if self.fds@.contains_key(fd) {
                Some(self.fds@[fd])
            } else {
                None
            }),
    {
        match self.fds.get(&fd) {
            Some(d) => Some(*d),
            None => None,
        }
    }

    /// Serves a request. What is written is dropped.
    pub fn serve(&mut self, tag: u64, w0: u64, w1: u64) -> (r: Answer)
        requires
            old(self).wf(),
            old(self).next_fd < u32::MAX,
        ensures
            final(self).wf(),
            served(
                old(self)@,
                final(self)@,
                tag,
                w0,
                w1,
                r.reply,
                match r.frame {
                    Some(f) => Some(f@),
                    None => None,
                },
            ),
    {
        let fd: u32 = (w0 % 0x1_0000_0000) as u32;
        if tag == DEV_OPEN {
            if w0 == DEV_NULL {
                return Answer { reply: self.open(DeviceType::Null), frame: None };
            }
            if w0 == DEV_ZERO {
                return Answer { reply: self.open(DeviceType::Zero), frame: None };
            }
            return Answer { reply: ERR, frame: None };
        }
        if tag == DEV_READ {
            return match self.get(fd) {
                Some(DeviceType::Null) => {
                    let b: Vec<u8> = Vec::new();
                    assert(b@ =~= Seq::empty());
                    Answer { reply: 0, frame: Some(b) }
                },
                Some(DeviceType::Zero) => {
                    let n: usize = if w1 < READ_MAX as u64 {
                        w1 as usize
                    } else {
                        READ_MAX
                    };
                    let b: Vec<u8> = bytes::repeat_byte(0, n);
                    Answer { reply: n as u64, frame: Some(b) }
                },
                None => Answer { reply: ERR, frame: None },
            };
        }
        if tag == DEV_WRITE {
            return Answer { reply: w1, frame: None };
        }
        if tag == DEV_CLOSE {
            let v: u64 = if self.close(fd) {
                0
            } else {
                ERR
            };
            return Answer { reply: v, frame: None };
        }
        if tag == DEV_READDIR {
            let f: Vec<u8> = bytes::copy_of("null\0zero\0".as_bytes());
            return Answer { reply: 2, frame: Some(f) };
        }
        Answer { reply: ERR, frame: None }
    }
}

/// A descriptor that is given out is not in use.
pub proof fn law_descriptor_is_new(
    before: (Map<u32, DeviceType>, u32),
    after: (Map<u32, DeviceType>, u32),
    w0: u64,
    reply: u64,
)
    requires
        served(before, after, DEV_OPEN, w0, 0, reply, None),
        reply != ERR,
        forall|fd: u32| #[trigger] before.0.contains_key(fd) ==> fd < before.1,
    ensures
        !before.0.contains_key(reply as u32),
        after.0.contains_key(reply as u32),
{
}

/// A device that was opened is read through the descriptor that was given out
/// for it: the one gives nothing, the other as many zeros as are asked for. The
/// other descriptors stay.
pub proof fn law_opened_is_what_is_read(
    before: (Map<u32, DeviceType>, u32),
    opened: (Map<u32, DeviceType>, u32),
    w0: u64,
    fd: u64,
    w1: u64,
    after: (Map<u32, DeviceType>, u32),
    reply: u64,
    frame: Option<Seq<u8>>,
)
    requires
        w0 == DEV_NULL || w0 == DEV_ZERO,
        served(before, opened, DEV_OPEN, w0, 0, fd, None),
        served(opened, after, DEV_READ, fd, w1, reply, frame),
    ensures
        frame is Some,
        reply == frame->0.len(),
        w0 == DEV_NULL ==> frame->0.len() == 0,
        w0 == DEV_ZERO ==> frame->0.len() == (if w1 < READ_MAX {
            w1 as int
        } else {
            READ_MAX as int
        }),
        forall|i: int| 0 <= i < frame->0.len() ==> #[trigger] frame->0[i] == 0,
        after == opened,
        forall|k: u32| k != before.1 && #[trigger] before.0.contains_key(k) ==> opened.0.contains_key(k)
            && opened.0[k] == before.0[k],
{
    assert(fd < 0x1_0000_0000);
    assert(fd_of(fd) == before.1);
}

/// A descriptor that was closed is refused from then on; what is written to a
/// device is taken and has no effect.
pub proof fn law_closed_is_refused(
    before: (Map<u32, DeviceType>, u32),
    closed: (Map<u32, DeviceType>, u32),
    fd: u64,
    w1: u64,
    after: (Map<u32, DeviceType>, u32),
    reply: u64,
    frame: Option<Seq<u8>>,
)
    requires
        served(before, closed, DEV_CLOSE, fd, 0, 0, None),
        served(closed, after, DEV_READ, fd, w1, reply, frame),
    ensures
        reply == ERR,
        frame is None,
        served(closed, closed, DEV_CLOSE, fd, 0, ERR, None),
        served(closed, closed, DEV_WRITE, fd, w1, w1, None),
{
    assert(closed.0.remove(fd_of(fd)) =~= closed.0);
}

} // verus!
