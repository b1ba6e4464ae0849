//! The keyboard driver: scan codes from the controller wait in a queue until
//! the terminal asks for them.
use vstd::prelude::*;

use crate::bytes;
use crate::fs::codes::{DEV_CLOSE, DEV_KBD, DEV_OPEN, DEV_READ, DEV_READDIR, ERR};

verus! {

/// How many scan codes wait at most.
pub const SCANCAP: usize = 256;

/// How many scan codes are read at once at most.
pub const READ_MAX: usize = 256;

/// How long after one notice of the terminal the next may come, in ticks.
pub const NOTIFY_GAP: i64 = 2;

pub const PS2_DATA: u16 = 0x60;

pub const PS2_STATUS: u16 = 0x64;

// ── The queue ──

/// Scan codes that wait, the first one first. What comes when it is full is
/// dropped.
pub struct ScanQueue {
    buf: [u8; 256],
    head: usize,
    tail: usize,
    len: usize,
}

impl ScanQueue {
    pub closed spec fn view(&self) -> Seq<u8> {
        Seq::new(self.len as nat, |i: int| self.buf@[(self.head + i) % 256])
    }

    pub closed spec fn wf(&self) -> bool {
        &&& self.len <= 256
        &&& self.head < 256
        &&& self.tail == (self.head + self.len) % 256
    }

    pub fn new() -> (r: ScanQueue)
        ensures
            r.wf(),
            r@ == Seq::<u8>::empty(),
    {
        let r = ScanQueue { buf: [0; 256], head: 0, tail: 0, len: 0 };
        assert(r@ =~= Seq::empty());
        r
    }

    pub fn push(&mut self, sc: u8)
        requires
            old(self).wf(),
        ensures
            final(self).wf(),
            final(self)@ == (if old(self)@.len() == SCANCAP {
                old(self)@
            } else {
                old(self)@.push(sc)
            }),
    {
        if self.len == SCANCAP {
            return ;
        }
        let ghost q0 = self@;
        let ghost b0 = self.buf@;
        let ghost h = self.head as int;
        let ghost n = self.len as int;
        assert(self.buf@.len() == 256);
        let t: usize = self.tail;
        self.buf[t] = sc;
        self.tail = (t + 1) % SCANCAP;
        self.len = self.len + 1;
        assert(self@ =~= q0.push(sc)) by {
            assert forall|i: int| 0 <= i < n + 1 implies #[trigger] self@[i] == q0.push(sc)[i] by {
                if i < n {
                    assert((h + i) % 256 != (h + n) % 256);
                    assert(q0[i] == b0[(h + i) % 256]);
                }
            }
        }
    }

    pub fn len(&self) -> (r: usize)
        ensures
            r == self@.len(),
    {
        self.len
    }

    /// Takes out the first scan codes, `most` at most.
    pub fn drain_into(&mut self, most: usize) -> (r: Vec<u8>)
        requires
            old(self).wf(),
        ensures
            final(self).wf(),
            ({
                let n = if old(self)@.len() < most {
                    old(self)@.len() as int
                } else {
                    most as int
                };
                &&& r@ == old(self)@.take(n)
                &&& final(self)@ == old(self)@.skip(n)
            }),
    {
        let ghost q0 = self@;
        let mut out: Vec<u8> = Vec::new();
        assert(q0.take(0) =~= Seq::empty());
        assert(q0.skip(0) =~= q0);
        while self.len > 0 && out.len() < most
            invariant
                self.wf(),
                out@.len() <= most,
                out@.len() <= q0.len(),
                out@ == q0.take(out@.len() as int),
                self@ == q0.skip(out@.len() as int),
            decreases self.len,
        {
            let ghost k = out@.len() as int;
            let ghost s0 = self@;
            let ghost h = self.head as int;
            assert(s0[0] == self.buf@[(h + 0) % 256]);
            assert(self.buf@.len() == 256);
            let b: u8 = self.buf[self.head];
            out.push(b);
            assert((h + 0) % 256 == h);
            assert(b == s0[0]);
            assert(s0.len() == self.len);
            assert(q0.skip(k).len() == q0.len() - k);
            assert(q0.skip(k)[0] == q0[k]);
            self.head = (self.head + 1) % SCANCAP;
            self.len = self.len - 1;
            assert(out@ =~= q0.take(k + 1));
            assert(self@ =~= s0.skip(1)) by {
                assert forall|i: int| 0 <= i < s0.len() - 1 implies #[trigger] self@[i]
                    == s0.skip(1)[i] by {
                    assert(((h + 1) % 256 + i) % 256 == (h + (i + 1)) % 256);
                }
            }
            assert(s0.skip(1) =~= q0.skip(k + 1));
        }
        out
    }
}

// ── The controller ──

/// A byte is waiting in the controller.
pub open spec fn byte_waits(status: u8) -> bool {
    status % 2 == 1
}

/// The byte that waits is a scan code: it comes from the keyboard, not from the
/// mouse, and without an error.
pub open spec fn from_keyboard(status: u8) -> bool {
    status < 0x20
}

/// Whether the controller has a byte that is to be read.
pub fn has_byte(status: u8) -> (r: bool)
    ensures
        r == byte_waits(status),
{
    status % 2 == 1
}

/// Takes in a byte that was read from the controller. One that is no scan code
/// had to be read to make room, and is dropped.
pub fn take_byte(q: &mut ScanQueue, status: u8, byte: u8)
    requires
        old(q).wf(),
    ensures
        final(q).wf(),
        final(q)@ == (if from_keyboard(status) && old(q)@.len() < SCANCAP {
            old(q)@.push(byte)
        } else {
            old(q)@
        }),
{
    if status < 0x20 {
        q.push(byte);
    }
}

/// What is written to set the controller up, before its command byte is read:
/// keyboard and mouse are switched off, and the command byte is asked for.
pub fn setup_first() -> (r: Vec<(u16, u8)>)
    ensures
        r@ == seq![(PS2_STATUS, 0xADu8), (PS2_STATUS, 0xA7u8), (PS2_STATUS, 0x20u8)],
{
    let r: Vec<(u16, u8)> = vec![(PS2_STATUS, 0xAD), (PS2_STATUS, 0xA7), (PS2_STATUS, 0x20)];
    assert(r@ =~= seq![(PS2_STATUS, 0xADu8), (PS2_STATUS, 0xA7u8), (PS2_STATUS, 0x20u8)]);
    r
}

/// The command byte with the interrupt of the keyboard switched on.
pub open spec fn with_interrupt(cmd: u8) -> u8 {
    if cmd % 2 == 0 {
        (cmd + 1) as u8
    } else {
        cmd
    }
}

/// What is written after that: the command byte with the interrupt switched on,
/// and keyboard and scanning are switched on. If the command byte did not come,
/// a usual one is taken.
pub fn setup_rest(cmd: Option<u8>) -> (r: Vec<(u16, u8)>)
    ensures
        ({
            let c = with_interrupt(
                match cmd {
                    Some(c) => c,
                    None => 0x65,
                },
            );
            r@ == seq![
                (PS2_STATUS, 0x60u8),
                (PS2_DATA, c),
                (PS2_STATUS, 0xAEu8),
                (PS2_DATA, 0xF4u8),
            ]
        }),
{
    let c: u8 = match cmd {
        Some(c) => c,
        None => 0x65,
    };
    let on: u8 = if c % 2 == 0 {
        c + 1
    } else {
        c
    };
    let r: Vec<(u16, u8)> = vec![
        (PS2_STATUS, 0x60),
        (PS2_DATA, on),
        (PS2_STATUS, 0xAE),
        (PS2_DATA, 0xF4),
    ];
    assert(r@ =~= seq![
        (PS2_STATUS, 0x60u8),
        (PS2_DATA, with_interrupt(c)),
        (PS2_STATUS, 0xAEu8),
        (PS2_DATA, 0xF4u8),
    ]);
    r
}

// ── The driver ──

/// What is answered to a request: a word, and bytes for the one who reads.
pub struct Answer {
    pub reply: u64,
    pub frame: Option<Vec<u8>>,
}

pub struct Kbd {
    pub queue: ScanQueue,
    pub next_fd: u32,
    pub last_notify: i64,
}

/// How many scan codes a read gets.
pub open spec fn read_len(queue: Seq<u8>, w1: u64) -> int {
    let most = if w1 < READ_MAX {
        w1 as int
    } else {
        READ_MAX as int
    };
    if queue.len() < most {
        queue.len() as int
    } else {
        most
    }
}

impl Kbd {
    pub fn new() -> (r: Kbd)
        ensures
            r.queue.wf(),
            r.queue@ == Seq::<u8>::empty(),
            r.next_fd == 1,
            r.last_notify == 0,
    {
        Kbd { queue: ScanQueue::new(), next_fd: 1, last_notify: 0 }
    }

    /// Serves a request. A read gets what there is at once, even if that is
    /// nothing.
    pub fn serve(&mut self, tag: u64, w0: u64, w1: u64) -> (r: Answer)
        requires
            old(self).queue.wf(),
            old(self).next_fd < u32::MAX,
        ensures
            final(self).queue.wf(),
            final(self).last_notify == old(self).last_notify,
            final(self).next_fd == (if tag == DEV_OPEN && w0 == DEV_KBD {
                old(self).next_fd + 1
            } else {
                old(self).next_fd as int
            }),
            ({
                let n = read_len(old(self).queue@, w1);
                let frame = match r.frame {
                    Some(f) => Some(f@),
                    None => None,
                };
                if tag == DEV_READ {
                    &&& r.reply == n
                    &&& frame == Some(old(self).queue@.take(n))
                    &&& final(self).queue@ == old(self).queue@.skip(n)
                } else {
                    &&& final(self).queue@ == old(self).queue@
                    &&& frame == (if tag == DEV_READDIR {
                        Some(bytes::lit("kbd\0"))
                    } else {
                        None
                    })
                    &&& r.reply == (if tag == DEV_OPEN && w0 == DEV_KBD {
                        old(self).next_fd as u64
                    } else if tag == DEV_CLOSE {
                        0
                    } else if tag == DEV_READDIR {
                        1
                    } else {
                        ERR
                    })
                }
            }),
    {
        if tag == DEV_OPEN && w0 == DEV_KBD {
            let fd: u32 = self.next_fd;
            self.next_fd = fd + 1;
            return Answer { reply: fd as u64, frame: None };
        }
        if tag == DEV_READ {
            let most: usize = if w1 < READ_MAX as u64 {
                w1 as usize
            } else {
                READ_MAX
            };
            let b: Vec<u8> = self.queue.drain_into(most);
            return Answer { reply: b.len() as u64, frame: Some(b) };
        }
        if tag == DEV_CLOSE {
            return Answer { reply: 0, frame: None };
        }
        if tag == DEV_READDIR {
            let f: Vec<u8> = bytes::copy_of("kbd\0".as_bytes());
            return Answer { reply: 1, frame: Some(f) };
        }
        Answer { reply: ERR, frame: None }
    }

    /// Whether the terminal is to be told that scan codes wait: at once when
    /// the first ones came, else not too often. `had` is how many waited
    /// before the controller was emptied.
    pub fn notify_due(&self, had: usize, now: i64) -> (r: bool)
        ensures
            r == (self.queue@.len() > 0 && (had == 0 || now.wrapping_sub(self.last_notify)
                >= NOTIFY_GAP)),
    {
        self.queue.len() > 0 && (had == 0 || now.wrapping_sub(self.last_notify) >= NOTIFY_GAP)
    }

    /// The terminal was told.
    pub fn notified(&mut self, now: i64)
        ensures
            *final(self) == (Kbd { last_notify: now, ..*old(self) }),
    {
        self.last_notify = now;
    }
}

/// Scan codes are read in the order in which they came: what is taken out and
/// what is left are what was there.
pub proof fn law_scan_codes_in_order(queue: Seq<u8>, w1: u64)
    ensures
        queue.take(read_len(queue, w1)) + queue.skip(read_len(queue, w1)) == queue,
        read_len(queue, w1) <= READ_MAX,
{
    assert(queue.take(read_len(queue, w1)) + queue.skip(read_len(queue, w1)) =~= queue);
}

/// A read gets as much as it asks for and there is, in one go.
pub proof fn law_read_gets_what_there_is(queue: Seq<u8>, w1: u64)
    requires
        queue.len() <= SCANCAP,
    ensures
        read_len(queue, w1) <= w1,
        queue.len() <= w1 ==> read_len(queue, w1) == queue.len(),
        w1 <= queue.len() ==> read_len(queue, w1) == w1,
{
}

/// A byte counts as a scan code unless the controller marks it as the mouse's,
/// or as come too late or broken.
pub proof fn law_marked_bytes_are_no_scan_codes(status: u8)
    ensures
        from_keyboard(status) == (status & 0x20 == 0 && status & 0x40 == 0 && status & 0x80 == 0),
        byte_waits(status) == (status & 1 != 0),
{
    assert((status < 0x20) == (status & 0x20 == 0 && status & 0x40 == 0 && status & 0x80 == 0)
        && (status % 2 == 1) == (status & 1 != 0)) by (bit_vector);
}

/// Switching the interrupt on sets one bit of the command byte and leaves the
/// others.
pub proof fn law_interrupt_is_one_bit(cmd: u8)
    ensures
        with_interrupt(cmd) & 1 != 0,
        with_interrupt(cmd) & 0xFE == cmd & 0xFE,
{
    assert(cmd % 2 == 1 ==> cmd & 1 != 0) by (bit_vector);
    assert(cmd % 2 == 0 ==> ((cmd + 1) as u8) & 1 != 0 && ((cmd + 1) as u8) & 0xFE == cmd & 0xFE)
        by (bit_vector);
}

} // verus!
