//! The state of the terminal server and what its messages do to it.
//!
//! The server never waits for the file system server, which may be waiting for
//! it: it has one request under way at a time and goes on when the reply comes.
use std::collections::VecDeque;
use vstd::prelude::*;
use vstd::slice::slice_subrange;

use super::keys;
use super::keys::{cooked, give_code, new_decoder, Decoder, Key};
use crate::bytes;
use crate::bytes::{append_bytes, copy_of};
use crate::fs::codes::{DEV_CLOSE, DEV_KEYBOARD, DEV_OPEN, DEV_READ, DEV_WRITE, ERR};

verus! {

/// The keyboard driver has scan codes. Wants no reply.
pub const KBD_NOTIFY: u64 = 0x40;

/// How many typed bytes wait to be read at most.
pub const INPUT_CAPACITY: usize = 256;

/// How many bytes wait to be shown at most.
pub const OUT_CAPACITY: usize = 16384;

/// How many bytes are read at once at most.
pub const READ_MAX: usize = 256;

/// How many bytes go to the console at once at most.
pub const FLUSH_CHUNK: usize = 4000;

/// How many scan codes are asked for at once.
pub const PUMP_CHUNK: usize = 64;

/// After how many errors in a row everything is opened anew.
pub const ERROR_LIMIT: u32 = 50;

/// How long to wait after a request that could not be sent, in ticks.
pub const BACKOFF: i64 = 2;

/// A device that is not open.
pub const CLOSED: i64 = -1;

/// What the request under way is for.
#[derive(Clone, Copy, PartialEq, Eq, Debug, Structural)]
pub enum OpKind {
    BufReg,
    OpenKbd,
    OpenCon,
    Register,
    PumpRead,
    ConWrite,
}

/// The request under way.
#[derive(Clone, Copy, PartialEq, Eq, Debug, Structural)]
pub struct Pending {
    pub req: i64,
    pub kind: OpKind,
}

#[derive(Clone, Copy, PartialEq, Eq, Debug, Structural)]
pub enum Phase {
    LookupFs,
    BufReg,
    OpenKbd,
    OpenCon,
    Register,
    Steady,
}

pub struct Tty {
    pub phase: Phase,
    pub pending: Option<Pending>,
    pub kbd_fd: i64,
    pub con_fd: i64,
    /// What was typed and not read yet.
    pub input: VecDeque<u8>,
    /// What is to be shown.
    pub out: Vec<u8>,
    pub decoder: Decoder,
    pub err_streak: u32,
    pub ready_sent: bool,
    pub flush_wait_until: i64,
    /// Scan codes are to be asked for.
    pub pump_now: bool,
    pub pump_wait_until: i64,
    /// How many bytes were typed on the line: only those can be taken back.
    pub line_len: usize,
}

/// The server as a value; of the decoder, the scan codes that it was given.
#[verifier::ext_equal]
pub struct TtyView {
    pub phase: Phase,
    pub pending: Option<Pending>,
    pub kbd_fd: i64,
    pub con_fd: i64,
    pub input: Seq<u8>,
    pub out: Seq<u8>,
    pub codes: Seq<u8>,
    pub err_streak: int,
    pub ready_sent: bool,
    pub flush_wait_until: i64,
    pub pump_now: bool,
    pub pump_wait_until: i64,
    pub line_len: int,
}

impl View for Tty {
    type V = TtyView;

    open spec fn view(&self) -> TtyView {
        TtyView {
            phase: self.phase,
            pending: self.pending,
            kbd_fd: self.kbd_fd,
            con_fd: self.con_fd,
            input: self.input@,
            out: self.out@,
            codes: keys::codes_given(self.decoder),
            err_streak: self.err_streak as int,
            ready_sent: self.ready_sent,
            flush_wait_until: self.flush_wait_until,
            pump_now: self.pump_now,
            pump_wait_until: self.pump_wait_until,
            line_len: self.line_len as int,
        }
    }
}

pub open spec fn new_tty() -> TtyView {
    TtyView {
        phase: Phase::LookupFs,
        pending: None,
        kbd_fd: CLOSED,
        con_fd: CLOSED,
        input: Seq::empty(),
        out: Seq::empty(),
        codes: Seq::empty(),
        err_streak: 0,
        ready_sent: false,
        flush_wait_until: 0,
        pump_now: false,
        pump_wait_until: 0,
        line_len: 0,
    }
}

/// The queues are within their bounds, and fewer errors came in a row than make
/// the server start over.
pub open spec fn tty_ok(t: TtyView) -> bool {
    &&& t.input.len() <= INPUT_CAPACITY
    &&& t.out.len() <= OUT_CAPACITY
    &&& 0 <= t.err_streak < ERROR_LIMIT
}

// ── Starting over ──

/// The server before it knows anyone. What was typed and what was to be shown
/// is dropped.
pub open spec fn reset(t: TtyView) -> TtyView {
    TtyView {
        pending: None,
        phase: Phase::LookupFs,
        kbd_fd: CLOSED,
        con_fd: CLOSED,
        input: Seq::empty(),
        out: Seq::empty(),
        line_len: 0,
        err_streak: 0,
        ..t
    }
}

/// The server after an error.
pub open spec fn errored(t: TtyView) -> TtyView {
    if t.err_streak + 1 >= ERROR_LIMIT {
        reset(t)
    } else {
        TtyView { err_streak: t.err_streak + 1, ..t }
    }
}

// ── Typing ──

/// A byte is typed: it waits to be read, and is shown. A backspace takes a byte
/// back only if one was typed on the line; else it is dropped, so that what the
/// shell wrote on the line stays.
pub open spec fn typed_byte(t: TtyView, b: u8) -> TtyView {
    if b == 8 && t.line_len == 0 {
        t
    } else {
        TtyView {
            line_len: if b == 10 || b == 12 {
                0
            } else if b == 8 {
                t.line_len - 1
            } else {
                t.line_len + 1
            },
            input: if t.input.len() < INPUT_CAPACITY {
                t.input.push(b)
            } else {
                t.input
            },
            out: if t.out.len() < OUT_CAPACITY {
                t.out.push(b)
            } else {
                t.out
            },
            ..t
        }
    }
}

/// Some bytes are typed.
pub open spec fn typed(t: TtyView, s: Seq<u8>) -> TtyView
    decreases s.len(),
{
    if s.len() == 0 {
        t
    } else {
        typed_byte(typed(t, s.drop_last()), s.last())
    }
}

/// Some scan codes come: the key that each completes is typed.
pub open spec fn scanned(t: TtyView, codes: Seq<u8>) -> TtyView
    decreases codes.len(),
{
    if codes.len() == 0 {
        t
    } else {
        let u = scanned(t, codes.drop_last());
        let given = u.codes.push(codes.last());
        typed(TtyView { codes: given, ..u }, keys::key_bytes(keys::decoded_key(given)))
    }
}

// ── Replies ──

/// A reply from the file system server: whom it is to, its first word, what the
/// request came to, and the bytes that came with it.
pub struct Reply {
    pub req_id: i64,
    pub w0: u64,
    pub result: i64,
    pub data: Vec<u8>,
}

/// The reply is to the request under way.
pub open spec fn is_ours(t: TtyView, req_id: i64) -> bool {
    t.pending matches Some(p) && req_id > 0 && req_id == p.req
}

/// A step of the start succeeded.
pub open spec fn advanced(t: TtyView, phase: Phase) -> TtyView {
    TtyView { err_streak: 0, phase, pending: None, ..t }
}

/// The server after the reply to its request.
pub open spec fn collected(
    t: TtyView,
    kind: OpKind,
    w0: u64,
    result: i64,
    data: Seq<u8>,
    now: i64,
) -> TtyView {
    match kind {
        OpKind::BufReg => if w0 == 0 {
            advanced(t, Phase::OpenKbd)
        } else {
            reset(t)
        },
        OpKind::OpenKbd => if result >= 0 {
            TtyView { kbd_fd: result, ..advanced(t, Phase::OpenCon) }
        } else {
            reset(t)
        },
        OpKind::OpenCon => if result >= 0 {
            TtyView { con_fd: result, ..advanced(t, Phase::Register) }
        } else {
            reset(t)
        },
        OpKind::Register => if result == 0 {
            advanced(t, Phase::Steady)
        } else {
            reset(t)
        },
        OpKind::PumpRead => if result > 0 {
            TtyView { pending: None, ..scanned(TtyView { err_streak: 0, ..t }, data) }
        } else if result < 0 {
            TtyView {
                pending: None,
                pump_now: true,
                pump_wait_until: now.wrapping_add(BACKOFF),
                ..errored(t)
            }
        } else {
            TtyView { pending: None, ..t }
        },
        OpKind::ConWrite => if result >= 0 {
            TtyView {
                pending: None,
                err_streak: 0,
                out: t.out.skip(
                    if result < t.out.len() {
                        result as int
                    } else {
                        t.out.len() as int
                    },
                ),
                ..t
            }
        } else {
            TtyView { pending: None, ..errored(t) }
        },
    }
}

// ── What is asked for ──

/// What the server asks for while it starts.
#[derive(Clone, Copy, PartialEq, Eq, Debug, Structural)]
pub enum BootAsk {
    /// The file system server is to be looked up.
    Lookup,
    /// A request of this kind is to be sent.
    Send(OpKind),
}

pub open spec fn boot_ask(phase: Phase) -> Option<BootAsk> {
    match phase {
        Phase::LookupFs => Some(BootAsk::Lookup),
        Phase::BufReg => Some(BootAsk::Send(OpKind::BufReg)),
        Phase::OpenKbd => Some(BootAsk::Send(OpKind::OpenKbd)),
        Phase::OpenCon => Some(BootAsk::Send(OpKind::OpenCon)),
        Phase::Register => Some(BootAsk::Send(OpKind::Register)),
        Phase::Steady => None,
    }
}

/// The path that a request of the start names: the files of the two devices,
/// and where the server's own file is.
pub open spec fn path_for(kind: OpKind) -> Seq<u8> {
    match kind {
        OpKind::OpenKbd => bytes::lit("/dev/kbd/kbd"),
        OpKind::OpenCon => bytes::lit("/dev/console/console"),
        OpKind::Register => bytes::lit("/dev/input"),
        _ => Seq::empty(),
    }
}

/// The path that a request of the start names; none for the others.
pub fn asked_path(kind: OpKind) -> (r: Vec<u8>)
    ensures
        r@ == path_for(kind),
{
    match kind {
        OpKind::OpenKbd => copy_of("/dev/kbd/kbd".as_bytes()),
        OpKind::OpenCon => copy_of("/dev/console/console".as_bytes()),
        OpKind::Register => copy_of("/dev/input".as_bytes()),
        _ => {
            let none: Vec<u8> = Vec::new();
            assert(none@ =~= Seq::empty());
            none
        },
    }
}

/// A time has come.
pub open spec fn due(now: i64, wait_until: i64) -> bool {
    now.wrapping_sub(wait_until) >= 0
}

/// Scan codes are to be asked for now.
pub open spec fn pump_due(t: TtyView, now: i64) -> bool {
    t.phase is Steady && t.pending is None && t.kbd_fd >= 0 && t.pump_now && due(
        now,
        t.pump_wait_until,
    )
}

/// Something is to be shown now.
pub open spec fn flush_due(t: TtyView, now: i64) -> bool {
    t.phase is Steady && t.pending is None && t.out.len() > 0 && t.con_fd >= 0 && due(
        now,
        t.flush_wait_until,
    )
}

/// A message to the server. A reply has a request number above 0.
#[derive(Clone, Copy, PartialEq, Eq, Debug, Structural)]
pub struct Msg {
    pub tag: u64,
    pub w0: u64,
    pub w1: u64,
    /// It tells that someone ended.
    pub exit: bool,
}

/// What is answered to a message: nothing, or a word, and bytes for the one who
/// reads.
pub struct Answer {
    pub reply: Option<u64>,
    pub frame: Option<Vec<u8>>,
}

/// How many bytes a read gets.
pub open spec fn read_len(t: TtyView, w1: u64) -> int {
    let most = if w1 < READ_MAX {
        w1 as int
    } else {
        READ_MAX as int
    };
    if t.input.len() < most {
        t.input.len() as int
    } else {
        most
    }
}

/// The server after a message that is no reply, and what is answered.
pub open spec fn answered(
    before: TtyView,
    m: Msg,
    data: Seq<u8>,
    after: TtyView,
    reply: Option<u64>,
    frame: Option<Seq<u8>>,
) -> bool {
    if m.exit {
        after == reset(before) && reply is None && frame is None
    } else if m.tag == KBD_NOTIFY {
        after == (TtyView { pump_now: true, ..before }) && reply is None && frame is None
    } else if m.tag == DEV_OPEN {
        &&& after == before
        &&& reply == Some(
            if m.w0 == DEV_KEYBOARD {
                0u64
            } else {
                ERR
            },
        )
        &&& frame is None
    } else if m.tag == DEV_READ {
        let n = read_len(before, m.w1);
        &&& after == (TtyView { input: before.input.skip(n), ..before })
        &&& reply == Some(n as u64)
        &&& frame == Some(before.input.take(n))
    } else if m.tag == DEV_WRITE {
        &&& after == (if before.out.len() + data.len() <= OUT_CAPACITY {
            TtyView { out: before.out + data, ..before }
        } else {
            before
        })
        &&& reply == Some(m.w1)
        &&& frame is None
    } else {
        &&& after == before
        &&& reply == Some(
            if m.tag == DEV_CLOSE {
                0u64
            } else {
                ERR
            },
        )
        &&& frame is None
    }
}

impl Tty {
    pub fn new() -> (r: Tty)
        ensures
            r@ == new_tty(),
            tty_ok(r@),
    {
        let r = Tty {
            phase: Phase::LookupFs,
            pending: None,
            kbd_fd: CLOSED,
            con_fd: CLOSED,
            input: VecDeque::new(),
            out: Vec::new(),
            decoder: new_decoder(),
            err_streak: 0,
            ready_sent: false,
            flush_wait_until: 0,
            pump_now: false,
            pump_wait_until: 0,
            line_len: 0,
        };
        assert(r@ =~= new_tty());
        r
    }

    /// Starts over. Harmless at any time.
    pub fn reset_to_lookup(&mut self)
        ensures
            final(self)@ == reset(old(self)@),
    {
        let ghost t0 = self@;
        self.pending = None;
        self.phase = Phase::LookupFs;
        self.kbd_fd = CLOSED;
        self.con_fd = CLOSED;
        self.input = VecDeque::new();
        self.out = Vec::new();
        self.line_len = 0;
        self.err_streak = 0;
        assert(self@ =~= reset(t0));
    }

    /// Takes an error in. After too many in a row the server starts over: the
    /// one it talks to may have been started anew.
    pub fn note_error(&mut self)
        requires
            tty_ok(old(self)@),
        ensures
            final(self)@ == errored(old(self)@),
            tty_ok(final(self)@),
    {
        let ghost t0 = self@;
        self.err_streak = self.err_streak + 1;
        if self.err_streak >= ERROR_LIMIT {
            self.reset_to_lookup();
        }
        assert(self@ =~= errored(t0));
    }

    /// Goes on with the start: what is asked for next. With a request under
    /// way, nothing is. Once started, the server starts over if a device is not
    /// open.
    pub fn boot_step(&mut self) -> (r: Option<BootAsk>)
        ensures
            if old(self).pending is Some {
                r is None && final(self)@ == old(self)@
            } else {
                &&& r == boot_ask(old(self).phase)
                &&& final(self)@ == (if old(self).phase is Steady && (old(self).kbd_fd < 0 || old(
                    self,
                ).con_fd < 0) {
                    reset(old(self)@)
                } else {
                    old(self)@
                })
            },
            tty_ok(old(self)@) ==> tty_ok(final(self)@),
    {
        if self.pending.is_some() {
            return None;
        }
        match self.phase {
            Phase::LookupFs => Some(BootAsk::Lookup),
            Phase::BufReg => Some(BootAsk::Send(OpKind::BufReg)),
            Phase::OpenKbd => Some(BootAsk::Send(OpKind::OpenKbd)),
            Phase::OpenCon => Some(BootAsk::Send(OpKind::OpenCon)),
            Phase::Register => Some(BootAsk::Send(OpKind::Register)),
            Phase::Steady => {
                if self.kbd_fd < 0 || self.con_fd < 0 {
                    self.reset_to_lookup();
                }
                None
            },
        }
    }

    /// The file system server was looked up. If it is there, the first request
    /// is sent at once: nobody could wake a server that waits without having
    /// sent one.
    pub fn looked_up(&mut self, found: bool) -> (r: Option<BootAsk>)
        requires
            old(self).phase is LookupFs,
        ensures
            final(self)@ == (if found {
                TtyView { phase: Phase::BufReg, ..old(self)@ }
            } else {
                old(self)@
            }),
            r == (if found {
                Some(BootAsk::Send(OpKind::BufReg))
            } else {
                None
            }),
    {
        let ghost t0 = self@;
        if found {
            self.phase = Phase::BufReg;
            assert(self@ =~= TtyView { phase: Phase::BufReg, ..t0 });
            Some(BootAsk::Send(OpKind::BufReg))
        } else {
            None
        }
    }

    /// A request was to be sent; its number, below 0 if it could not be.
    pub fn boot_sent(&mut self, kind: OpKind, req: i64)
        ensures
            final(self)@ == (if req >= 0 {
                TtyView { pending: Some(Pending { req, kind }), ..old(self)@ }
            } else {
                old(self)@
            }),
    {
        let ghost t0 = self@;
        if req >= 0 {
            self.pending = Some(Pending { req, kind });
            assert(self@ =~= TtyView { pending: Some(Pending { req, kind }), ..t0 });
        }
    }

    /// Whether the server may wait without looking: only if a reply is to come,
    /// or once it is started, when others can reach it.
    pub fn can_sleep(&self) -> (r: bool)
        ensures
            r == (self.pending is Some || self.phase is Steady),
    {
        match self.phase {
            Phase::Steady => true,
            _ => self.pending.is_some(),
        }
    }

    /// The server is started: true once, when that is to be told. Scan codes
    /// that came before are then asked for.
    pub fn ready(&mut self) -> (r: bool)
        ensures
            r == (old(self).phase is Steady && !old(self).ready_sent),
            final(self)@ == (if r {
                TtyView { ready_sent: true, pump_now: true, ..old(self)@ }
            } else {
                old(self)@
            }),
    {
        let ghost t0 = self@;
        let steady: bool = match self.phase {
            Phase::Steady => true,
            _ => false,
        };
        if steady && !self.ready_sent {
            self.ready_sent = true;
            self.pump_now = true;
            assert(self@ =~= TtyView { ready_sent: true, pump_now: true, ..t0 });
            return true;
        }
        false
    }

    /// Types some bytes.
    pub fn emit(&mut self, data: &[u8])
        requires
            tty_ok(old(self)@),
            old(self).line_len + data@.len() <= usize::MAX,
        ensures
            final(self)@ == typed(old(self)@, data@),
            tty_ok(final(self)@),
            final(self).line_len <= old(self).line_len + data@.len(),
    {
        let ghost t0 = self@;
        let mut i: usize = 0;
        assert(data@.take(0) =~= Seq::empty());
        while i < data.len()
            invariant
                i <= data@.len(),
                tty_ok(self@),
                t0.line_len + data@.len() <= usize::MAX,
                self.line_len <= t0.line_len + i,
                self@ == typed(t0, data@.take(i as int)),
            decreases data.len() - i,
        {
            let ghost t1 = self@;
            assert(data@.take(i + 1).drop_last() =~= data@.take(i as int));
            assert(data@.take(i + 1).last() == data@[i as int]);
            let b: u8 = data[i];
            if b == 8 && self.line_len == 0 {
                i = i + 1;
                continue ;
            }
            if b == 10 || b == 12 {
                self.line_len = 0;
            } else if b == 8 {
                self.line_len = self.line_len - 1;
            } else {
                self.line_len = self.line_len + 1;
            }
            if self.input.len() < INPUT_CAPACITY {
                self.input.push_back(b);
            }
            if self.out.len() < OUT_CAPACITY {
                self.out.push(b);
            }
            assert(self@ =~= typed_byte(t1, b));
            i = i + 1;
        }
        assert(data@.take(data@.len() as int) =~= data@);
    }

    /// Types what a key stands for.
    pub fn take_key(&mut self, key: Option<Key>)
        requires
            tty_ok(old(self)@),
            old(self).line_len + 4 <= usize::MAX,
        ensures
            final(self)@ == typed(old(self)@, keys::key_bytes(key)),
            tty_ok(final(self)@),
            final(self).line_len <= old(self).line_len + 4,
    {
        let b: Vec<u8> = cooked(key);
        self.emit(&b);
    }

    /// Decodes scan codes and types the keys.
    pub fn decode_bytes(&mut self, scancodes: &[u8])
        requires
            tty_ok(old(self)@),
            old(self).line_len + 4 * scancodes@.len() <= usize::MAX,
        ensures
            final(self)@ == scanned(old(self)@, scancodes@),
            tty_ok(final(self)@),
    {
        let ghost t0 = self@;
        let mut i: usize = 0;
        assert(scancodes@.take(0) =~= Seq::empty());
        while i < scancodes.len()
            invariant
                i <= scancodes@.len(),
                tty_ok(self@),
                t0.line_len + 4 * scancodes@.len() <= usize::MAX,
                self.line_len <= t0.line_len + 4 * i,
                self@ == scanned(t0, scancodes@.take(i as int)),
            decreases scancodes.len() - i,
        {
            let ghost t1 = self@;
            assert(scancodes@.take(i + 1).drop_last() =~= scancodes@.take(i as int));
            assert(scancodes@.take(i + 1).last() == scancodes@[i as int]);
            let key: Option<Key> = give_code(&mut self.decoder, scancodes[i]);
            let ghost given = t1.codes.push(scancodes@[i as int]);
            assert(self@ =~= TtyView { codes: given, ..t1 });
            self.take_key(key);
            i = i + 1;
        }
        assert(scancodes@.take(scancodes@.len() as int) =~= scancodes@);
    }

    /// Takes in a reply, if it is to the request under way; true if it was.
    pub fn collect_if_mine(&mut self, m: &Reply, now: i64) -> (r: bool)
        requires
            tty_ok(old(self)@),
            old(self).line_len + 4 * m.data@.len() <= usize::MAX,
        ensures
            r == is_ours(old(self)@, m.req_id),
            final(self)@ == (if r {
                collected(
                    old(self)@,
                    old(self).pending->0.kind,
                    m.w0,
                    m.result,
                    m.data@,
                    now,
                )
            } else {
                old(self)@
            }),
            tty_ok(final(self)@),
    {
        let ghost t0 = self@;
        let kind: OpKind = match self.pending {
            Some(p) => {
                if !(m.req_id > 0 && m.req_id == p.req) {
                    return false;
                }
                p.kind
            },
            None => {
                return false;
            },
        };
        match kind {
            OpKind::BufReg => {
                if m.w0 == 0 {
                    self.err_streak = 0;
                    self.phase = Phase::OpenKbd;
                } else {
                    self.reset_to_lookup();
                }
            },
            OpKind::OpenKbd => {
                if m.result >= 0 {
                    self.kbd_fd = m.result;
                    self.err_streak = 0;
                    self.phase = Phase::OpenCon;
                } else {
                    self.reset_to_lookup();
                }
            },
            OpKind::OpenCon => {
                if m.result >= 0 {
                    self.con_fd = m.result;
                    self.err_streak = 0;
                    self.phase = Phase::Register;
                } else {
                    self.reset_to_lookup();
                }
            },
            OpKind::Register => {
                if m.result == 0 {
                    self.err_streak = 0;
                    self.phase = Phase::Steady;
                } else {
                    self.reset_to_lookup();
                }
            },
            OpKind::PumpRead => {
                if m.result > 0 {
                    self.err_streak = 0;
                    assert(self@ =~= TtyView { err_streak: 0, ..t0 });
                    self.decode_bytes(&m.data);
                } else if m.result < 0 {
                    self.note_error();
                    self.pump_now = true;
                    self.pump_wait_until = now.wrapping_add(BACKOFF);
                }
            },
            OpKind::ConWrite => {
                if m.result >= 0 {
                    self.err_streak = 0;
                    let len: u64 = self.out.len() as u64;
                    let done: u64 = m.result as u64;
                    let adv: usize = if done < len {
                        done as usize
                    } else {
                        self.out.len()
                    };
                    let rest: Vec<u8> = copy_of(slice_subrange(&self.out, adv, self.out.len()));
                    assert(rest@ =~= t0.out.skip(adv as int));
                    self.out = rest;
                } else {
                    self.note_error();
                }
            },
        }
        self.pending = None;
        assert(self@ =~= collected(t0, kind, m.w0, m.result, m.data@, now));
        true
    }

    /// Whether scan codes are to be asked for now. They are asked for only when
    /// the keyboard driver said that there are some, one request at a time.
    pub fn pump_maybe(&mut self, now: i64) -> (r: bool)
        ensures
            r == pump_due(old(self)@, now),
            final(self)@ == (if r {
                TtyView { pump_now: false, ..old(self)@ }
            } else {
                old(self)@
            }),
    {
        let ghost t0 = self@;
        let steady: bool = match self.phase {
            Phase::Steady => true,
            _ => false,
        };
        if !steady || self.pending.is_some() || self.kbd_fd < 0 || !self.pump_now {
            return false;
        }
        if now.wrapping_sub(self.pump_wait_until) < 0 {
            return false;
        }
        self.pump_now = false;
        assert(self@ =~= TtyView { pump_now: false, ..t0 });
        true
    }

    /// Scan codes were asked for; the number of the request, below 0 if it could
    /// not be sent.
    pub fn pump_sent(&mut self, req: i64, now: i64)
        ensures
            final(self)@ == (if req >= 0 {
                TtyView { pending: Some(Pending { req, kind: OpKind::PumpRead }), ..old(self)@ }
            } else {
                TtyView {
                    pump_now: true,
                    pump_wait_until: now.wrapping_add(BACKOFF),
                    ..old(self)@
                }
            }),
    {
        let ghost t0 = self@;
        if req >= 0 {
            self.pending = Some(Pending { req, kind: OpKind::PumpRead });
            assert(self@ =~= TtyView {
                pending: Some(Pending { req, kind: OpKind::PumpRead }),
                ..t0
            });
        } else {
            self.pump_now = true;
            self.pump_wait_until = now.wrapping_add(BACKOFF);
            assert(self@ =~= TtyView {
                pump_now: true,
                pump_wait_until: now.wrapping_add(BACKOFF),
                ..t0
            });
        }
    }

    /// What is to go to the console now.
    pub fn flush_maybe(&self, now: i64) -> (r: Option<Vec<u8>>)
        ensures
            match r {
                Some(b) => flush_due(self@, now) && b@ == self.out@.take(
                    if self.out@.len() < FLUSH_CHUNK {
                        self.out@.len() as int
                    } else {
                        FLUSH_CHUNK as int
                    },
                ),
                None => !flush_due(self@, now),
            },
    {
        let steady: bool = match self.phase {
            Phase::Steady => true,
            _ => false,
        };
        if !steady || self.pending.is_some() || self.out.len() == 0 || self.con_fd < 0 {
            return None;
        }
        if now.wrapping_sub(self.flush_wait_until) < 0 {
            return None;
        }
        let n: usize = if self.out.len() < FLUSH_CHUNK {
            self.out.len()
        } else {
            FLUSH_CHUNK
        };
        let b: Vec<u8> = copy_of(slice_subrange(&self.out, 0, n));
        assert(b@ =~= self.out@.take(n as int));
        Some(b)
    }

    /// Bytes were sent to the console; the number of the request, below 0 if it
    /// could not be sent. They leave the queue when the console has them.
    pub fn flush_sent(&mut self, req: i64, now: i64)
        ensures
            final(self)@ == (if req >= 0 {
                TtyView { pending: Some(Pending { req, kind: OpKind::ConWrite }), ..old(self)@ }
            } else {
                TtyView { flush_wait_until: now.wrapping_add(BACKOFF), ..old(self)@ }
            }),
    {
        let ghost t0 = self@;
        if req >= 0 {
            self.pending = Some(Pending { req, kind: OpKind::ConWrite });
            assert(self@ =~= TtyView {
                pending: Some(Pending { req, kind: OpKind::ConWrite }),
                ..t0
            });
        } else {
            self.flush_wait_until = now.wrapping_add(BACKOFF);
            assert(self@ =~= TtyView { flush_wait_until: now.wrapping_add(BACKOFF), ..t0 });
        }
    }

    /// Takes in a message that is no reply. `data` is what came with a write. A
    /// write is answered at once, before the console has the bytes: whoever
    /// writes must not wait for the server while the server waits for them.
    pub fn handle_msg(&mut self, m: Msg, data: &[u8]) -> (r: Answer)
        requires
            tty_ok(old(self)@),
            m.tag == DEV_WRITE ==> data@.len() == m.w1,
        ensures
            answered(
                old(self)@,
                m,
                data@,
                final(self)@,
                r.reply,
                match r.frame {
                    Some(f) => Some(f@),
                    None => None,
                },
            ),
            tty_ok(final(self)@),
    {
        let ghost t0 = self@;
        if m.exit {
            self.reset_to_lookup();
            return Answer { reply: None, frame: None };
        }
        if m.tag == KBD_NOTIFY {
            self.pump_now = true;
            assert(self@ =~= TtyView { pump_now: true, ..t0 });
            return Answer { reply: None, frame: None };
        }
        if m.tag == DEV_OPEN {
            let v: u64 = if m.w0 == DEV_KEYBOARD {
                0
            } else {
                ERR
            };
            return Answer { reply: Some(v), frame: None };
        }
        if m.tag == DEV_READ {
            let count: usize = if m.w1 < READ_MAX as u64 {
                m.w1 as usize
            } else {
                READ_MAX
            };
            let mut buf: Vec<u8> = Vec::new();
            let ghost n = read_len(t0, m.w1);
            assert(t0.input.take(0) =~= Seq::empty());
            assert(t0.input.skip(0) =~= t0.input);
            while buf.len() < count && self.input.len() > 0
                invariant
                    buf@.len() <= t0.input.len(),
                    buf@.len() <= count,
                    buf@ == t0.input.take(buf@.len() as int),
                    self.input@ == t0.input.skip(buf@.len() as int),
                    self@ == (TtyView { input: self.input@, ..t0 }),
                decreases count - buf.len(),
            {
                let ghost k = buf@.len() as int;
                let ghost in0 = self.input@;
                match self.input.pop_front() {
                    Some(c) => {
                        buf.push(c);
                        assert(in0[0] == t0.input[k]);
                        assert(buf@ =~= t0.input.take(k + 1));
                        assert(self.input@ =~= t0.input.skip(k + 1));
                        assert(self@ =~= TtyView { input: self.input@, ..t0 });
                    },
                    None => {
                        assert(false);
                    },
                }
            }
            assert(buf@.len() == n) by {
                if buf@.len() < count {
                    assert(self.input@.len() == 0);
                }
            }
            let got: u64 = buf.len() as u64;
            return Answer { reply: Some(got), frame: Some(buf) };
        }
        if m.tag == DEV_WRITE {
            if data.len() <= OUT_CAPACITY {
                if self.out.len() + data.len() <= OUT_CAPACITY {
                    append_bytes(&mut self.out, data);
                    assert(self@ =~= TtyView { out: t0.out + data@, ..t0 });
                }
            }
            return Answer { reply: Some(m.w1), frame: None };
        }
        let v: u64 = if m.tag == DEV_CLOSE {
            0
        } else {
            ERR
        };
        Answer { reply: Some(v), frame: None }
    }
}

// ── Laws ──

/// A backspace on a line on which nothing was typed does nothing: neither is it
/// read nor shown.
pub proof fn law_backspace_spares_prompt(t: TtyView)
    requires
        t.line_len == 0,
    ensures
        typed(t, seq![8u8]) == t,
{
    assert(seq![8u8].drop_last() =~= Seq::empty());
    assert(typed(t, seq![8u8].drop_last()) == t);
}

/// What was typed is read in the order in which it was typed: as long as there
/// is room, typed bytes other than backspaces come out as they are.
pub proof fn law_typed_is_read(t: TtyView, s: Seq<u8>)
    requires
        t.input.len() + s.len() <= INPUT_CAPACITY,
        forall|i: int| 0 <= i < s.len() ==> #[trigger] s[i] != 8,
    ensures
        typed(t, s).input == t.input + s,
    decreases s.len(),
{
    if s.len() == 0 {
        assert(t.input + s =~= t.input);
    } else {
        assert(s[s.len() - 1] != 8);
        assert forall|i: int| 0 <= i < s.len() - 1 implies #[trigger] s.drop_last()[i] != 8 by {
            assert(s[i] != 8);
        }
        law_typed_is_read(t, s.drop_last());
        assert((t.input + s.drop_last()).push(s.last()) =~= t.input + s);
    }
}

/// What is typed is shown: as long as there is room, typed bytes other than
/// backspaces go to the console as they are, in the order in which they were
/// typed.
pub proof fn law_typed_is_shown(t: TtyView, s: Seq<u8>)
    requires
        t.out.len() + s.len() <= OUT_CAPACITY,
        forall|i: int| 0 <= i < s.len() ==> #[trigger] s[i] != 8,
    ensures
        typed(t, s).out == t.out + s,
    decreases s.len(),
{
    if s.len() == 0 {
        assert(t.out + s =~= t.out);
    } else {
        assert(s[s.len() - 1] != 8);
        assert forall|i: int| 0 <= i < s.len() - 1 implies #[trigger] s.drop_last()[i] != 8 by {
            assert(s[i] != 8);
        }
        law_typed_is_shown(t, s.drop_last());
        assert((t.out + s.drop_last()).push(s.last()) =~= t.out + s);
    }
}

/// A backspace behind typed bytes takes one of them back: it is read and shown,
/// and as many backspaces as bytes were typed on a line take all of them back,
/// but not one more.
pub proof fn law_backspaces_take_back(t: TtyView, s: Seq<u8>, n: nat)
    requires
        t.line_len == 0,
        forall|i: int| 0 <= i < s.len() ==> #[trigger] s[i] != 8 && s[i] != 10 && s[i] != 12,
        t.input.len() + 2 * s.len() <= INPUT_CAPACITY,
        t.out.len() + 2 * s.len() <= OUT_CAPACITY,
    ensures
        ({
            let u = typed(t, s + bytes::filled(8, n));
            let k = if n <= s.len() {
                n
            } else {
                s.len()
            };
            &&& u.line_len == s.len() - k
            &&& u.input == t.input + s + bytes::filled(8, k)
            &&& u.out == t.out + s + bytes::filled(8, k)
        }),
    decreases n,
{
    let all = s + bytes::filled(8, n);
    if n == 0 {
        assert(all =~= s);
        assert(t.input + s + bytes::filled(8, 0) =~= t.input + s);
        assert(t.out + s + bytes::filled(8, 0) =~= t.out + s);
        law_typed_is_read(t, s);
        law_typed_is_shown(t, s);
        lemma_line_grows(t, s);
    } else {
        let m = (n - 1) as nat;
        law_backspaces_take_back(t, s, m);
        assert(all.drop_last() =~= s + bytes::filled(8, m));
        assert(all.last() == 8);
        if n <= s.len() {
            assert((t.input + s + bytes::filled(8, m)).push(8u8) =~= t.input + s + bytes::filled(
                8,
                n,
            ));
            assert((t.out + s + bytes::filled(8, m)).push(8u8) =~= t.out + s + bytes::filled(8, n));
        }
    }
}

proof fn lemma_line_grows(t: TtyView, s: Seq<u8>)
    requires
        forall|i: int| 0 <= i < s.len() ==> #[trigger] s[i] != 8 && s[i] != 10 && s[i] != 12,
    ensures
        typed(t, s).line_len == t.line_len + s.len(),
    decreases s.len(),
{
    if s.len() > 0 {
        assert(s[s.len() - 1] != 8);
        assert forall|i: int| 0 <= i < s.len() - 1 implies #[trigger] s.drop_last()[i] != 8
            && s.drop_last()[i] != 10 && s.drop_last()[i] != 12 by {
            assert(s[i] != 8);
        }
        lemma_line_grows(t, s.drop_last());
    }
}

/// A new line, or a cleared screen, starts the line anew: nothing before it can
/// be taken back.
pub proof fn law_new_line_starts_anew(t: TtyView, s: Seq<u8>, b: u8)
    requires
        b == 10 || b == 12,
    ensures
        typed(t, s.push(b)).line_len == 0,
{
    assert(s.push(b).drop_last() =~= s);
}

/// Typing in two parts is typing at once.
pub proof fn law_typing_in_parts(t: TtyView, a: Seq<u8>, b: Seq<u8>)
    ensures
        typed(typed(t, a), b) == typed(t, a + b),
    decreases b.len(),
{
    if b.len() == 0 {
        assert(a + b =~= a);
    } else {
        law_typing_in_parts(t, a, b.drop_last());
        assert((a + b).drop_last() =~= a + b.drop_last());
        assert((a + b).last() == b.last());
    }
}

/// A server that starts over does not wait without looking, for nobody could
/// wake it: it has no request under way and is not started. It looks the file
/// system server up next.
pub proof fn law_reset_cannot_sleep(t: TtyView)
    ensures
        reset(t).pending is None,
        !(reset(t).phase is Steady),
        boot_ask(reset(t).phase) == Some(BootAsk::Lookup),
{
}

} // verus!
