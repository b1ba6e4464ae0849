//! A disk behind a channel to the disk driver: when the channel is made, when
//! it is lost, and what the driver's answers mean.
use vstd::prelude::*;

use super::codes::ERR;
use crate::bytes;
use crate::ring;
use crate::ring::Ring;

verus! {

/// How long the driver is waited for, in ticks.
pub const HELLO_BOUND_TICKS: i64 = 500;

/// A disk: its handle, and the channel to the driver, once there is one.
#[derive(Clone, Copy, PartialEq, Eq, Debug, Structural)]
pub struct IpcDisk {
    pub handle: u32,
    pub chan: Option<u64>,
}

/// What making the channel is at.
#[derive(Clone, Copy, PartialEq, Eq, Debug, Structural)]
pub enum Connect {
    /// The driver is to be looked up.
    Lookup,
    /// The driver on the channel is to be asked where its rings are.
    Hello { chan: u64 },
    /// The page with the responses is to be mapped, and its ring emptied.
    MapPage { chan: u64, phys: u64 },
    /// The driver is to be asked for the disk.
    Open { chan: u64 },
    /// A while is to be waited.
    Wait,
    /// It is made.
    Connected { chan: u64 },
    /// The driver did not come.
    GaveUp,
}

/// Something failed: it is tried again, unless the driver was waited for long
/// enough.
pub open spec fn again(t0: i64, now: i64) -> Connect {
    if now - t0 > HELLO_BOUND_TICKS {
        Connect::GaveUp
    } else {
        Connect::Wait
    }
}

/// What comes next. `answer` is what came of the last step: the words of the
/// reply (the channel, for a lookup), or nothing if it failed.
pub open spec fn connect_next(
    at: Connect,
    answer: Option<(u64, u64)>,
    t0: i64,
    now: i64,
) -> Connect {
    match (at, answer) {
        (Connect::Lookup, Some((chan, _))) => Connect::Hello { chan },
        (Connect::Hello { chan }, Some((w0, phys))) => if w0 != ERR {
            Connect::MapPage { chan, phys }
        } else {
            again(t0, now)
        },
        (Connect::MapPage { chan, .. }, Some(_)) => Connect::Open { chan },
        (Connect::Open { chan }, Some((w0, _))) => if w0 != ERR {
            Connect::Connected { chan }
        } else {
            again(t0, now)
        },
        (Connect::Wait, _) => Connect::Lookup,
        (Connect::Connected { chan }, _) => at,
        (Connect::GaveUp, _) => at,
        (_, None) => again(t0, now),
    }
}

/// What a read came to.
#[derive(Clone, Copy, PartialEq, Eq, Debug, Structural)]
pub enum TryRead {
    /// The driver is gone: the channel is to be made anew, once.
    Lost,
    /// The driver refused.
    Failed,
    /// The sector is in the response.
    Frame,
}

/// What reading a sector asks for.
#[derive(Clone, Copy, PartialEq, Eq, Debug, Structural)]
pub enum ReadAsk {
    /// The channel; the answer is its number, or nothing if the driver did not
    /// come.
    Connect,
    /// That the request be sent on the channel; the answer is the first word of
    /// the reply, or nothing if the driver is gone.
    Send { chan: u64 },
    /// That the sector be taken out of the responses; there is an answer if it
    /// was there.
    TakeFrame,
    /// Nothing: it is over, well or not.
    Finished(bool),
}

/// A sector that is being read.
#[derive(Clone, Copy, PartialEq, Eq, Debug, Structural)]
pub struct SectorRead {
    pub ask: ReadAsk,
    /// The driver was lost once already.
    pub retried: bool,
}

/// The disk and the read once what was asked for was done. Where the driver is
/// gone the channel is made anew, once; where it refuses, it is not asked
/// again.
pub open spec fn read_next(d: IpcDisk, r: SectorRead, answer: Option<u64>) -> (IpcDisk, SectorRead) {
    match r.ask {
        ReadAsk::Connect => (
            d,
            SectorRead {
                ask: match answer {
                    Some(chan) => ReadAsk::Send { chan },
                    None => ReadAsk::Finished(false),
                },
                ..r
            },
        ),
        ReadAsk::Send { .. } => match answer {
            Some(w) => (
                d,
                SectorRead {
                    ask: if w == ERR {
                        ReadAsk::Finished(false)
                    } else {
                        ReadAsk::TakeFrame
                    },
                    ..r
                },
            ),
            None => (
                IpcDisk { chan: None, ..d },
                SectorRead {
                    ask: if r.retried {
                        ReadAsk::Finished(false)
                    } else {
                        ReadAsk::Connect
                    },
                    retried: true,
                },
            ),
        },
        ReadAsk::TakeFrame => (
            d,
            SectorRead { ask: ReadAsk::Finished(answer is Some), ..r },
        ),
        ReadAsk::Finished(_) => (d, r),
    }
}

impl IpcDisk {
    /// Begins to read a sector.
    pub fn read_sector(&self) -> (r: SectorRead)
        ensures
            r == (SectorRead { ask: ReadAsk::Connect, retried: false }),
    {
        SectorRead { ask: ReadAsk::Connect, retried: false }
    }

    /// Goes on with reading a sector.
    pub fn read_step(&mut self, r: &mut SectorRead, answer: Option<u64>)
        ensures
            (*final(self), *final(r)) == read_next(*old(self), *old(r), answer),
    {
        match r.ask {
            ReadAsk::Connect => {
                r.ask = match answer {
                    Some(chan) => ReadAsk::Send { chan },
                    None => ReadAsk::Finished(false),
                };
            },
            ReadAsk::Send { .. } => {
                r.ask = match self.try_read(answer) {
                    TryRead::Failed => ReadAsk::Finished(false),
                    TryRead::Frame => ReadAsk::TakeFrame,
                    TryRead::Lost => {
                        let again: bool = !r.retried;
                        r.retried = true;
                        if again {
                            ReadAsk::Connect
                        } else {
                            ReadAsk::Finished(false)
                        }
                    },
                };
            },
            ReadAsk::TakeFrame => {
                r.ask = ReadAsk::Finished(answer.is_some());
            },
            ReadAsk::Finished(_) => {},
        }
    }

    pub fn new(handle: u32) -> (r: IpcDisk)
        ensures
            r == (IpcDisk { handle, chan: None }),
    {
        IpcDisk { handle, chan: None }
    }

    /// The peer of a channel is gone. True if it was the driver: then the
    /// channel is to be made anew.
    pub fn note_peer_death(&mut self, dead_chan: u64) -> (lost: bool)
        ensures
            lost == (old(self).chan == Some(dead_chan)),
            *final(self) == (if lost {
                IpcDisk { chan: None, ..*old(self) }
            } else {
                *old(self)
            }),
    {
        match self.chan {
            Some(c) => {
                if c == dead_chan {
                    self.chan = None;
                    return true;
                }
                false
            },
            None => false,
        }
    }

    /// Where making the channel starts: it is there, or the driver is to be
    /// looked up.
    pub fn ensure(&self) -> (r: Connect)
        ensures
            r == (match self.chan {
                Some(chan) => Connect::Connected { chan },
                None => Connect::Lookup,
            }),
    {
        match self.chan {
            Some(chan) => Connect::Connected { chan },
            None => Connect::Lookup,
        }
    }

    /// Goes on with making the channel.
    pub fn connect_step(
        &mut self,
        at: Connect,
        answer: Option<(u64, u64)>,
        t0: i64,
        now: i64,
    ) -> (r: Connect)
        requires
            i64::MIN <= now - t0 <= i64::MAX,
        ensures
            r == connect_next(at, answer, t0, now),
            *final(self) == (match r {
                Connect::Connected { chan } => IpcDisk { chan: Some(chan), ..*old(self) },
                _ => *old(self),
            }),
    {
        let retry: Connect = if now - t0 > HELLO_BOUND_TICKS {
            Connect::GaveUp
        } else {
            Connect::Wait
        };
        let r: Connect = match (at, answer) {
            (Connect::Lookup, Some((chan, _))) => Connect::Hello { chan },
            (Connect::Hello { chan }, Some((w0, phys))) => if w0 != ERR {
                Connect::MapPage { chan, phys }
            } else {
                retry
            },
            (Connect::MapPage { chan, .. }, Some(_)) => Connect::Open { chan },
            (Connect::Open { chan }, Some((w0, _))) => if w0 != ERR {
                Connect::Connected { chan }
            } else {
                retry
            },
            (Connect::Wait, _) => Connect::Lookup,
            (Connect::Connected { chan }, _) => at,
            (Connect::GaveUp, _) => at,
            (_, None) => retry,
        };
        if let Connect::Connected { chan } = r {
            self.chan = Some(chan);
        }
        r
    }

    /// What a read came to, by the reply to it; nothing came if the driver is
    /// gone.
    pub fn try_read(&mut self, reply: Option<u64>) -> (r: TryRead)
        ensures
            r == (match reply {
                None => TryRead::Lost,
                Some(w) => if w == ERR {
                    TryRead::Failed
                } else {
                    TryRead::Frame
                },
            }),
            *final(self) == (if r is Lost {
                IpcDisk { chan: None, ..*old(self) }
            } else {
                *old(self)
            }),
    {
        match reply {
            None => {
                self.chan = None;
                TryRead::Lost
            },
            Some(w) => {
                if w == ERR {
                    TryRead::Failed
                } else {
                    TryRead::Frame
                }
            },
        }
    }
}

/// The sector in the next response of the driver. A response that holds no
/// sector empties the ring.
pub fn frame_read(ring: &mut Ring) -> (r: Option<Vec<u8>>)
    requires
        old(ring).wf(),
    ensures
        final(ring).wf(),
        ring::reader_moved(*old(ring), *final(ring)),
        ({
            let s = old(ring)@;
            if s.len() >= 528 && bytes::le_value(s, 0, 8) == 512 {
                &&& r matches Some(d) && d@ == s.subrange(16, 528)
                &&& final(ring)@ == s.skip(528)
            } else {
                r is None && final(ring)@ == Seq::<u8>::empty()
            }
        }),
{
    let avail: usize = ring.available();
    if avail < 528 || ring.field64(0) != 512 {
        ring.discard();
        return None;
    }
    let d: Vec<u8> = ring.peek(16, 512);
    ring.consume(528);
    Some(d)
}

/// How far a read is from its end.
pub open spec fn read_rank(r: SectorRead) -> int {
    let rounds: int = if r.retried {
        0
    } else {
        3
    };
    match r.ask {
        ReadAsk::Connect => rounds + 3,
        ReadAsk::Send { .. } => rounds + 2,
        ReadAsk::TakeFrame => 1,
        ReadAsk::Finished(_) => 0,
    }
}

/// A read comes to an end whatever the driver does: six answers at most, for it
/// is tried again only once.
pub proof fn law_read_ends(d: IpcDisk, r: SectorRead, answer: Option<u64>)
    requires
        !(r.ask is Finished),
    ensures
        0 <= read_rank(read_next(d, r, answer).1) < read_rank(r),
        read_rank(SectorRead { ask: ReadAsk::Connect, retried: false }) == 6,
{
}

/// A sector is had only if the driver answered without an error and the sector
/// was in its response.
pub proof fn law_read_was_answered(d: IpcDisk, r: SectorRead, answer: Option<u64>)
    requires
        read_next(d, r, answer).1.ask == ReadAsk::Finished(true),
        !(r.ask is Finished),
    ensures
        r.ask is TakeFrame,
        answer is Some,
{
}

/// A channel is made only with a driver that answered all three questions:
/// where it is, where its rings are, and whether it has the disk.
pub proof fn law_connected_was_opened(
    at: Connect,
    answer: Option<(u64, u64)>,
    t0: i64,
    now: i64,
    chan: u64,
)
    requires
        connect_next(at, answer, t0, now) == (Connect::Connected { chan }),
        at != (Connect::Connected { chan }),
    ensures
        at == (Connect::Open { chan }),
        answer is Some,
        ({
            let (w0, _w1) = answer->0;
            w0 != ERR
        }),
{
}

/// The channel that was looked up is the one that is asked, step by step, and
/// the page that is mapped is the one that the driver named. A step that fails
/// is tried again from the start, after a while, up to a limit.
pub proof fn law_connection_keeps_its_channel(
    at: Connect,
    chan: u64,
    w0: u64,
    w1: u64,
    t0: i64,
    now: i64,
)
    ensures
        connect_next(Connect::Lookup, Some((chan, w1)), t0, now) == (Connect::Hello { chan }),
        w0 != ERR ==> connect_next(Connect::Hello { chan }, Some((w0, w1)), t0, now) == (
        Connect::MapPage { chan, phys: w1 }),
        connect_next(Connect::MapPage { chan, phys: w1 }, Some((w0, w1)), t0, now) == (
        Connect::Open { chan }),
        w0 != ERR ==> connect_next(Connect::Open { chan }, Some((w0, w1)), t0, now) == (
        Connect::Connected { chan }),
        !(at is Wait || at is Connected || at is GaveUp) ==> if now - t0 <= 500 {
            connect_next(at, None, t0, now) is Wait
        } else {
            connect_next(at, None, t0, now) is GaveUp
        },
        connect_next(Connect::Wait, None, t0, now) is Lookup,
{
}

/// A driver that is lost is looked up once more, with the old channel
/// forgotten, and only once; one that refuses is not asked again.
pub proof fn law_lost_driver_is_tried_once_more(d: IpcDisk, r: SectorRead, answer: Option<u64>)
    requires
        r.ask is Send,
    ensures
        ({
            let (e, n) = read_next(d, r, answer);
            &&& e.handle == d.handle
            &&& answer is None && !r.retried ==> n.ask is Connect && n.retried && e.chan is None
            &&& answer is None && r.retried ==> n.ask == ReadAsk::Finished(false)
            &&& answer == Some(ERR) ==> n.ask == ReadAsk::Finished(false) && e == d
            &&& answer is Some && answer != Some(ERR) ==> n.ask is TakeFrame && e == d
        }),
{
}

} // verus!
