//! How a channel is reset and its drives are asked what they are: in which
//! order the ports are read and written.
//!
//! Every wait is bounded: a channel without drives does not stop the start.
use vstd::prelude::*;

use super::block::TIMEOUT;
use super::detect;
use super::detect::{probe_drive, AtaChannel, Probe, Seen};

verus! {

/// How often the status is read, and dropped, after a drive was selected.
pub const SETTLE: u32 = 4;

/// The command by which a drive tells what it is.
pub const IDENTIFY: u8 = 0xEC;

/// What is to be done next.
#[derive(Clone, Copy, PartialEq, Eq, Debug, Structural)]
pub enum ProbeAsk {
    /// This port is to be read.
    In(u16),
    /// This byte is to be written to this port.
    Out(u16, u8),
    /// A moment is to pass.
    Pause,
    /// 256 words are to be read from this port.
    Words(u16),
    /// Nothing: it is over.
    Over,
}

/// The ports of a channel are there.
pub open spec fn channel_ok(ch: AtaChannel) -> bool {
    ch.cmd <= 0xFFF0
}

pub open spec fn select_port(ch: AtaChannel) -> u16 {
    (ch.cmd + 6) as u16
}

pub open spec fn status_port(ch: AtaChannel) -> u16 {
    (ch.cmd + 7) as u16
}

// ── The reset ──

/// What a reset is at.
#[derive(Clone, Copy, PartialEq, Eq, Debug, Structural)]
pub enum ResetStage {
    On,
    Hold,
    Off,
    PickFirst,
    SeeFirst,
    PickSecond,
    SeeSecond,
    Over,
}

/// A reset of a channel. It is over when neither drive is busy, or when both
/// were looked at too often.
#[derive(Clone, Copy, PartialEq, Eq, Debug, Structural)]
pub struct ResetRun {
    pub ch: AtaChannel,
    pub stage: ResetStage,
    /// The first drive was busy when it was looked at.
    pub first_busy: bool,
    /// How often the drives may be looked at.
    pub left: u32,
}

pub open spec fn reset_at(r: ResetRun, stage: ResetStage) -> ResetRun {
    ResetRun { stage, ..r }
}

/// The reset once what it asked for was done, and what it asks for next.
pub open spec fn reset_next(r: ResetRun, answer: u8) -> (ResetRun, ProbeAsk) {
    match r.stage {
        ResetStage::On => (reset_at(r, ResetStage::Hold), ProbeAsk::Pause),
        ResetStage::Hold => (reset_at(r, ResetStage::Off), ProbeAsk::Out(r.ch.ctl, 0)),
        ResetStage::Off => (
            reset_at(r, ResetStage::PickFirst),
            ProbeAsk::Out(select_port(r.ch), 0xA0),
        ),
        ResetStage::PickFirst => (
            reset_at(r, ResetStage::SeeFirst),
            ProbeAsk::In(status_port(r.ch)),
        ),
        ResetStage::SeeFirst => (
            ResetRun { first_busy: answer >= 128, ..reset_at(r, ResetStage::PickSecond) },
            ProbeAsk::Out(select_port(r.ch), 0xB0),
        ),
        ResetStage::PickSecond => (
            reset_at(r, ResetStage::SeeSecond),
            ProbeAsk::In(status_port(r.ch)),
        ),
        ResetStage::SeeSecond => if (!r.first_busy && answer < 128) || r.left <= 1 {
            (ResetRun { left: 0, ..reset_at(r, ResetStage::Over) }, ProbeAsk::Over)
        } else {
            (
                ResetRun { left: (r.left - 1) as u32, ..reset_at(r, ResetStage::PickFirst) },
                ProbeAsk::Out(select_port(r.ch), 0xA0),
            )
        },
        ResetStage::Over => (r, ProbeAsk::Over),
    }
}

impl ResetRun {
    /// Begins to reset a channel.
    pub fn software_reset(ch: AtaChannel) -> (r: (ResetRun, ProbeAsk))
        ensures
            r.0 == (ResetRun { ch, stage: ResetStage::On, first_busy: false, left: TIMEOUT }),
            r.1 == ProbeAsk::Out(ch.ctl, 4),
    {
        (
            ResetRun { ch, stage: ResetStage::On, first_busy: false, left: TIMEOUT },
            ProbeAsk::Out(ch.ctl, 4),
        )
    }

    /// Goes on once what was asked for was done; `answer` is what a port gave.
    pub fn step(&mut self, answer: u8) -> (r: ProbeAsk)
        requires
            channel_ok(old(self).ch),
        ensures
            (*final(self), r) == reset_next(*old(self), answer),
    {
        match self.stage {
            ResetStage::On => {
                self.stage = ResetStage::Hold;
                ProbeAsk::Pause
            },
            ResetStage::Hold => {
                self.stage = ResetStage::Off;
                ProbeAsk::Out(self.ch.ctl, 0)
            },
            ResetStage::Off => {
                self.stage = ResetStage::PickFirst;
                ProbeAsk::Out(self.ch.cmd + 6, 0xA0)
            },
            ResetStage::PickFirst => {
                self.stage = ResetStage::SeeFirst;
                ProbeAsk::In(self.ch.cmd + 7)
            },
            ResetStage::SeeFirst => {
                self.first_busy = answer >= 128;
                self.stage = ResetStage::PickSecond;
                ProbeAsk::Out(self.ch.cmd + 6, 0xB0)
            },
            ResetStage::PickSecond => {
                self.stage = ResetStage::SeeSecond;
                ProbeAsk::In(self.ch.cmd + 7)
            },
            ResetStage::SeeSecond => {
                if (!self.first_busy && answer < 128) || self.left <= 1 {
                    self.left = 0;
                    self.stage = ResetStage::Over;
                    ProbeAsk::Over
                } else {
                    self.left = self.left - 1;
                    self.stage = ResetStage::PickFirst;
                    ProbeAsk::Out(self.ch.cmd + 6, 0xA0)
                }
            },
            ResetStage::Over => ProbeAsk::Over,
        }
    }
}

// ── The question ──

/// What a question to a drive is at.
#[derive(Clone, Copy, PartialEq, Eq, Debug, Structural)]
pub enum ProbeStage {
    Select,
    Settle,
    Identify,
    First,
    Wait,
    Second,
    Mid,
    Hi,
    Words,
    Over,
}

/// A question to a drive, and what was read so far.
#[derive(Clone, Copy, PartialEq, Eq, Debug, Structural)]
pub struct ProbeRun {
    pub ch: AtaChannel,
    pub drive: u8,
    pub stage: ProbeStage,
    /// How often the status is still read.
    pub left: u32,
    pub first: u8,
    pub ready: bool,
    pub second: u8,
    pub mid: u8,
    pub hi: u8,
}

pub open spec fn probe_at(r: ProbeRun, stage: ProbeStage) -> ProbeRun {
    ProbeRun { stage, ..r }
}

/// The question once what it asked for was done, and what it asks for next.
pub open spec fn probe_next(r: ProbeRun, answer: u8) -> (ProbeRun, ProbeAsk) {
    let status = ProbeAsk::In(status_port(r.ch));
    match r.stage {
        ProbeStage::Select => (
            ProbeRun { left: SETTLE, ..probe_at(r, ProbeStage::Settle) },
            status,
        ),
        ProbeStage::Settle => if r.left <= 1 {
            (
                ProbeRun { left: 0, ..probe_at(r, ProbeStage::Identify) },
                ProbeAsk::Out(status_port(r.ch), IDENTIFY),
            )
        } else {
            (ProbeRun { left: (r.left - 1) as u32, ..r }, status)
        },
        ProbeStage::Identify => (probe_at(r, ProbeStage::First), status),
        ProbeStage::First => if answer == 0 || answer == 0xFF {
            (ProbeRun { first: answer, ..probe_at(r, ProbeStage::Over) }, ProbeAsk::Over)
        } else {
            (
                ProbeRun { first: answer, left: TIMEOUT, ..probe_at(r, ProbeStage::Wait) },
                status,
            )
        },
        ProbeStage::Wait => if answer < 128 {
            (ProbeRun { ready: true, ..probe_at(r, ProbeStage::Second) }, status)
        } else if r.left <= 1 {
            (ProbeRun { left: 0, ..probe_at(r, ProbeStage::Over) }, ProbeAsk::Over)
        } else {
            (ProbeRun { left: (r.left - 1) as u32, ..r }, status)
        },
        ProbeStage::Second => if answer % 2 == 1 {
            (ProbeRun { second: answer, ..probe_at(r, ProbeStage::Over) }, ProbeAsk::Over)
        } else {
            (
                ProbeRun { second: answer, ..probe_at(r, ProbeStage::Mid) },
                ProbeAsk::In((r.ch.cmd + 4) as u16),
            )
        },
        ProbeStage::Mid => (
            ProbeRun { mid: answer, ..probe_at(r, ProbeStage::Hi) },
            ProbeAsk::In((r.ch.cmd + 5) as u16),
        ),
        ProbeStage::Hi => if detect::packet_drive(r.mid, answer) {
            (ProbeRun { hi: answer, ..probe_at(r, ProbeStage::Over) }, ProbeAsk::Over)
        } else {
            (
                ProbeRun { hi: answer, ..probe_at(r, ProbeStage::Words) },
                ProbeAsk::Words(r.ch.cmd),
            )
        },
        ProbeStage::Words => (probe_at(r, ProbeStage::Over), ProbeAsk::Over),
        ProbeStage::Over => (r, ProbeAsk::Over),
    }
}

/// A question that was not asked yet.
pub open spec fn fresh(ch: AtaChannel, drive: u8) -> ProbeRun {
    ProbeRun {
        ch,
        drive,
        stage: ProbeStage::Select,
        left: 0,
        first: 0,
        ready: false,
        second: 0,
        mid: 0,
        hi: 0,
    }
}

impl ProbeRun {
    /// Begins to ask the drive at a place what it is.
    pub fn ask(ch: AtaChannel, drive: u8) -> (r: (ProbeRun, ProbeAsk))
        requires
            channel_ok(ch),
            drive < 2,
        ensures
            r.0 == fresh(ch, drive),
            r.1 == ProbeAsk::Out(select_port(ch), (0xA0 + 16 * drive) as u8),
    {
        (
            ProbeRun {
                ch,
                drive,
                stage: ProbeStage::Select,
                left: 0,
                first: 0,
                ready: false,
                second: 0,
                mid: 0,
                hi: 0,
            },
            ProbeAsk::Out(ch.cmd + 6, 0xA0 + 16 * drive),
        )
    }

    /// Goes on once what was asked for was done; `answer` is what a port gave.
    pub fn step(&mut self, answer: u8) -> (r: ProbeAsk)
        requires
            channel_ok(old(self).ch),
        ensures
            (*final(self), r) == probe_next(*old(self), answer),
    {
        let status: u16 = self.ch.cmd + 7;
        match self.stage {
            ProbeStage::Select => {
                self.left = SETTLE;
                self.stage = ProbeStage::Settle;
                ProbeAsk::In(status)
            },
            ProbeStage::Settle => {
                if self.left <= 1 {
                    self.left = 0;
                    self.stage = ProbeStage::Identify;
                    ProbeAsk::Out(status, IDENTIFY)
                } else {
                    self.left = self.left - 1;
                    ProbeAsk::In(status)
                }
            },
            ProbeStage::Identify => {
                self.stage = ProbeStage::First;
                ProbeAsk::In(status)
            },
            ProbeStage::First => {
                self.first = answer;
                if answer == 0 || answer == 0xFF {
                    self.stage = ProbeStage::Over;
                    return ProbeAsk::Over;
                }
                self.left = TIMEOUT;
                self.stage = ProbeStage::Wait;
                ProbeAsk::In(status)
            },
            ProbeStage::Wait => {
                if answer < 128 {
                    self.ready = true;
                    self.stage = ProbeStage::Second;
                    ProbeAsk::In(status)
                } else if self.left <= 1 {
                    self.left = 0;
                    self.stage = ProbeStage::Over;
                    ProbeAsk::Over
                } else {
                    self.left = self.left - 1;
                    ProbeAsk::In(status)
                }
            },
            ProbeStage::Second => {
                self.second = answer;
                if answer % 2 == 1 {
                    self.stage = ProbeStage::Over;
                    return ProbeAsk::Over;
                }
                self.stage = ProbeStage::Mid;
                ProbeAsk::In(self.ch.cmd + 4)
            },
            ProbeStage::Mid => {
                self.mid = answer;
                self.stage = ProbeStage::Hi;
                ProbeAsk::In(self.ch.cmd + 5)
            },
            ProbeStage::Hi => {
                self.hi = answer;
                if self.mid == 0x14 && answer == 0xEB {
                    self.stage = ProbeStage::Over;
                    return ProbeAsk::Over;
                }
                self.stage = ProbeStage::Words;
                ProbeAsk::Words(self.ch.cmd)
            },
            ProbeStage::Words => {
                self.stage = ProbeStage::Over;
                ProbeAsk::Over
            },
            ProbeStage::Over => ProbeAsk::Over,
        }
    }

    /// What was found; `words` are the words that were read, and mean nothing
    /// if none were asked for.
    pub fn result(&self, words: Vec<u16>) -> (r: Probe)
        requires
            words@.len() == 256,
        ensures
            detect::found_at(
                r,
                self.ch.cmd,
                self.drive,
                self.first,
                self.ready,
                self.second,
                self.mid,
                self.hi,
                words@,
            ),
    {
        let seen = Seen {
            first: self.first,
            ready: self.ready,
            second: self.second,
            mid: self.mid,
            hi: self.hi,
            words,
        };
        probe_drive(&self.ch, self.drive, &seen)
    }
}

/// The words of a drive are read only from a drive that answered in time,
/// without an error, and that is no packet drive: what was read before says so.
pub open spec fn told_so_far(r: ProbeRun) -> bool {
    let past_first = match r.stage {
        ProbeStage::Wait | ProbeStage::Second | ProbeStage::Mid | ProbeStage::Hi
        | ProbeStage::Words => true,
        _ => false,
    };
    let past_wait = match r.stage {
        ProbeStage::Second | ProbeStage::Mid | ProbeStage::Hi | ProbeStage::Words => true,
        _ => false,
    };
    let past_second = match r.stage {
        ProbeStage::Mid | ProbeStage::Hi | ProbeStage::Words => true,
        _ => false,
    };
    &&& past_first ==> r.first != 0 && r.first != 0xFF
    &&& past_wait ==> r.ready
    &&& past_second ==> r.second % 2 == 0
    &&& r.stage is Words ==> !detect::packet_drive(r.mid, r.hi)
}

/// The question after some answers.
pub open spec fn probed(r: ProbeRun, answers: Seq<u8>) -> ProbeRun
    decreases answers.len(),
{
    if answers.len() == 0 {
        r
    } else {
        probe_next(probed(r, answers.drop_last()), answers.last()).0
    }
}

/// The words are read from a drive only if it is one: whatever the ports gave,
/// when they are asked for the place is neither empty nor that of a packet
/// drive.
pub proof fn law_only_drives_are_read(ch: AtaChannel, drive: u8, answers: Seq<u8>)
    ensures
        ({
            let r = probed(fresh(ch, drive), answers);
            r.stage is Words ==> !detect::absent(r.first, r.ready, r.second)
                && !detect::packet_drive(r.mid, r.hi)
        }),
{
    lemma_told_so_far(ch, drive, answers);
}

proof fn lemma_told_so_far(ch: AtaChannel, drive: u8, answers: Seq<u8>)
    ensures
        told_so_far(probed(fresh(ch, drive), answers)),
    decreases answers.len(),
{
    if answers.len() > 0 {
        lemma_told_so_far(ch, drive, answers.drop_last());
    }
}

/// How far a question is from its end.
pub open spec fn probe_rank(r: ProbeRun) -> int {
    match r.stage {
        ProbeStage::Select => 3 * TIMEOUT,
        ProbeStage::Settle => 2 * TIMEOUT + r.left,
        ProbeStage::Identify => TIMEOUT + 9,
        ProbeStage::First => TIMEOUT + 8,
        ProbeStage::Wait => 7 + r.left,
        ProbeStage::Second => 5,
        ProbeStage::Mid => 4,
        ProbeStage::Hi => 3,
        ProbeStage::Words => 2,
        ProbeStage::Over => 0,
    }
}

/// A question comes to an end, whatever the ports give: each answer brings it
/// nearer.
pub proof fn law_probe_ends(r: ProbeRun, answer: u8)
    requires
        r.left <= TIMEOUT,
        !(r.stage is Over),
    ensures
        0 <= probe_rank(probe_next(r, answer).0) < probe_rank(r),
        probe_next(r, answer).0.left <= TIMEOUT,
{
}

/// How far a reset is from its end.
pub open spec fn reset_rank(r: ResetRun) -> int {
    match r.stage {
        ResetStage::On => 4 * TIMEOUT + 10,
        ResetStage::Hold => 4 * TIMEOUT + 9,
        ResetStage::Off => 4 * TIMEOUT + 8,
        ResetStage::PickFirst => 4 * r.left + 4,
        ResetStage::SeeFirst => 4 * r.left + 3,
        ResetStage::PickSecond => 4 * r.left + 2,
        ResetStage::SeeSecond => 4 * r.left + 1,
        ResetStage::Over => 0,
    }
}

/// A reset comes to an end, also if a drive stays busy.
pub proof fn law_reset_ends(r: ResetRun, answer: u8)
    requires
        r.left <= TIMEOUT,
        !(r.stage is Over),
    ensures
        0 <= reset_rank(reset_next(r, answer).0) < reset_rank(r),
        reset_next(r, answer).0.left <= TIMEOUT,
{
}

} // verus!
