//! The ports of the DMA controller: in which order they are read and written to
//! start a transfer, to close it, and to give it up.
//!
//! The drive's status is read before the controller's is cleared: reading it is
//! what makes the drive take its interrupt back, and cleared earlier the
//! controller would see the same interrupt again.
use vstd::prelude::*;

use super::block::{AtaDisk, TIMEOUT};
use super::dma::DmaEngine;

verus! {

/// Where the command of a channel is, from the channel's first port on.
pub const BM_CMD_OFF: u16 = 0;

pub const BM_STATUS_OFF: u16 = 2;

/// Where the address of the table is written.
pub const BM_PRD_OFF: u16 = 4;

/// What clears the error and the interrupt in the status.
pub const BM_CLEAR: u8 = 6;

/// What a run is at.
#[derive(Clone, Copy, PartialEq, Eq, Debug, Structural)]
pub enum Stage {
    /// Starting: the controller is waited for until it is idle.
    AwaitIdle,
    Table,
    ClearOld,
    Drive,
    ReadCommand,
    WriteCommand,
    /// Closing: the status of the controller is kept before it is cleared.
    KeepStatus,
    /// Closing or giving up: the controller is stopped.
    ReadStop,
    WriteStop,
    DriveStatus,
    ClearNew,
    Over,
}

/// What a run is for.
#[derive(Clone, Copy, PartialEq, Eq, Debug, Structural)]
pub enum Purpose {
    Begin { write: bool },
    Close,
    GiveUp,
}

/// What is to be done next.
#[derive(Clone, Copy, PartialEq, Eq, Debug, Structural)]
pub enum PortAsk {
    /// This port is to be read.
    In(u16),
    /// This byte is to be written to this port.
    Out(u16, u8),
    /// The address of the table is to be written to this port, 32 bits wide.
    Table(u16, u32),
    /// The drive is to be given the command; the answer is 0 if it took it.
    Command,
    /// The transfer is under way.
    Started,
    /// The transfer cannot be made this way.
    Refused,
    /// It is closed: the status of the controller and that of the drive.
    Closed(u8, u8),
    /// It is given up.
    GivenUp,
}

/// A run over the ports of a channel.
#[derive(Clone, Copy, PartialEq, Eq, Debug, Structural)]
pub struct PortRun {
    /// The first port of the channel.
    pub base: u16,
    /// The port of the drive's status.
    pub drive: u16,
    pub page: u32,
    pub purpose: Purpose,
    pub stage: Stage,
    /// How often the status may be read before the controller is given up.
    pub left: u32,
    /// The status of the controller, once it was kept.
    pub controller: u8,
    /// The status of the drive, once it was read.
    pub seen: u8,
}

pub open spec fn command_port(r: PortRun) -> u16 {
    (r.base + BM_CMD_OFF) as u16
}

pub open spec fn status_port(r: PortRun) -> u16 {
    (r.base + BM_STATUS_OFF) as u16
}

/// The command with the bit cleared that starts a transfer.
pub open spec fn stop_value(command: u8) -> u8 {
    (command - command % 2) as u8
}

/// The command that starts a transfer, given the one that is there: bit 0
/// starts it, bit 3 makes it go to memory.
pub open spec fn start_value(command: u8, write: bool) -> u8 {
    let base = command - command % 2 + 1;
    if write || (command / 8) % 2 == 1 {
        base as u8
    } else {
        (base + 8) as u8
    }
}

/// What a run asks for first.
pub open spec fn first_ask(r: PortRun) -> PortAsk {
    match r.purpose {
        Purpose::Begin { .. } => PortAsk::In(status_port(r)),
        Purpose::Close => PortAsk::In(status_port(r)),
        Purpose::GiveUp => PortAsk::In(command_port(r)),
    }
}

pub open spec fn at(r: PortRun, stage: Stage) -> PortRun {
    PortRun { stage, ..r }
}

/// The run once what it asked for was done, and what it asks for next.
pub open spec fn run_next(r: PortRun, answer: u8) -> (PortRun, PortAsk) {
    match r.stage {
        Stage::AwaitIdle => if answer % 2 == 0 {
            (at(r, Stage::Table), PortAsk::Table((r.base + BM_PRD_OFF) as u16, r.page))
        } else if r.left <= 1 {
            (PortRun { left: 0, ..at(r, Stage::Over) }, PortAsk::Refused)
        } else {
            (PortRun { left: (r.left - 1) as u32, ..r }, PortAsk::In(status_port(r)))
        },
        Stage::Table => (at(r, Stage::ClearOld), PortAsk::Out(status_port(r), BM_CLEAR)),
        Stage::ClearOld => (at(r, Stage::Drive), PortAsk::Command),
        Stage::Drive => if answer == 0 {
            (at(r, Stage::ReadCommand), PortAsk::In(command_port(r)))
        } else {
            (at(r, Stage::Over), PortAsk::Refused)
        },
        Stage::ReadCommand => (
            at(r, Stage::WriteCommand),
            PortAsk::Out(
                command_port(r),
                start_value(answer, r.purpose == Purpose::Begin { write: true }),
            ),
        ),
        Stage::WriteCommand => (at(r, Stage::Over), PortAsk::Started),
        Stage::KeepStatus => (
            PortRun { controller: answer, ..at(r, Stage::ReadStop) },
            PortAsk::In(command_port(r)),
        ),
        Stage::ReadStop => (
            at(r, Stage::WriteStop),
            PortAsk::Out(command_port(r), stop_value(answer)),
        ),
        Stage::WriteStop => if r.purpose is GiveUp {
            (at(r, Stage::ClearNew), PortAsk::Out(status_port(r), BM_CLEAR))
        } else {
            (at(r, Stage::DriveStatus), PortAsk::In(r.drive))
        },
        Stage::DriveStatus => (
            PortRun { seen: answer, ..at(r, Stage::ClearNew) },
            PortAsk::Out(status_port(r), BM_CLEAR),
        ),
        Stage::ClearNew => if r.purpose is GiveUp {
            (at(r, Stage::Over), PortAsk::GivenUp)
        } else {
            (at(r, Stage::Over), PortAsk::Closed(r.controller, r.seen))
        },
        Stage::Over => (r, PortAsk::Refused),
    }
}

/// A run that begins.
pub open spec fn fresh(e: DmaEngine, disk: AtaDisk, chan: u16, purpose: Purpose) -> PortRun {
    PortRun {
        base: (e.bmiba + chan) as u16,
        drive: (disk.cmd + 7) as u16,
        page: (e.staging_phys % 0x1_0000_0000) as u32,
        purpose,
        stage: match purpose {
            Purpose::Begin { .. } => Stage::AwaitIdle,
            Purpose::Close => Stage::KeepStatus,
            Purpose::GiveUp => Stage::ReadStop,
        },
        left: TIMEOUT,
        controller: 0,
        seen: 0,
    }
}

impl DmaEngine {
    /// The ports of a channel are there.
    pub open spec fn has_channel(&self, chan: u16) -> bool {
        self.bmiba + chan <= 0xFFF0
    }

    fn run_for(&self, disk: &AtaDisk, chan: u16, purpose: Purpose) -> (r: (PortRun, PortAsk))
        requires
            self.has_channel(chan),
            disk.wf(),
        ensures
            r.0 == fresh(*self, *disk, chan, purpose),
            r.1 == first_ask(r.0),
    {
        let stage: Stage = match purpose {
            Purpose::Begin { .. } => Stage::AwaitIdle,
            Purpose::Close => Stage::KeepStatus,
            Purpose::GiveUp => Stage::ReadStop,
        };
        let run = PortRun {
            base: self.bmiba + chan,
            drive: disk.cmd + 7,
            page: (self.staging_phys % 0x1_0000_0000) as u32,
            purpose,
            stage,
            left: TIMEOUT,
            controller: 0,
            seen: 0,
        };
        let ask: PortAsk = match purpose {
            Purpose::GiveUp => PortAsk::In(run.base + BM_CMD_OFF),
            _ => PortAsk::In(run.base + BM_STATUS_OFF),
        };
        (run, ask)
    }

    /// Begins to start a transfer that was prepared.
    pub fn arm(&self, disk: &AtaDisk, chan: u16, write: bool) -> (r: (PortRun, PortAsk))
        requires
            self.has_channel(chan),
            disk.wf(),
        ensures
            r.0 == fresh(*self, *disk, chan, Purpose::Begin { write }),
            r.1 == first_ask(r.0),
    {
        self.run_for(disk, chan, Purpose::Begin { write })
    }

    /// Begins to close a transfer, whether it went well or not.
    pub fn finish(&self, disk: &AtaDisk, chan: u16) -> (r: (PortRun, PortAsk))
        requires
            self.has_channel(chan),
            disk.wf(),
        ensures
            r.0 == fresh(*self, *disk, chan, Purpose::Close),
            r.1 == first_ask(r.0),
    {
        self.run_for(disk, chan, Purpose::Close)
    }

    /// Begins to give up a transfer that nobody waits for any more, or one that
    /// was under way when the driver was started anew.
    pub fn abort(&self, disk: &AtaDisk, chan: u16) -> (r: (PortRun, PortAsk))
        requires
            self.has_channel(chan),
            disk.wf(),
        ensures
            r.0 == fresh(*self, *disk, chan, Purpose::GiveUp),
            r.1 == first_ask(r.0),
    {
        self.run_for(disk, chan, Purpose::GiveUp)
    }
}

impl PortRun {
    /// The ports of the run are there.
    pub open spec fn wf(&self) -> bool {
        self.base <= 0xFFF0
    }

    /// Goes on once what was asked for was done. `answer` is what a port gave;
    /// for the command, 0 if the drive took it.
    pub fn step(&mut self, answer: u8) -> (r: PortAsk)
        requires
            old(self).wf(),
        ensures
            (*final(self), r) == run_next(*old(self), answer),
            final(self).wf(),
    {
        let command: u16 = self.base + BM_CMD_OFF;
        let status: u16 = self.base + BM_STATUS_OFF;
        match self.stage {
            Stage::AwaitIdle => {
                if answer % 2 == 0 {
                    self.stage = Stage::Table;
                    PortAsk::Table(self.base + BM_PRD_OFF, self.page)
                } else if self.left <= 1 {
                    self.left = 0;
                    self.stage = Stage::Over;
                    PortAsk::Refused
                } else {
                    self.left = self.left - 1;
                    PortAsk::In(status)
                }
            },
            Stage::Table => {
                self.stage = Stage::ClearOld;
                PortAsk::Out(status, BM_CLEAR)
            },
            Stage::ClearOld => {
                self.stage = Stage::Drive;
                PortAsk::Command
            },
            Stage::Drive => {
                if answer == 0 {
                    self.stage = Stage::ReadCommand;
                    PortAsk::In(command)
                } else {
                    self.stage = Stage::Over;
                    PortAsk::Refused
                }
            },
            Stage::ReadCommand => {
                self.stage = Stage::WriteCommand;
                let write: bool = match self.purpose {
                    Purpose::Begin { write } => write,
                    _ => false,
                };
                let base: u8 = answer - answer % 2 + 1;
                if write || (answer / 8) % 2 == 1 {
                    PortAsk::Out(command, base)
                } else {
                    PortAsk::Out(command, base + 8)
                }
            },
            Stage::WriteCommand => {
                self.stage = Stage::Over;
                PortAsk::Started
            },
            Stage::KeepStatus => {
                self.controller = answer;
                self.stage = Stage::ReadStop;
                PortAsk::In(command)
            },
            Stage::ReadStop => {
                self.stage = Stage::WriteStop;
                PortAsk::Out(command, answer - answer % 2)
            },
            Stage::WriteStop => match self.purpose {
                Purpose::GiveUp => {
                    self.stage = Stage::ClearNew;
                    PortAsk::Out(status, BM_CLEAR)
                },
                _ => {
                    self.stage = Stage::DriveStatus;
                    PortAsk::In(self.drive)
                },
            },
            Stage::DriveStatus => {
                self.seen = answer;
                self.stage = Stage::ClearNew;
                PortAsk::Out(status, BM_CLEAR)
            },
            Stage::ClearNew => {
                self.stage = Stage::Over;
                match self.purpose {
                    Purpose::GiveUp => PortAsk::GivenUp,
                    _ => PortAsk::Closed(self.controller, self.seen),
                }
            },
            Stage::Over => PortAsk::Refused,
        }
    }
}

/// The run after some answers.
pub open spec fn run_after(r: PortRun, answers: Seq<u8>) -> PortRun
    decreases answers.len(),
{
    if answers.len() == 0 {
        r
    } else {
        run_next(run_after(r, answers.drop_last()), answers.last()).0
    }
}

/// What a run asks for after some answers.
pub open spec fn asked(r: PortRun, answers: Seq<u8>) -> PortAsk {
    if answers.len() == 0 {
        first_ask(r)
    } else {
        run_next(run_after(r, answers.drop_last()), answers.last()).1
    }
}

/// A transfer is closed in this order: the status of the controller is kept,
/// the controller is stopped, the status of the drive is read, and only then
/// that of the controller is cleared. Both statuses are told.
pub proof fn law_closed_in_order(e: DmaEngine, disk: AtaDisk, chan: u16, a: Seq<u8>)
    requires
        a.len() == 5,
    ensures
        ({
            let r = fresh(e, disk, chan, Purpose::Close);
            &&& asked(r, a.take(0)) == PortAsk::In(status_port(r))
            &&& asked(r, a.take(1)) == PortAsk::In(command_port(r))
            &&& asked(r, a.take(2)) == PortAsk::Out(command_port(r), stop_value(a[1]))
            &&& asked(r, a.take(3)) == PortAsk::In(r.drive)
            &&& asked(r, a.take(4)) == PortAsk::Out(status_port(r), BM_CLEAR)
            &&& asked(r, a) == PortAsk::Closed(a[0], a[3])
        }),
{
    let r = fresh(e, disk, chan, Purpose::Close);
    assert(a.take(0) =~= Seq::empty());
    assert(a.take(1).drop_last() =~= a.take(0));
    assert(a.take(2).drop_last() =~= a.take(1));
    assert(a.take(3).drop_last() =~= a.take(2));
    assert(a.take(4).drop_last() =~= a.take(3));
    assert(a.drop_last() =~= a.take(4));
    assert(run_after(r, a.take(0)) == r);
    assert(run_after(r, a.take(1)) == run_next(r, a[0]).0);
    assert(run_after(r, a.take(2)) == run_next(run_after(r, a.take(1)), a[1]).0);
    assert(run_after(r, a.take(3)) == run_next(run_after(r, a.take(2)), a[2]).0);
    assert(run_after(r, a.take(4)) == run_next(run_after(r, a.take(3)), a[3]).0);
}

/// A controller that is never idle is not waited for forever: each time that
/// its status is read once more, one time less is left, and at the end the
/// transfer is refused.
pub proof fn law_busy_controller_is_refused(r: PortRun, answer: u8)
    requires
        r.stage is AwaitIdle,
        answer % 2 == 1,
    ensures
        r.left <= 1 ==> run_next(r, answer).1 is Refused,
        r.left > 1 ==> run_next(r, answer).0.left == r.left - 1,
{
}

} // verus!
