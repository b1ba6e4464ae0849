//! Transfers between memory and an ATA drive, one status byte at a time: what
//! is written to which port, and when a sector goes through the data port.
use vstd::prelude::*;


verus! {

/// How often the status is read before a drive is given up.
pub const TIMEOUT: u32 = 200_000;

/// A drive: the first port of its channel, its place on it (0 or 1), and
/// whether its sectors have 48-bit numbers.
#[derive(Clone, Copy, PartialEq, Eq, Debug, Structural)]
pub struct AtaDisk {
    pub cmd: u16,
    pub drive: u8,
    pub lba48: bool,
}

/// A write of a byte to a port.
pub type PortWrite = (u16, u8);

pub open spec fn busy(st: u8) -> bool {
    st >= 128
}

pub open spec fn wants_data(st: u8) -> bool {
    (st / 8) % 2 == 1
}

pub open spec fn failed(st: u8) -> bool {
    st % 2 == 1
}

/// Byte `k` of a sector number.
pub open spec fn lba_byte(lba: u64, k: int) -> u8 {
    ((lba as int / pow256(k)) % 256) as u8
}

pub open spec fn pow256(k: int) -> int
    decreases k,
{
    if k <= 0 {
        1
    } else {
        256 * pow256(k - 1)
    }
}

/// The largest sector number that a drive takes.
pub open spec fn max_lba(d: AtaDisk) -> u64 {
    if d.lba48 {
        0xFFFF_FFFF_FFFF
    } else {
        0x0FFF_FFFF
    }
}

/// The port writes that give a command for `n` sectors from `lba` on. With
/// 48-bit numbers the upper halves go first.
pub open spec fn command_for(d: AtaDisk, lba: u64, n: u8, op: u8) -> Seq<PortWrite> {
    let c = d.cmd;
    if d.lba48 {
        seq![
            ((c + 6) as u16, (0x40 + 16 * d.drive) as u8),
            ((c + 1) as u16, 0),
            ((c + 2) as u16, 0),
            ((c + 3) as u16, lba_byte(lba, 3)),
            ((c + 4) as u16, lba_byte(lba, 4)),
            ((c + 5) as u16, lba_byte(lba, 5)),
            ((c + 1) as u16, 0),
            ((c + 2) as u16, n),
            ((c + 3) as u16, lba_byte(lba, 0)),
            ((c + 4) as u16, lba_byte(lba, 1)),
            ((c + 5) as u16, lba_byte(lba, 2)),
            ((c + 7) as u16, op),
        ]
    } else {
        seq![
            ((c + 6) as u16, (0xE0 + 16 * d.drive + lba_byte(lba, 3) % 16) as u8),
            ((c + 1) as u16, 0),
            ((c + 2) as u16, n),
            ((c + 3) as u16, lba_byte(lba, 0)),
            ((c + 4) as u16, lba_byte(lba, 1)),
            ((c + 5) as u16, lba_byte(lba, 2)),
            ((c + 7) as u16, op),
        ]
    }
}

/// The command byte for reading or writing.
pub open spec fn transfer_op(d: AtaDisk, write: bool) -> u8 {
    if d.lba48 {
        if write {
            0x34
        } else {
            0x24
        }
    } else {
        if write {
            0x30
        } else {
            0x20
        }
    }
}

/// The port writes that make a drive put on its disk what it holds back.
pub open spec fn flush_for(d: AtaDisk) -> Seq<PortWrite> {
    seq![
        (
            (d.cmd + 6) as u16,
            (if d.lba48 {
                0x40 + 16 * d.drive
            } else {
                0xE0 + 16 * d.drive
            }) as u8,
        ),
        (
            (d.cmd + 7) as u16,
            if d.lba48 {
                0xEA
            } else {
                0xE7
            },
        ),
    ]
}

/// What a transfer waits for.
#[derive(Clone, Copy, PartialEq, Eq, Debug, Structural)]
pub enum Phase {
    /// For the drive to be free for a command.
    Start,
    /// For the drive to have the next sector.
    Ready,
    /// To learn whether it failed to get it.
    Check,
    /// For the drive to ask for data, or offer it.
    Data,
    /// For the drive to have taken the last sector.
    Settle,
    /// For the drive to have put everything on its disk.
    Flush,
    /// To learn whether it failed to.
    Verify,
    /// For nothing: it is over, well or not.
    Done(bool),
}

/// A transfer of `n` sectors from `lba` on, of which `moved` went through.
#[derive(Clone, Copy, PartialEq, Eq, Debug, Structural)]
pub struct Transfer {
    pub disk: AtaDisk,
    pub lba: u64,
    pub n: u8,
    pub write: bool,
    pub moved: u8,
    pub phase: Phase,
    /// How often the status may be read before the drive is given up.
    pub left: u32,
}

/// What is to be done next.
#[derive(Clone, Copy, PartialEq, Eq, Debug, Structural)]
pub enum Action {
    /// The status is to be read.
    Status,
    /// The command is to be given, and then the status read.
    Command,
    /// Sector `k` of the transfer is to go through the data port, and then the
    /// status read, unless it is the last one of a read.
    Sector(u8),
    /// The drive is to be told to put everything on its disk, and then the
    /// status read.
    Flush,
    /// Nothing: the transfer is over, well or not.
    Finished(bool),
}

impl AtaDisk {
    /// A drive that can be: its ports are there.
    pub open spec fn wf(&self) -> bool {
        self.cmd <= 0xFFF0 && self.drive <= 1
    }

    /// The first drive on the primary channel, with 28-bit sector numbers.
    pub fn primary_master() -> (r: AtaDisk)
        ensures
            r == (AtaDisk { cmd: 0x1F0, drive: 0, lba48: false }),
    {
        AtaDisk { cmd: 0x1F0, drive: 0, lba48: false }
    }

    pub fn open(cmd: u16, drive: u8, lba48: bool) -> (r: AtaDisk)
        ensures
            r == (AtaDisk { cmd, drive, lba48 }),
    {
        AtaDisk { cmd, drive, lba48 }
    }
}

/// A transfer that begins; `None` if it cannot.
pub open spec fn begun(d: AtaDisk, lba: u64, n: u8, room: int, write: bool) -> Option<Transfer> {
    if n == 0 || room < n * 512 || lba > max_lba(d) {
        None
    } else {
        Some(
            Transfer {
                disk: d,
                lba,
                n,
                write,
                moved: 0,
                phase: Phase::Start,
                left: TIMEOUT,
            },
        )
    }
}

/// The phase in which the next sector is waited for.
pub open spec fn before_sector(write: bool) -> Phase {
    if write {
        Phase::Data
    } else {
        Phase::Ready
    }
}

/// A wait that goes on: the status is read again, as long as it may be.
pub open spec fn waited(t: Transfer) -> (Transfer, Action) {
    if t.left <= 1 {
        (Transfer { phase: Phase::Done(false), left: 0, ..t }, Action::Finished(false))
    } else {
        (Transfer { left: (t.left - 1) as u32, ..t }, Action::Status)
    }
}

/// A phase that begins, with a whole wait before it.
pub open spec fn entered(t: Transfer, phase: Phase) -> Transfer {
    Transfer { phase, left: TIMEOUT, ..t }
}

pub open spec fn ended(t: Transfer, ok: bool) -> (Transfer, Action) {
    (Transfer { phase: Phase::Done(ok), left: 0, ..t }, Action::Finished(ok))
}

/// A sector goes through the data port.
pub open spec fn sector_moved(t: Transfer) -> (Transfer, Action) {
    let m = Transfer { moved: (t.moved + 1) as u8, ..t };
    let k = t.moved;
    if m.moved < t.n {
        (entered(m, before_sector(t.write)), Action::Sector(k))
    } else if t.write {
        (entered(m, Phase::Settle), Action::Sector(k))
    } else {
        (Transfer { phase: Phase::Done(true), left: 0, ..m }, Action::Sector(k))
    }
}

/// The transfer once the status was read, and what is to be done.
pub open spec fn stepped(t: Transfer, st: u8) -> (Transfer, Action) {
    match t.phase {
        Phase::Start => if busy(st) {
            waited(t)
        } else {
            (entered(t, before_sector(t.write)), Action::Command)
        },
        Phase::Ready => if busy(st) {
            waited(t)
        } else {
            (entered(t, Phase::Check), Action::Status)
        },
        Phase::Check => if failed(st) {
            ended(t, false)
        } else {
            (entered(t, Phase::Data), Action::Status)
        },
        Phase::Data => if wants_data(st) {
            sector_moved(t)
        } else if failed(st) {
            ended(t, false)
        } else {
            waited(t)
        },
        Phase::Settle => if busy(st) {
            waited(t)
        } else {
            (entered(t, Phase::Flush), Action::Flush)
        },
        Phase::Flush => if busy(st) {
            waited(t)
        } else {
            (entered(t, Phase::Verify), Action::Status)
        },
        Phase::Verify => ended(t, !failed(st)),
        Phase::Done(ok) => (t, Action::Finished(ok)),
    }
}

impl AtaDisk {
    /// Begins to read one sector.
    pub fn read_sector(&self, lba: u64) -> (r: Option<Transfer>)
        ensures
            r == begun(*self, lba, 1, 512, false),
    {
        self.read_sectors(lba, 1, 512)
    }

    /// Begins to write one sector.
    pub fn write_sector(&self, lba: u64) -> (r: Option<Transfer>)
        ensures
            r == begun(*self, lba, 1, 512, true),
    {
        self.write_sectors(lba, 1, 512)
    }

    fn begin(&self, lba: u64, n: u8, room: usize, write: bool) -> (r: Option<Transfer>)
        ensures
            r == begun(*self, lba, n, room as int, write),
    {
        let max: u64 = if self.lba48 {
            0xFFFF_FFFF_FFFF
        } else {
            0x0FFF_FFFF
        };
        if n == 0 || room < n as usize * 512 || lba > max {
            return None;
        }
        Some(
            Transfer {
                disk: *self,
                lba,
                n,
                write,
                moved: 0,
                phase: Phase::Start,
                left: TIMEOUT,
            },
        )
    }

    /// Begins to read sectors into `room` bytes.
    pub fn read_sectors(&self, lba: u64, n: u8, room: usize) -> (r: Option<Transfer>)
        ensures
            r == begun(*self, lba, n, room as int, false),
    {
        self.begin(lba, n, room, false)
    }

    /// Begins to write sectors out of `room` bytes.
    pub fn write_sectors(&self, lba: u64, n: u8, room: usize) -> (r: Option<Transfer>)
        ensures
            r == begun(*self, lba, n, room as int, true),
    {
        self.begin(lba, n, room, true)
    }

    /// The mode of direct memory access that a drive and this controller both
    /// have, out of those that the drive lists, and the port writes that set
    /// it. `None` if there is none.
    pub fn set_dma_mode(&self, udma_word: u16) -> (r: Option<(u8, Vec<PortWrite>)>)
        requires
            self.wf(),
        ensures
            match r {
                Some((m, w)) => best_mode(udma_word) == Some(m) && w@ == mode_command(*self, m),
                None => best_mode(udma_word) is None,
            },
    {
        let m: u8 = if (udma_word / 4) % 2 == 1 || (udma_word / 8) % 2 == 1 || (udma_word / 16) % 2
            == 1 || (udma_word / 32) % 2 == 1 || (udma_word / 64) % 2 == 1 {
            2
        } else if (udma_word / 2) % 2 == 1 {
            1
        } else if udma_word % 2 == 1 {
            0
        } else {
            return None;
        };
        let c: u16 = self.cmd;
        let mut w: Vec<PortWrite> = Vec::new();
        w.push((c + 6, 0xA0 + 16 * self.drive));
        w.push((c + 1, 0x03));
        w.push((c + 2, 0x40 + m));
        w.push((c + 3, 0));
        w.push((c + 4, 0));
        w.push((c + 5, 0));
        w.push((c + 7, 0xEF));
        assert(w@ =~= mode_command(*self, m));
        Some((m, w))
    }
}

/// Whether mode `m` is listed.
pub open spec fn mode_listed(word: u16, m: int) -> bool {
    (word as int / pow2(m)) % 2 == 1
}

pub open spec fn pow2(m: int) -> int {
    if m == 0 {
        1
    } else if m == 1 {
        2
    } else if m == 2 {
        4
    } else if m == 3 {
        8
    } else if m == 4 {
        16
    } else if m == 5 {
        32
    } else {
        64
    }
}

/// The best mode out of those that are listed, but none above 2, which is the
/// best that the controller has.
pub open spec fn best_mode(word: u16) -> Option<u8> {
    if mode_listed(word, 6) || mode_listed(word, 5) || mode_listed(word, 4) || mode_listed(word, 3)
        || mode_listed(word, 2) {
        Some(2)
    } else if mode_listed(word, 1) {
        Some(1)
    } else if mode_listed(word, 0) {
        Some(0)
    } else {
        None
    }
}

/// The port writes that set a mode.
pub open spec fn mode_command(d: AtaDisk, m: u8) -> Seq<PortWrite> {
    let c = d.cmd;
    seq![
        ((c + 6) as u16, (0xA0 + 16 * d.drive) as u8),
        ((c + 1) as u16, 0x03),
        ((c + 2) as u16, (0x40 + m) as u8),
        ((c + 3) as u16, 0),
        ((c + 4) as u16, 0),
        ((c + 5) as u16, 0),
        ((c + 7) as u16, 0xEF),
    ]
}

impl Transfer {
    fn wait(&mut self) -> (r: Action)
        ensures
            (*final(self), r) == waited(*old(self)),
    {
        if self.left <= 1 {
            self.phase = Phase::Done(false);
            self.left = 0;
            Action::Finished(false)
        } else {
            self.left = self.left - 1;
            Action::Status
        }
    }

    fn enter(&mut self, phase: Phase)
        ensures
            *final(self) == entered(*old(self), phase),
    {
        self.phase = phase;
        self.left = TIMEOUT;
    }

    fn end(&mut self, ok: bool) -> (r: Action)
        ensures
            (*final(self), r) == ended(*old(self), ok),
    {
        self.phase = Phase::Done(ok);
        self.left = 0;
        Action::Finished(ok)
    }

    /// Goes on with a transfer: the status was read.
    pub fn step(&mut self, st: u8) -> (r: Action)
        requires
            old(self).phase is Data ==> old(self).moved < 255,
        ensures
            (*final(self), r) == stepped(*old(self), st),
    {
        let before: Phase = if self.write {
            Phase::Data
        } else {
            Phase::Ready
        };
        match self.phase {
            Phase::Start => {
                if st >= 128 {
                    self.wait()
                } else {
                    self.enter(before);
                    Action::Command
                }
            },
            Phase::Ready => {
                if st >= 128 {
                    self.wait()
                } else {
                    self.enter(Phase::Check);
                    Action::Status
                }
            },
            Phase::Check => {
                if st % 2 == 1 {
                    self.end(false)
                } else {
                    self.enter(Phase::Data);
                    Action::Status
                }
            },
            Phase::Data => {
                if (st / 8) % 2 == 1 {
                    let k: u8 = self.moved;
                    self.moved = k + 1;
                    if self.moved < self.n {
                        self.enter(before);
                    } else if self.write {
                        self.enter(Phase::Settle);
                    } else {
                        self.phase = Phase::Done(true);
                        self.left = 0;
                    }
                    Action::Sector(k)
                } else if st % 2 == 1 {
                    self.end(false)
                } else {
                    self.wait()
                }
            },
            Phase::Settle => {
                if st >= 128 {
                    self.wait()
                } else {
                    self.enter(Phase::Flush);
                    Action::Flush
                }
            },
            Phase::Flush => {
                if st >= 128 {
                    self.wait()
                } else {
                    self.enter(Phase::Verify);
                    Action::Status
                }
            },
            Phase::Verify => self.end(st % 2 == 0),
            Phase::Done(ok) => Action::Finished(ok),
        }
    }

    /// The port writes that give the command.
    pub fn command(&self) -> (r: Vec<PortWrite>)
        requires
            self.disk.wf(),
        ensures
            r@ == command_for(
                self.disk,
                self.lba,
                self.n,
                transfer_op(self.disk, self.write),
            ),
    {
        proof {
            reveal_with_fuel(pow256, 7);
        }
        let c: u16 = self.disk.cmd;
        let l: u64 = self.lba;
        let b0: u8 = (l % 256) as u8;
        let b1: u8 = (l / 0x100 % 256) as u8;
        let b2: u8 = (l / 0x1_0000 % 256) as u8;
        let b3: u8 = (l / 0x100_0000 % 256) as u8;
        let b4: u8 = (l / 0x1_0000_0000 % 256) as u8;
        let b5: u8 = (l / 0x100_0000_0000 % 256) as u8;
        assert(pow256(0) == 1 && pow256(1) == 0x100 && pow256(2) == 0x1_0000 && pow256(3)
            == 0x100_0000 && pow256(4) == 0x1_0000_0000 && pow256(5) == 0x100_0000_0000);
        assert(b0 == lba_byte(l, 0) && b1 == lba_byte(l, 1) && b2 == lba_byte(l, 2));
        assert(b3 == lba_byte(l, 3) && b4 == lba_byte(l, 4) && b5 == lba_byte(l, 5));
        let mut w: Vec<PortWrite> = Vec::new();
        if self.disk.lba48 {
            w.push((c + 6, 0x40 + 16 * self.disk.drive));
            w.push((c + 1, 0));
            w.push((c + 2, 0));
            w.push((c + 3, b3));
            w.push((c + 4, b4));
            w.push((c + 5, b5));
            w.push((c + 1, 0));
            w.push((c + 2, self.n));
            w.push((c + 3, b0));
            w.push((c + 4, b1));
            w.push((c + 5, b2));
            w.push(
                (
                    c + 7,
                    if self.write {
                        0x34
                    } else {
                        0x24
                    },
                ),
            );
        } else {
            w.push((c + 6, 0xE0 + 16 * self.disk.drive + b3 % 16));
            w.push((c + 1, 0));
            w.push((c + 2, self.n));
            w.push((c + 3, b0));
            w.push((c + 4, b1));
            w.push((c + 5, b2));
            w.push(
                (
                    c + 7,
                    if self.write {
                        0x30
                    } else {
                        0x20
                    },
                ),
            );
        }
        assert(w@ =~= command_for(
            self.disk,
            self.lba,
            self.n,
            transfer_op(self.disk, self.write),
        ));
        w
    }

    /// The port writes that make the drive put everything on its disk.
    pub fn flush(&self) -> (r: Vec<PortWrite>)
        requires
            self.disk.wf(),
        ensures
            r@ == flush_for(self.disk),
    {
        let mut w: Vec<PortWrite> = Vec::new();
        if self.disk.lba48 {
            w.push((self.disk.cmd + 6, 0x40 + 16 * self.disk.drive));
            w.push((self.disk.cmd + 7, 0xEA));
        } else {
            w.push((self.disk.cmd + 6, 0xE0 + 16 * self.disk.drive));
            w.push((self.disk.cmd + 7, 0xE7));
        }
        assert(w@ =~= flush_for(self.disk));
        w
    }
}

/// A transfer in its right order: no more sectors went through than there
/// are, all of them once it ended well or waits for the drive to settle, and
/// not all of them before.
pub open spec fn in_step(t: Transfer) -> bool {
    &&& 0 < t.n
    &&& t.moved <= t.n
    &&& t.left <= TIMEOUT
    &&& match t.phase {
        Phase::Start => t.moved == 0 && t.left > 0,
        Phase::Ready => t.moved < t.n && !t.write && t.left > 0,
        Phase::Check => t.moved < t.n && !t.write && t.left > 0,
        Phase::Data => t.moved < t.n && t.left > 0,
        Phase::Settle => t.moved == t.n && t.write && t.left > 0,
        Phase::Flush => t.moved == t.n && t.write && t.left > 0,
        Phase::Verify => t.moved == t.n && t.write && t.left > 0,
        Phase::Done(ok) => ok ==> t.moved == t.n,
    }
}

/// How far a transfer is from its end, at most.
pub open spec fn distance_to_end(t: Transfer) -> int {
    let stage = match t.phase {
        Phase::Start => 3 * t.n + 4,
        Phase::Ready => 3 * (t.n - t.moved) + 3,
        Phase::Check => 3 * (t.n - t.moved) + 2,
        Phase::Data => 3 * (t.n - t.moved) + 1,
        Phase::Settle => 3,
        Phase::Flush => 2,
        Phase::Verify => 1,
        Phase::Done(_) => 0,
    };
    stage * (TIMEOUT + 1) + t.left
}

/// A transfer begins in its right order, and one in its right order can take a
/// further status.
pub proof fn law_transfer_can_go_on(d: AtaDisk, lba: u64, n: u8, room: int, write: bool, t: Transfer)
    ensures
        begun(d, lba, n, room, write) matches Some(s) ==> in_step(s),
        in_step(t) && t.phase is Data ==> t.moved < 255,
{
}

/// Every transfer ends, however the drive behaves: each status brings it
/// closer to its end. It ends well only once all sectors went through.
pub proof fn law_transfer_ends(t: Transfer, st: u8)
    requires
        in_step(t),
        !(t.phase is Done),
    ensures
        in_step(stepped(t, st).0),
        0 <= distance_to_end(stepped(t, st).0) < distance_to_end(t),
        stepped(t, st).0.phase == Phase::Done(true) ==> stepped(t, st).0.moved == t.n,
{
}

/// The sectors go through one by one, in order.
pub proof fn law_sectors_in_order(t: Transfer, st: u8)
    requires
        in_step(t),
    ensures
        match stepped(t, st).1 {
            Action::Sector(k) => k == t.moved && stepped(t, st).0.moved == t.moved + 1,
            _ => stepped(t, st).0.moved == t.moved,
        },
{
}

// ── The data port ──

/// The bytes of a sector that came through the data port as 16-bit words.
pub open spec fn bytes_of(words: Seq<u16>) -> Seq<u8> {
    Seq::new(
        2 * words.len(),
        |i: int|
            if i % 2 == 0 {
                (words[i / 2] % 256) as u8
            } else {
                (words[i / 2] / 256) as u8
            },
    )
}

/// The 16-bit words of a sector.
pub open spec fn words_of(b: Seq<u8>) -> Seq<u16> {
    Seq::new(b.len() / 2, |i: int| (b[2 * i] + 256 * b[2 * i + 1]) as u16)
}

/// The bytes of a sector that came through the data port.
pub fn sector_bytes(words: &[u16]) -> (r: Vec<u8>)
    requires
        words.len() <= 256,
    ensures
        r@ == bytes_of(words@),
{
    let mut out: Vec<u8> = Vec::new();
    let mut i: usize = 0;
    while i < words.len()
        invariant
            i <= words@.len(),
            out@.len() == 2 * i,
            forall|k: int| 0 <= k < out@.len() ==> #[trigger] out@[k] == bytes_of(words@)[k],
        decreases words@.len() - i,
    {
        let w: u16 = words[i];
        out.push((w % 256) as u8);
        out.push((w / 256) as u8);
        i += 1;
    }
    assert(out@ =~= bytes_of(words@));
    out
}

/// The 16-bit words of a sector, for the data port.
pub fn sector_words(b: &[u8]) -> (r: Vec<u16>)
    ensures
        r@ == words_of(b@),
{
    let mut out: Vec<u16> = Vec::new();
    let total: usize = b.len();
    let n: usize = total / 2;
    let mut i: usize = 0;
    while i < n
        invariant
            i <= n,
            total == b@.len(),
            n == total / 2,
            out@.len() == i,
            forall|k: int| 0 <= k < i ==> #[trigger] out@[k] == words_of(b@)[k],
        decreases n - i,
    {
        out.push(b[2 * i] as u16 + 256 * (b[2 * i + 1] as u16));
        i += 1;
    }
    assert(out@ =~= words_of(b@));
    out
}

/// A sector that goes out through the data port and comes back is the same.
pub proof fn law_data_port_round_trip(b: Seq<u8>)
    requires
        b.len() % 2 == 0,
    ensures
        bytes_of(words_of(b)) == b,
{
    let r = bytes_of(words_of(b));
    assert forall|i: int| 0 <= i < b.len() implies r[i] == b[i] by {
        let w = words_of(b)[i / 2];
        assert(w == b[2 * (i / 2)] + 256 * b[2 * (i / 2) + 1]);
    }
    assert(r =~= b);
}

} // verus!
