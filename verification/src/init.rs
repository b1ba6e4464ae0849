//! The first process: what it starts and in what order, which images it trusts,
//! and what it does when a service ends.
use vstd::prelude::*;

use crate::bytes;
use crate::bytes::{copy_of, is_str};

verus! {

/// What the first process starts.
#[derive(Clone, Copy, PartialEq, Eq, Debug, Structural)]
pub enum Svc {
    Disk,
    Fs,
    Console,
    Uptime,
    Devfs,
    Kbd,
    Tty,
    Shell,
}

/// The name of a service's program.
pub open spec fn bin_name(s: Svc) -> Seq<u8> {
    match s {
        Svc::Disk => bytes::lit("userdisk"),
        Svc::Fs => bytes::lit("userfs"),
        Svc::Console => bytes::lit("userconsole"),
        Svc::Uptime => bytes::lit("useruptime"),
        Svc::Devfs => bytes::lit("userdevfs"),
        Svc::Kbd => bytes::lit("userkbd"),
        Svc::Tty => bytes::lit("usertty"),
        Svc::Shell => bytes::lit("usershell"),
    }
}

/// The file that a service is loaded from. The disk driver and the file system
/// server have none: they are part of the kernel's image, for nothing can be
/// loaded before they run.
pub open spec fn bin_path(s: Svc) -> Option<Seq<u8>> {
    match s {
        Svc::Disk => None,
        Svc::Fs => None,
        Svc::Console => Some(bytes::lit("/fat/bin/console.bin")),
        Svc::Uptime => Some(bytes::lit("/fat/bin/uptime.bin")),
        Svc::Devfs => Some(bytes::lit("/fat/bin/devfs.bin")),
        Svc::Kbd => Some(bytes::lit("/fat/bin/kbd.bin")),
        Svc::Tty => Some(bytes::lit("/fat/bin/tty.bin")),
        Svc::Shell => Some(bytes::lit("/fat/bin/shell.bin")),
    }
}

/// The ports that a service may use, as first and last.
pub open spec fn io_ports(s: Svc) -> Option<(u16, u16)> {
    match s {
        Svc::Console => Some((0x3D4u16, 0x3D5u16)),
        Svc::Kbd => Some((0x60u16, 0x64u16)),
        _ => None,
    }
}

/// How urgent a service is.
pub open spec fn priority(s: Svc) -> u8 {
    if s is Uptime {
        1
    } else {
        16
    }
}

/// What is known of a service before it is started.
pub struct SvcMeta {
    pub bin: Vec<u8>,
    pub path: Option<Vec<u8>>,
    pub prio: u8,
    pub io: Option<(u16, u16)>,
}

pub fn meta_of(s: Svc) -> (r: SvcMeta)
    ensures
        r.bin@ == bin_name(s),
        match r.path {
            Some(p) => bin_path(s) == Some(p@),
            None => bin_path(s) is None,
        },
        r.prio == priority(s),
        r.io == io_ports(s),
{
    match s {
        Svc::Disk => SvcMeta { bin: copy_of("userdisk".as_bytes()), path: None, prio: 16, io: None },
        Svc::Fs => SvcMeta { bin: copy_of("userfs".as_bytes()), path: None, prio: 16, io: None },
        Svc::Console => SvcMeta {
            bin: copy_of("userconsole".as_bytes()),
            path: Some(copy_of("/fat/bin/console.bin".as_bytes())),
            prio: 16,
            io: Some((0x3D4, 0x3D5)),
        },
        Svc::Uptime => SvcMeta {
            bin: copy_of("useruptime".as_bytes()),
            path: Some(copy_of("/fat/bin/uptime.bin".as_bytes())),
            prio: 1,
            io: None,
        },
        Svc::Devfs => SvcMeta {
            bin: copy_of("userdevfs".as_bytes()),
            path: Some(copy_of("/fat/bin/devfs.bin".as_bytes())),
            prio: 16,
            io: None,
        },
        Svc::Kbd => SvcMeta {
            bin: copy_of("userkbd".as_bytes()),
            path: Some(copy_of("/fat/bin/kbd.bin".as_bytes())),
            prio: 16,
            io: Some((0x60, 0x64)),
        },
        Svc::Tty => SvcMeta {
            bin: copy_of("usertty".as_bytes()),
            path: Some(copy_of("/fat/bin/tty.bin".as_bytes())),
            prio: 16,
            io: None,
        },
        Svc::Shell => SvcMeta {
            bin: copy_of("usershell".as_bytes()),
            path: Some(copy_of("/fat/bin/shell.bin".as_bytes())),
            prio: 16,
            io: None,
        },
    }
}

// ── The start ──

/// A step of the start: what is started, whether it is waited for, and whether
/// the system stops if it cannot be started.
#[derive(Clone, Copy, PartialEq, Eq, Debug, Structural)]
pub struct BootStep {
    pub svc: Svc,
    pub wait: bool,
    pub required: bool,
}

/// The order of the start: the disk driver and the file system server before
/// everything that is loaded from disk, the console before the keyboard, both
/// before the terminal, the shell last.
pub open spec fn boot_steps() -> Seq<BootStep> {
    seq![
        BootStep { svc: Svc::Disk, wait: true, required: true },
        BootStep { svc: Svc::Fs, wait: true, required: true },
        BootStep { svc: Svc::Console, wait: true, required: true },
        BootStep { svc: Svc::Uptime, wait: false, required: false },
        BootStep { svc: Svc::Devfs, wait: true, required: true },
        BootStep { svc: Svc::Kbd, wait: true, required: true },
        BootStep { svc: Svc::Tty, wait: true, required: true },
        BootStep { svc: Svc::Shell, wait: false, required: true },
    ]
}

pub fn boot_order() -> (r: Vec<BootStep>)
    ensures
        r@ == boot_steps(),
{
    let r: Vec<BootStep> = vec![
        BootStep { svc: Svc::Disk, wait: true, required: true },
        BootStep { svc: Svc::Fs, wait: true, required: true },
        BootStep { svc: Svc::Console, wait: true, required: true },
        BootStep { svc: Svc::Uptime, wait: false, required: false },
        BootStep { svc: Svc::Devfs, wait: true, required: true },
        BootStep { svc: Svc::Kbd, wait: true, required: true },
        BootStep { svc: Svc::Tty, wait: true, required: true },
        BootStep { svc: Svc::Shell, wait: false, required: true },
    ];
    assert(r@ =~= boot_steps());
    r
}

/// Whatever is loaded from disk is started after the disk driver and the file
/// system server, and only once both were waited for.
pub proof fn law_storage_starts_first(i: int)
    requires
        0 <= i < boot_steps().len(),
        bin_path(boot_steps()[i].svc) is Some,
    ensures
        i > 1,
        boot_steps()[0].svc is Disk && boot_steps()[0].wait,
        boot_steps()[1].svc is Fs && boot_steps()[1].wait,
{
}

// ── Images ──

/// The hashes of the images that are loaded from disk.
#[derive(Clone, Copy, PartialEq, Eq, Debug, Structural)]
pub struct Manifest {
    /// The disk driver's is not held against anything when it is started: it is
    /// not loaded from disk.
    pub disk: u64,
    pub console: u64,
    pub uptime: u64,
    pub devfs: u64,
    pub kbd: u64,
    pub tty: u64,
    pub shell: u64,
}

/// The hash that a program's image must have. Programs that are not loaded
/// from disk, and others, are not listed.
pub open spec fn listed_hash(m: Manifest, bin: Seq<u8>) -> Option<u64> {
    if bin == bytes::lit("userconsole") {
        Some(m.console)
    } else if bin == bytes::lit("useruptime") {
        Some(m.uptime)
    } else if bin == bytes::lit("userdevfs") {
        Some(m.devfs)
    } else if bin == bytes::lit("userkbd") {
        Some(m.kbd)
    } else if bin == bytes::lit("usertty") {
        Some(m.tty)
    } else if bin == bytes::lit("usershell") {
        Some(m.shell)
    } else {
        None
    }
}

pub fn expected_hash(m: &Manifest, bin: &[u8]) -> (r: Option<u64>)
    ensures
        r == listed_hash(*m, bin@),
{
    if is_str(bin, "userconsole") {
        Some(m.console)
    } else if is_str(bin, "useruptime") {
        Some(m.uptime)
    } else if is_str(bin, "userdevfs") {
        Some(m.devfs)
    } else if is_str(bin, "userkbd") {
        Some(m.kbd)
    } else if is_str(bin, "usertty") {
        Some(m.tty)
    } else if is_str(bin, "usershell") {
        Some(m.shell)
    } else {
        None
    }
}

/// The program of a process, by the hash of its image.
pub open spec fn driver_name(m: Manifest, hash: Option<u64>) -> Seq<u8> {
    if hash == Some(m.console) {
        bytes::lit("userconsole")
    } else if hash == Some(m.devfs) {
        bytes::lit("userdevfs")
    } else if hash == Some(m.disk) {
        bytes::lit("userdisk")
    } else if hash == Some(m.kbd) {
        bytes::lit("userkbd")
    } else if hash == Some(m.shell) {
        bytes::lit("usershell")
    } else if hash == Some(m.tty) {
        bytes::lit("usertty")
    } else if hash == Some(m.uptime) {
        bytes::lit("useruptime")
    } else {
        bytes::lit("?")
    }
}

pub fn driver_name_of(m: &Manifest, hash: Option<u64>) -> (r: Vec<u8>)
    ensures
        r@ == driver_name(*m, hash),
{
    match hash {
        Some(h) => {
            if h == m.console {
                copy_of("userconsole".as_bytes())
            } else if h == m.devfs {
                copy_of("userdevfs".as_bytes())
            } else if h == m.disk {
                copy_of("userdisk".as_bytes())
            } else if h == m.kbd {
                copy_of("userkbd".as_bytes())
            } else if h == m.shell {
                copy_of("usershell".as_bytes())
            } else if h == m.tty {
                copy_of("usertty".as_bytes())
            } else if h == m.uptime {
                copy_of("useruptime".as_bytes())
            } else {
                copy_of("?".as_bytes())
            }
        },
        None => copy_of("?".as_bytes()),
    }
}

/// Why an image is not started.
#[derive(Clone, Copy, PartialEq, Eq, Debug, Structural)]
pub enum ImageError {
    /// It could not be read, or is empty.
    Unreadable,
    /// It is not the image that is listed.
    HashMismatch,
}

/// Whether an image may be started: `len` is its length, if it could be read,
/// `hash` its hash. True if it was held against the list.
pub fn spawn_file(m: &Manifest, bin: &[u8], len: Option<usize>, hash: u64) -> (r: Result<
    bool,
    ImageError,
>)
    ensures
        r == (match len {
            None => Err::<bool, ImageError>(ImageError::Unreadable),
            Some(n) => if n == 0 {
                Err(ImageError::Unreadable)
            } else {
                match listed_hash(*m, bin@) {
                    None => Ok(false),
                    Some(h) => if h == hash {
                        Ok(true)
                    } else {
                        Err(ImageError::HashMismatch)
                    },
                }
            },
        }),
{
    match len {
        None => Err(ImageError::Unreadable),
        Some(n) => {
            if n == 0 {
                return Err(ImageError::Unreadable);
            }
            match expected_hash(m, bin) {
                None => Ok(false),
                Some(h) => {
                    if h == hash {
                        Ok(true)
                    } else {
                        Err(ImageError::HashMismatch)
                    }
                },
            }
        },
    }
}

// ── Supervision ──

/// How long restarts are counted, in ticks.
pub const WINDOW: i64 = 300;

/// How often a service is restarted in that time.
pub const RESTART_LIMIT: u32 = 3;

/// How long it is waited before a restart, in ticks.
pub const RESTART_PAUSE: i64 = 20;

/// How long a restarted service has to be ready, in ticks.
pub const READY_BOUND: i64 = 500;

/// How many ends are kept that were heard of during a restart.
pub const STRAY_CAP: usize = 8;

/// A channel or a process that is not known.
pub const UNKNOWN: i64 = -1;

/// A service that is started again when it ends.
#[derive(Clone, Copy, PartialEq, Eq, Debug, Structural)]
pub struct Supervised {
    pub svc: Svc,
    pub chan: i64,
    /// Below 0 if it is not known.
    pub pid: i64,
    pub restarts: u32,
    pub window_start: i64,
    /// It ended too often and is not started again.
    pub held: bool,
}

/// A restart is about to be tried: the service after that, and whether it is.
pub open spec fn restart_begun(e: Supervised, now: i64) -> (Supervised, bool) {
    if e.held {
        (e, false)
    } else {
        let fresh = now - e.window_start > WINDOW;
        let count = if fresh {
            1
        } else {
            e.restarts + 1
        };
        let f = Supervised {
            window_start: if fresh {
                now
            } else {
                e.window_start
            },
            restarts: count as u32,
            held: count > RESTART_LIMIT,
            ..e
        };
        (f, count <= RESTART_LIMIT)
    }
}

/// What a process's end means.
#[derive(Clone, Copy, PartialEq, Eq, Debug, Structural)]
pub enum Death {
    /// The service at this place of the list is to be started again.
    Restart(usize),
    /// It is a service that is held.
    Held,
    /// It is no service of the list.
    Unknown,
}

/// The first service with a pid, from `i` on.
pub open spec fn pid_at(list: Seq<Supervised>, pid: i64, i: int) -> int
    decreases list.len() - i,
{
    if i < 0 || i >= list.len() || list[i].pid == pid {
        i
    } else {
        pid_at(list, pid, i + 1)
    }
}

/// The first entry for a service, from `i` on.
pub open spec fn svc_at(list: Seq<Supervised>, svc: Svc, i: int) -> int
    decreases list.len() - i,
{
    if i < 0 || i >= list.len() || list[i].svc == svc {
        i
    } else {
        svc_at(list, svc, i + 1)
    }
}

/// A message that comes while a restarted service is waited for.
#[derive(Clone, Copy, PartialEq, Eq, Debug, Structural)]
pub enum InitMsg {
    /// The service on the channel is ready.
    Ready { chan: u64 },
    /// The process on the channel ended.
    Exit { chan: u64, pid: i64, code: i64 },
    Other,
}

/// A message that comes while a test runs, or later.
#[derive(Clone, Copy, PartialEq, Eq, Debug, Structural)]
pub enum LoopMsg {
    /// The test on the channel is over.
    TestDone { chan: u64 },
    /// A service is to be started anew.
    Bounce(Option<Svc>),
    /// A process ended.
    Exit { pid: i64 },
    Other,
}

/// What is done at a message.
#[derive(Clone, Copy, PartialEq, Eq, Debug, Structural)]
pub enum LoopStep {
    /// The test is over: that is answered.
    TestOver,
    /// The process is killed, if there is one, and its pid is answered.
    Kill(Option<i64>),
    /// A process ended.
    Ended(Death),
    Nothing,
}

/// What came of waiting for a restarted service.
#[derive(Clone, Copy, PartialEq, Eq, Debug, Structural)]
pub enum Waited {
    Ready,
    /// It ended, or took too long.
    Failed,
    /// It is still waited for.
    Going,
}

/// Whether a message tells of the end of another process.
pub open spec fn other_end(m: Option<InitMsg>, chan: i64) -> bool {
    m matches Some(InitMsg::Exit { chan: c, .. }) && c != chan
}

pub open spec fn ready_waited(m: Option<InitMsg>, chan: i64, t0: i64, now: i64) -> Waited {
    let late = if now - t0 > READY_BOUND {
        Waited::Failed
    } else {
        Waited::Going
    };
    match m {
        Some(InitMsg::Ready { chan: c }) => if c == chan {
            Waited::Ready
        } else {
            late
        },
        Some(InitMsg::Exit { chan: c, .. }) => if c == chan {
            Waited::Failed
        } else {
            late
        },
        _ => late,
    }
}

/// The services that are supervised, and the ends that were heard of while one
/// of them was restarted.
pub struct Supervisor {
    pub list: Vec<Supervised>,
    pub stray: Vec<(i64, i64)>,
}

pub open spec fn unsupervised(svc: Svc) -> Supervised {
    Supervised {
        svc,
        chan: UNKNOWN,
        pid: UNKNOWN,
        restarts: 0,
        window_start: 0,
        held: false,
    }
}

fn entry(svc: Svc) -> (r: Supervised)
    ensures
        r == unsupervised(svc),
{
    Supervised { svc, chan: UNKNOWN, pid: UNKNOWN, restarts: 0, window_start: 0, held: false }
}

/// The services that are started again: all but the shell and the clock.
pub open spec fn supervised_services() -> Seq<Supervised> {
    seq![
        unsupervised(Svc::Console),
        unsupervised(Svc::Disk),
        unsupervised(Svc::Fs),
        unsupervised(Svc::Devfs),
        unsupervised(Svc::Kbd),
        unsupervised(Svc::Tty),
    ]
}

impl Supervisor {
    /// The restarts of no service are counted beyond the limit.
    pub open spec fn wf(&self) -> bool {
        &&& self.stray@.len() <= STRAY_CAP
        &&& forall|i: int|
            0 <= i < self.list@.len() ==> (#[trigger] self.list@[i]).restarts <= RESTART_LIMIT + 1
        &&& forall|i: int|
            0 <= i < self.list@.len() && !(#[trigger] self.list@[i]).held
                ==> self.list@[i].restarts <= RESTART_LIMIT
    }

    pub fn new() -> (r: Supervisor)
        ensures
            r.wf(),
            r.list@ == supervised_services(),
            r.stray@ == Seq::<(i64, i64)>::empty(),
    {
        let list: Vec<Supervised> = vec![
            entry(Svc::Console),
            entry(Svc::Disk),
            entry(Svc::Fs),
            entry(Svc::Devfs),
            entry(Svc::Kbd),
            entry(Svc::Tty),
        ];
        assert(list@ =~= supervised_services());
        let r = Supervisor { list, stray: Vec::new() };
        assert(r.stray@ =~= Seq::empty());
        r
    }

    /// The process of a service is known now.
    pub fn set_pid(&mut self, i: usize, pid: i64)
        requires
            old(self).wf(),
            i < old(self).list@.len(),
        ensures
            final(self).wf(),
            final(self).stray == old(self).stray,
            final(self).list@ == old(self).list@.update(
                i as int,
                Supervised { pid, ..old(self).list@[i as int] },
            ),
    {
        let e: Supervised = self.list[i];
        self.list.set(i, Supervised { pid, ..e });
    }

    /// A service was started on a channel; it is not ready yet.
    pub fn set_chan(&mut self, i: usize, chan: i64)
        requires
            old(self).wf(),
            i < old(self).list@.len(),
        ensures
            final(self).wf(),
            final(self).stray == old(self).stray,
            final(self).list@ == old(self).list@.update(
                i as int,
                Supervised { chan, ..old(self).list@[i as int] },
            ),
    {
        let e: Supervised = self.list[i];
        self.list.set(i, Supervised { chan, ..e });
    }

    /// Whether a restart of a service is to be tried now. A service that needed
    /// too many within a while is held.
    pub fn restart_service(&mut self, i: usize, now: i64) -> (r: bool)
        requires
            old(self).wf(),
            i < old(self).list@.len(),
            i64::MIN <= now - old(self).list@[i as int].window_start <= i64::MAX,
        ensures
            final(self).wf(),
            final(self).stray == old(self).stray,
            ({
                let (e, go) = restart_begun(old(self).list@[i as int], now);
                &&& final(self).list@ == old(self).list@.update(i as int, e)
                &&& r == go
            }),
    {
        let mut e: Supervised = self.list[i];
        let ghost l0 = self.list@;
        if e.held {
            assert(self.list@ =~= l0.update(i as int, e));
            return false;
        }
        if now - e.window_start > WINDOW {
            e.window_start = now;
            e.restarts = 0;
        }
        e.restarts = e.restarts + 1;
        e.held = e.restarts > RESTART_LIMIT;
        self.list.set(i, e);
        !e.held
    }

    /// Takes in that a process ended.
    pub fn handle_child_death(&self, pid: i64) -> (r: Death)
        ensures
            ({
                let i = pid_at(self.list@, pid, 0);
                if i < self.list@.len() {
                    if self.list@[i].held {
                        r is Held
                    } else {
                        r == Death::Restart(i as usize)
                    }
                } else {
                    r is Unknown
                }
            }),
            r matches Death::Restart(k) ==> k < self.list@.len(),
    {
        let mut i: usize = 0;
        while i < self.list.len() && self.list[i].pid != pid
            invariant
                i <= self.list@.len(),
                pid_at(self.list@, pid, i as int) == pid_at(self.list@, pid, 0),
            decreases self.list.len() - i,
        {
            i = i + 1;
        }
        if i < self.list.len() {
            if self.list[i].held {
                Death::Held
            } else {
                Death::Restart(i)
            }
        } else {
            Death::Unknown
        }
    }

    /// The process to kill so that a service starts anew, if it is supervised.
    pub fn handle_bounce(&self, svc: Svc) -> (r: Option<i64>)
        ensures
            ({
                let i = svc_at(self.list@, svc, 0);
                r == (if i < self.list@.len() {
                    Some(self.list@[i].pid)
                } else {
                    None
                })
            }),
    {
        let mut i: usize = 0;
        while i < self.list.len() && self.list[i].svc != svc
            invariant
                i <= self.list@.len(),
                svc_at(self.list@, svc, i as int) == svc_at(self.list@, svc, 0),
            decreases self.list.len() - i,
        {
            i = i + 1;
        }
        if i < self.list.len() {
            Some(self.list[i].pid)
        } else {
            None
        }
    }

    /// What is done at a message. `test` is the channel of the test that runs,
    /// if one does.
    pub fn run_test(&self, m: LoopMsg, test: Option<u64>) -> (r: LoopStep)
        ensures
            match m {
                LoopMsg::TestDone { chan } => r == (if test == Some(chan) {
                    LoopStep::TestOver
                } else {
                    LoopStep::Nothing
                }),
                LoopMsg::Bounce(s) => r == LoopStep::Kill(
                    match s {
                        Some(svc) => if svc_at(self.list@, svc, 0) < self.list@.len() {
                            Some(self.list@[svc_at(self.list@, svc, 0)].pid)
                        } else {
                            None
                        },
                        None => None,
                    },
                ),
                LoopMsg::Exit { pid } => {
                    let i = pid_at(self.list@, pid, 0);
                    r == LoopStep::Ended(
                        if i >= self.list@.len() {
                            Death::Unknown
                        } else if self.list@[i].held {
                            Death::Held
                        } else {
                            Death::Restart(i as usize)
                        },
                    )
                },
                LoopMsg::Other => r is Nothing,
            },
    {
        match m {
            LoopMsg::TestDone { chan } => match test {
                Some(t) => {
                    if t == chan {
                        LoopStep::TestOver
                    } else {
                        LoopStep::Nothing
                    }
                },
                None => LoopStep::Nothing,
            },
            LoopMsg::Bounce(s) => match s {
                Some(svc) => LoopStep::Kill(self.handle_bounce(svc)),
                None => LoopStep::Kill(None),
            },
            LoopMsg::Exit { pid } => LoopStep::Ended(self.handle_child_death(pid)),
            LoopMsg::Other => LoopStep::Nothing,
        }
    }

    /// Keeps the news that a process ended for later. False if there is no room.
    pub fn stash_death(&mut self, pid: i64, code: i64) -> (r: bool)
        requires
            old(self).wf(),
        ensures
            final(self).wf(),
            final(self).list == old(self).list,
            r == (old(self).stray@.len() < STRAY_CAP),
            final(self).stray@ == (if r {
                old(self).stray@.push((pid, code))
            } else {
                old(self).stray@
            }),
    {
        if self.stray.len() < STRAY_CAP {
            self.stray.push((pid, code));
            true
        } else {
            false
        }
    }

    /// Gives back kept news, the last first.
    pub fn next_stray(&mut self) -> (r: Option<(i64, i64)>)
        requires
            old(self).wf(),
        ensures
            final(self).wf(),
            final(self).list == old(self).list,
            if old(self).stray@.len() == 0 {
                r is None && final(self).stray@ == old(self).stray@
            } else {
                r == Some(old(self).stray@.last()) && final(self).stray@
                    == old(self).stray@.drop_last()
            },
    {
        self.stray.pop()
    }

    /// Goes on waiting for the service that was restarted on a channel. That
    /// another process ended is kept for later, so that its restart is not
    /// missed.
    pub fn wait_ready(&mut self, m: Option<InitMsg>, chan: i64, t0: i64, now: i64) -> (r: Waited)
        requires
            old(self).wf(),
            chan >= 0,
            i64::MIN <= now - t0 <= i64::MAX,
        ensures
            final(self).wf(),
            final(self).list == old(self).list,
            r == ready_waited(m, chan, t0, now),
            final(self).stray@ == (if other_end(m, chan) && old(self).stray@.len() < STRAY_CAP {
                old(self).stray@.push((m->0->pid, m->0->code))
            } else {
                old(self).stray@
            }),
    {
        match m {
            Some(InitMsg::Ready { chan: c }) => {
                if c == chan as u64 {
                    return Waited::Ready;
                }
            },
            Some(InitMsg::Exit { chan: c, pid, code }) => {
                if c == chan as u64 {
                    return Waited::Failed;
                }
                let _kept: bool = self.stash_death(pid, code);
            },
            _ => {},
        }
        if now - t0 > READY_BOUND {
            Waited::Failed
        } else {
            Waited::Going
        }
    }
}

/// No service is restarted over and over: each restart is counted within a
/// while of its own, and in one while there are three at most.
pub proof fn law_no_restart_storm(e: Supervised, now: i64)
    requires
        e.restarts <= RESTART_LIMIT,
    ensures
        ({
            let (f, go) = restart_begun(e, now);
            go ==> {
                &&& 1 <= f.restarts <= RESTART_LIMIT
                &&& now - f.window_start <= WINDOW
                &&& f.window_start == e.window_start || f.window_start == now
                &&& now - e.window_start <= WINDOW ==> f.restarts == e.restarts + 1
            }
        }),
{
}

/// A service that is held stays held.
pub proof fn law_held_stays_held(e: Supervised, now: i64)
    requires
        e.held,
    ensures
        restart_begun(e, now) == (e, false),
{
}

/// An end that is kept is given back.
pub proof fn law_kept_end_comes_back(stray: Seq<(i64, i64)>, pid: i64, code: i64)
    ensures
        stray.push((pid, code)).last() == (pid, code),
        stray.push((pid, code)).drop_last() == stray,
{
    assert(stray.push((pid, code)).drop_last() =~= stray);
}

/// Every image that is loaded from disk is listed.
pub proof fn law_disk_images_are_listed(m: Manifest, s: Svc)
    requires
        bin_path(s) is Some,
    ensures
        listed_hash(m, bin_name(s)) is Some,
{
}

/// What a service needs is there before it: the terminal comes behind the
/// console, the devices and the keyboard, all of which are waited for, and
/// nothing comes behind the shell. No service is started twice, and only the
/// clock may fail.
pub proof fn law_services_start_in_order(i: int, j: int)
    requires
        0 <= i < boot_steps().len(),
        0 <= j < boot_steps().len(),
    ensures
        ({
            let a = boot_steps()[i];
            let b = boot_steps()[j];
            &&& i != j ==> a.svc != b.svc
            &&& b.svc is Tty && (a.svc is Console || a.svc is Devfs || a.svc is Kbd) ==> i < j
                && a.wait
            &&& b.svc is Shell ==> i <= j
            &&& b.svc is Kbd && a.svc is Console ==> i < j
            &&& a.required == !(a.svc is Uptime)
            &&& a.wait == !(a.svc is Uptime || a.svc is Shell)
        }),
{
}

/// A restart is that of the same service on the same channel. Behind a while
/// without one it is the first again; the fourth within a while is not tried,
/// and the service is held.
pub proof fn law_fourth_restart_is_held(e: Supervised, now: i64)
    requires
        !e.held,
        e.restarts <= RESTART_LIMIT,
    ensures
        ({
            let (f, go) = restart_begun(e, now);
            &&& f.svc == e.svc && f.chan == e.chan && f.pid == e.pid
            &&& f.held == !go
            &&& now - e.window_start > 300 ==> go && f.restarts == 1 && f.window_start == now
            &&& now - e.window_start <= 300 ==> go == (e.restarts < 3) && f.window_start
                == e.window_start
        }),
{
}

/// The end of a process is that of the first service with its pid.
pub proof fn law_ended_process_is_found(list: Seq<Supervised>, pid: i64, i: int, k: int)
    requires
        0 <= i <= list.len(),
    ensures
        i <= pid_at(list, pid, i) <= list.len(),
        pid_at(list, pid, i) < list.len() ==> list[pid_at(list, pid, i)].pid == pid,
        i <= k < pid_at(list, pid, i) ==> list[k].pid != pid,
    decreases list.len() - i,
{
    if i < list.len() && list[i].pid != pid {
        law_ended_process_is_found(list, pid, i + 1, k);
    }
}

/// A service is found by its name, if it is supervised: all are but the clock
/// and the shell.
pub proof fn law_service_is_found(list: Seq<Supervised>, svc: Svc, i: int, k: int)
    requires
        0 <= i <= list.len(),
    ensures
        i <= svc_at(list, svc, i) <= list.len(),
        svc_at(list, svc, i) < list.len() ==> list[svc_at(list, svc, i)].svc == svc,
        i <= k < svc_at(list, svc, i) ==> list[k].svc != svc,
        (svc_at(supervised_services(), svc, 0) < supervised_services().len()) == !(svc is Uptime
            || svc is Shell),
    decreases list.len() - i,
{
    if i < list.len() && list[i].svc != svc {
        law_service_is_found(list, svc, i + 1, k);
    }
    reveal_with_fuel(svc_at, 8);
}

/// A restarted service is ready when it says so itself, and only then; it has
/// failed when it ends, or when it is not ready in time.
pub proof fn law_ready_is_said_by_the_service(m: Option<InitMsg>, chan: i64, t0: i64, now: i64)
    ensures
        (ready_waited(m, chan, t0, now) is Ready) == (m matches Some(InitMsg::Ready { chan: c })
            && c == chan),
        (m matches Some(InitMsg::Exit { chan: c, .. }) && c == chan) ==> ready_waited(
            m,
            chan,
            t0,
            now,
        ) is Failed,
        now - t0 <= 500 && !(m matches Some(InitMsg::Exit { chan: c, .. }) && c == chan) ==> !(
        ready_waited(m, chan, t0, now) is Failed),
        now - t0 > 500 ==> !(ready_waited(m, chan, t0, now) is Going),
{
}

/// The hash that is listed for an image.
pub open spec fn own_hash(m: Manifest, s: Svc) -> Option<u64> {
    match s {
        Svc::Console => Some(m.console),
        Svc::Uptime => Some(m.uptime),
        Svc::Devfs => Some(m.devfs),
        Svc::Kbd => Some(m.kbd),
        Svc::Tty => Some(m.tty),
        Svc::Shell => Some(m.shell),
        _ => None,
    }
}

/// The image of a service is held against the hash that is listed for that
/// service, and a process that runs it goes by the service's name, where no two
/// images have the same hash.
pub proof fn law_image_has_its_own_hash(m: Manifest, s: Svc)
    ensures
        listed_hash(m, bin_name(s)) == own_hash(m, s),
        (forall|a: Svc, b: Svc| a != b && own_hash(m, a) is Some ==> #[trigger] own_hash(m, a)
            != #[trigger] own_hash(m, b)) && (forall|a: Svc| #[trigger] own_hash(m, a) != Some(
            m.disk,
        )) && own_hash(m, s) is Some ==> driver_name(m, own_hash(m, s)) == bin_name(s),
{
    lemma_program_names();
    assert(bin_name(Svc::Console) == bytes::lit("userconsole"));
    assert(bin_name(Svc::Uptime) == bytes::lit("useruptime"));
    assert(bin_name(Svc::Devfs) == bytes::lit("userdevfs"));
    assert(bin_name(Svc::Kbd) == bytes::lit("userkbd"));
    assert(bin_name(Svc::Tty) == bytes::lit("usertty"));
    assert(bin_name(Svc::Shell) == bytes::lit("usershell"));
    if (forall|a: Svc, b: Svc| a != b && own_hash(m, a) is Some ==> #[trigger] own_hash(m, a)
        != #[trigger] own_hash(m, b)) && (forall|a: Svc| #[trigger] own_hash(m, a) != Some(m.disk)) {
        assert(own_hash(m, Svc::Console) == Some(m.console));
        assert(own_hash(m, Svc::Uptime) == Some(m.uptime));
        assert(own_hash(m, Svc::Devfs) == Some(m.devfs));
        assert(own_hash(m, Svc::Kbd) == Some(m.kbd));
        assert(own_hash(m, Svc::Tty) == Some(m.tty));
        assert(own_hash(m, Svc::Shell) == Some(m.shell));
    }
}

/// The names of programs differ from one another.
proof fn lemma_program_names()
    ensures
        forall|a: Svc, b: Svc| a != b ==> #[trigger] bin_name(a) != #[trigger] bin_name(b),
{
    reveal_strlit("userdisk");
    reveal_strlit("userfs");
    reveal_strlit("userconsole");
    reveal_strlit("useruptime");
    reveal_strlit("userdevfs");
    reveal_strlit("userkbd");
    reveal_strlit("usertty");
    reveal_strlit("usershell");
    vstd::utf8::is_ascii_chars_encode_utf8("userdisk"@);
    vstd::utf8::is_ascii_chars_encode_utf8("userfs"@);
    vstd::utf8::is_ascii_chars_encode_utf8("userconsole"@);
    vstd::utf8::is_ascii_chars_encode_utf8("useruptime"@);
    vstd::utf8::is_ascii_chars_encode_utf8("userdevfs"@);
    vstd::utf8::is_ascii_chars_encode_utf8("userkbd"@);
    vstd::utf8::is_ascii_chars_encode_utf8("usertty"@);
    vstd::utf8::is_ascii_chars_encode_utf8("usershell"@);
    assert forall|a: Svc, b: Svc| a != b implies #[trigger] bin_name(a) != #[trigger] bin_name(
        b,
    ) by {
        let x = bin_name(a);
        let y = bin_name(b);
        assert(x.len() != y.len() || x[4] != y[4] || x[5] != y[5]);
    }
}

/// Only the console and the keyboard use ports, and the keyboard may use both
/// ports of its controller.
pub proof fn law_ports_are_for_their_devices(s: Svc)
    ensures
        io_ports(s) is Some <==> s is Console || s is Kbd,
        io_ports(s) matches Some((a, b)) ==> a <= b,
        s is Kbd ==> (io_ports(s) matches Some((a, b)) && a <= crate::kbd::PS2_DATA <= b && a
            <= crate::kbd::PS2_STATUS <= b),
{
}

} // verus!
