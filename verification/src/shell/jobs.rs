//! Jobs: the programs that the shell started, what is known of them, and how
//! the shell waits for them.
//!
//! That a program ended is always learned from the message about its end,
//! never assumed.
use vstd::prelude::*;
use vstd::slice::slice_subrange;

use crate::bytes;
use crate::bytes::{append_bytes, parse_digits, push_bits, push_str, push_u64};

verus! {

/// What a job is doing.
#[derive(Clone, Copy, PartialEq, Eq, Debug, Structural)]
pub enum JobState {
    Running,
    Stopped,
    /// It ended, with this code.
    Done(i64),
}

/// A program that the shell started.
pub struct Job {
    pub pid: i64,
    /// The channel on which its end is told.
    pub chan: u64,
    pub cmd: Vec<u8>,
    pub bg: bool,
    pub state: JobState,
    /// The grants for its redirections. They are cancelled when it is known to
    /// have ended, not before.
    pub grants: Vec<u64>,
}

/// A job as a value.
#[verifier::ext_equal]
pub struct JobView {
    pub pid: i64,
    pub chan: u64,
    pub cmd: Seq<u8>,
    pub bg: bool,
    pub state: JobState,
    pub grants: Seq<u64>,
}

impl View for Job {
    type V = JobView;

    open spec fn view(&self) -> JobView {
        JobView {
            pid: self.pid,
            chan: self.chan,
            cmd: self.cmd@,
            bg: self.bg,
            state: self.state,
            grants: self.grants@,
        }
    }
}

/// A message that came to the shell: that someone on a channel ended, or
/// something that only wants a reply.
#[derive(Clone, Copy, PartialEq, Eq, Debug, Structural)]
pub struct Msg {
    pub exit: bool,
    pub chan: u64,
    pub code: i64,
}

// ── The table ──

/// A job after the news that someone ended.
pub open spec fn job_after_exit(j: JobView, chan: u64, code: i64) -> JobView {
    if ended_by(j, chan) {
        JobView { state: JobState::Done(code), ..j }
    } else {
        j
    }
}

/// Whether the news is about this job, and new.
pub open spec fn ended_by(j: JobView, chan: u64) -> bool {
    j.chan == chan && !(j.state is Done)
}

pub open spec fn jobs_after_exit(jobs: Seq<JobView>, chan: u64, code: i64) -> Seq<JobView> {
    Seq::new(jobs.len(), |i: int| job_after_exit(jobs[i], chan, code))
}

/// The grants of the jobs that ended.
pub open spec fn freed(jobs: Seq<JobView>, chan: u64) -> Seq<u64>
    decreases jobs.len(),
{
    if jobs.len() == 0 {
        Seq::empty()
    } else {
        freed(jobs.drop_last(), chan) + if ended_by(jobs.last(), chan) {
            jobs.last().grants
        } else {
            Seq::empty()
        }
    }
}

pub struct Jobs {
    pub list: Vec<Job>,
}

/// What a message means to someone who waits for a job.
#[derive(Clone, Copy, PartialEq, Eq, Debug, Structural)]
pub enum Heard {
    /// The job ended, with this code.
    Ended(i64),
    /// Another job or a server ended.
    Noted,
    /// The message wants a reply.
    Reply,
}

pub open spec fn heard(m: Msg, waited: Option<u64>) -> Heard {
    if !m.exit {
        Heard::Reply
    } else if waited == Some(m.chan) {
        Heard::Ended(m.code)
    } else {
        Heard::Noted
    }
}

pub(crate) fn append_all(v: &mut Vec<u64>, more: &Vec<u64>)
    ensures
        final(v)@ == old(v)@ + more@,
{
    let mut i: usize = 0;
    assert(more@.take(0) =~= Seq::<u64>::empty());
    assert(v@ =~= old(v)@ + more@.take(0));
    while i < more.len()
        invariant
            i <= more@.len(),
            v@ == old(v)@ + more@.take(i as int),
        decreases more.len() - i,
    {
        v.push(more[i]);
        i = i + 1;
        assert(v@ =~= old(v)@ + more@.take(i as int));
    }
    assert(more@.take(more@.len() as int) =~= more@);
}

fn copy_grants(v: &Vec<u64>) -> (r: Vec<u64>)
    ensures
        r@ == v@,
{
    let mut r: Vec<u64> = Vec::new();
    append_all(&mut r, v);
    assert(r@ =~= v@);
    r
}

impl Jobs {
    pub open spec fn view(&self) -> Seq<JobView> {
        Seq::new(self.list@.len(), |i: int| self.list@[i]@)
    }

    pub fn new() -> (r: Jobs)
        ensures
            r@ == Seq::<JobView>::empty(),
    {
        let r = Jobs { list: Vec::new() };
        assert(r@ =~= Seq::empty());
        r
    }

    /// Takes in that someone ended. Gives back the grants to cancel.
    pub fn note_exit(&mut self, chan: u64, code: i64) -> (r: Vec<u64>)
        ensures
            final(self)@ == jobs_after_exit(old(self)@, chan, code),
            r@ == freed(old(self)@, chan),
    {
        let ghost j0 = self@;
        let mut out: Vec<u64> = Vec::new();
        let mut i: usize = 0;
        assert(j0.take(0) =~= Seq::empty());
        while i < self.list.len()
            invariant
                i <= self.list@.len(),
                j0 == old(self)@,
                self.list@.len() == j0.len(),
                forall|k: int|
                    0 <= k < self.list@.len() ==> (#[trigger] self.list@[k])@ == (if k < i {
                        job_after_exit(j0[k], chan, code)
                    } else {
                        j0[k]
                    }),
                out@ == freed(j0.take(i as int), chan),
            decreases self.list.len() - i,
        {
            assert(j0.take(i + 1).drop_last() =~= j0.take(i as int));
            assert(j0.take(i + 1).last() == j0[i as int]);
            assert(self.list@[i as int]@ == j0[i as int]);
            let done: bool = match self.list[i].state {
                JobState::Done(_) => true,
                _ => false,
            };
            if self.list[i].chan == chan && !done {
                append_all(&mut out, &self.list[i].grants);
                self.list[i].state = JobState::Done(code);
                assert(self.list@[i as int]@ =~= job_after_exit(j0[i as int], chan, code));
            }
            assert(out@ =~= freed(j0.take(i + 1), chan));
            i = i + 1;
        }
        assert(j0.take(j0.len() as int) =~= j0);
        assert(self@ =~= jobs_after_exit(j0, chan, code));
        out
    }

    /// Takes in a message while the job on the channel `waited` is waited for.
    /// The grants to cancel are put into `cancel`.
    pub fn hear(&mut self, m: Msg, waited: Option<u64>, cancel: &mut Vec<u64>) -> (r: Heard)
        ensures
            r == heard(m, waited),
            final(self)@ == (if r is Noted {
                jobs_after_exit(old(self)@, m.chan, m.code)
            } else {
                old(self)@
            }),
            final(cancel)@ == old(cancel)@ + if r is Noted {
                freed(old(self)@, m.chan)
            } else {
                Seq::empty()
            },
    {
        let ghost c0 = cancel@;
        if !m.exit {
            assert(cancel@ =~= c0 + Seq::empty());
            return Heard::Reply;
        }
        if let Some(c) = waited {
            if c == m.chan {
                assert(cancel@ =~= c0 + Seq::empty());
                return Heard::Ended(m.code);
            }
        }
        let g: Vec<u64> = self.note_exit(m.chan, m.code);
        append_all(cancel, &g);
        Heard::Noted
    }

    fn with_pid(&self, pid: i64) -> (r: usize)
        ensures
            r == pid_index(self@, pid, 0),
            r <= self@.len(),
            r < self@.len() ==> self@[r as int].pid == pid,
    {
        let mut i: usize = 0;
        while i < self.list.len() && self.list[i].pid != pid
            invariant
                i <= self.list@.len(),
                pid_index(self@, pid, i as int) == pid_index(self@, pid, 0),
            decreases self.list.len() - i,
        {
            assert(self@[i as int] == self.list@[i as int]@);
            i = i + 1;
        }
        if i < self.list.len() {
            assert(self@[i as int] == self.list@[i as int]@);
        }
        i
    }

    fn set_state(&mut self, idx: usize, state: JobState)
        requires
            idx < old(self)@.len(),
        ensures
            final(self)@ == old(self)@.update(
                idx as int,
                JobView { state, ..old(self)@[idx as int] },
            ),
    {
        let ghost j0 = self@;
        assert(j0[idx as int] == self.list@[idx as int]@);
        self.list[idx].state = state;
        assert(self.list@[idx as int]@ =~= JobView { state, ..j0[idx as int] });
        assert(self@ =~= j0.update(idx as int, JobView { state, ..j0[idx as int] }));
    }

    fn set_bg(&mut self, idx: usize, bg: bool)
        requires
            idx < old(self)@.len(),
        ensures
            final(self)@ == old(self)@.update(idx as int, JobView { bg, ..old(self)@[idx as int] }),
    {
        let ghost j0 = self@;
        assert(j0[idx as int] == self.list@[idx as int]@);
        self.list[idx].bg = bg;
        assert(self.list@[idx as int]@ =~= JobView { bg, ..j0[idx as int] });
        assert(self@ =~= j0.update(idx as int, JobView { bg, ..j0[idx as int] }));
    }

    fn remove(&mut self, idx: usize) -> (r: Job)
        requires
            idx < old(self)@.len(),
        ensures
            r@ == old(self)@[idx as int],
            final(self)@ == old(self)@.remove(idx as int),
    {
        let ghost j0 = self@;
        let r: Job = self.list.remove(idx);
        assert(self@ =~= j0.remove(idx as int));
        r
    }

    /// Takes a new job in.
    pub fn start(&mut self, job: Job)
        ensures
            final(self)@ == old(self)@.push(job@),
    {
        let ghost j0 = self@;
        let ghost v = job@;
        self.list.push(job);
        assert(self@ =~= j0.push(v));
    }
}

/// Where the first job with a pid stands, from `i` on; the number of jobs if
/// there is none.
pub open spec fn pid_index(jobs: Seq<JobView>, pid: i64, i: int) -> int
    decreases jobs.len() - i,
{
    if i < 0 || i >= jobs.len() || jobs[i].pid == pid {
        i
    } else {
        pid_index(jobs, pid, i + 1)
    }
}

// ── Texts ──

/// The line that `jobs` shows of a job.
pub open spec fn job_line(idx: int, j: JobView) -> Seq<u8> {
    bytes::lit("[") + bytes::decimal(idx as nat) + bytes::lit("] pid ") + bytes::decimal(
        bytes::unsigned_of(j.pid),
    ) + bytes::lit(" ") + state_text(j.state) + bytes::lit(" ") + j.cmd + bytes::lit("\n")
}

pub open spec fn state_text(s: JobState) -> Seq<u8> {
    match s {
        JobState::Done(c) => bytes::lit("done ") + bytes::decimal(bytes::unsigned_of(c)),
        JobState::Stopped => bytes::lit("stopped"),
        JobState::Running => bytes::lit("run"),
    }
}

pub fn print_job(idx: usize, j: &Job) -> (r: Vec<u8>)
    ensures
        r@ == job_line(idx as int, j@),
{
    let mut v: Vec<u8> = Vec::new();
    push_str(&mut v, "[");
    push_u64(&mut v, idx as u64);
    push_str(&mut v, "] pid ");
    push_bits(&mut v, j.pid);
    push_str(&mut v, " ");
    match j.state {
        JobState::Done(c) => {
            push_str(&mut v, "done ");
            push_bits(&mut v, c);
        },
        JobState::Stopped => push_str(&mut v, "stopped"),
        JobState::Running => push_str(&mut v, "run"),
    }
    push_str(&mut v, " ");
    append_bytes(&mut v, &j.cmd);
    push_str(&mut v, "\n");
    assert(v@ =~= job_line(idx as int, j@));
    v
}

pub open spec fn job_lines(jobs: Seq<JobView>) -> Seq<u8>
    decreases jobs.len(),
{
    if jobs.len() == 0 {
        Seq::empty()
    } else {
        job_lines(jobs.drop_last()) + job_line(jobs.len() - 1, jobs.last())
    }
}

/// What `jobs` prints.
pub fn cmd_jobs(jobs: &Jobs) -> (r: Vec<u8>)
    ensures
        r@ == (if jobs@.len() == 0 {
            bytes::lit("no jobs\n")
        } else {
            job_lines(jobs@)
        }),
{
    let mut v: Vec<u8> = Vec::new();
    if jobs.list.len() == 0 {
        push_str(&mut v, "no jobs\n");
        assert(v@ =~= bytes::lit("no jobs\n"));
        return v;
    }
    let mut i: usize = 0;
    assert(jobs@.take(0) =~= Seq::empty());
    while i < jobs.list.len()
        invariant
            i <= jobs.list@.len(),
            v@ == job_lines(jobs@.take(i as int)),
        decreases jobs.list.len() - i,
    {
        let l: Vec<u8> = print_job(i, &jobs.list[i]);
        append_bytes(&mut v, &l);
        assert(jobs@.take(i + 1).drop_last() =~= jobs@.take(i as int));
        assert(jobs@.take(i + 1).last() == jobs.list@[i as int]@);
        i = i + 1;
    }
    assert(jobs@.take(jobs@.len() as int) =~= jobs@);
    v
}

/// What is said of a job that was waited for.
pub open spec fn waited_text(j: JobView) -> Seq<u8> {
    bytes::lit("pid ") + bytes::decimal(bytes::unsigned_of(j.pid)) + match j.state {
        JobState::Done(c) => bytes::lit(": exit ") + bytes::decimal(bytes::unsigned_of(c)),
        JobState::Stopped => bytes::lit(": stopped"),
        JobState::Running => bytes::lit(": wait failed"),
    } + bytes::lit("\n")
}

pub fn report_waited(j: &Job) -> (r: Vec<u8>)
    ensures
        r@ == waited_text(j@),
{
    let mut v: Vec<u8> = Vec::new();
    push_str(&mut v, "pid ");
    push_bits(&mut v, j.pid);
    match j.state {
        JobState::Done(c) => {
            push_str(&mut v, ": exit ");
            push_bits(&mut v, c);
        },
        JobState::Stopped => push_str(&mut v, ": stopped"),
        JobState::Running => push_str(&mut v, ": wait failed"),
    }
    push_str(&mut v, "\n");
    assert(v@ =~= waited_text(j@));
    v
}

/// What is said of a program that ended with a code; nothing of success.
pub open spec fn exit_text(code: i64) -> Seq<u8> {
    if code == 0 {
        Seq::empty()
    } else {
        bytes::lit("[exit ") + bytes::decimal(bytes::unsigned_of(code)) + bytes::lit("]\n")
    }
}

pub fn report_exit(code: i64) -> (r: Vec<u8>)
    ensures
        r@ == exit_text(code),
{
    let mut v: Vec<u8> = Vec::new();
    if code != 0 {
        push_str(&mut v, "[exit ");
        push_bits(&mut v, code);
        push_str(&mut v, "]\n");
    }
    assert(v@ =~= exit_text(code));
    v
}

pub open spec fn stopped_text(idx: int, cmd: Seq<u8>) -> Seq<u8> {
    bytes::lit("[") + bytes::decimal(idx as nat) + bytes::lit("]+ Stopped ") + cmd + bytes::lit(
        "\n",
    )
}

pub fn print_stopped(idx: usize, cmd: &[u8]) -> (r: Vec<u8>)
    ensures
        r@ == stopped_text(idx as int, cmd@),
{
    let mut v: Vec<u8> = Vec::new();
    push_str(&mut v, "[");
    push_u64(&mut v, idx as u64);
    push_str(&mut v, "]+ Stopped ");
    append_bytes(&mut v, cmd);
    push_str(&mut v, "\n");
    assert(v@ =~= stopped_text(idx as int, cmd@));
    v
}

pub open spec fn bg_text(pid: int) -> Seq<u8> {
    bytes::lit("[bg pid ") + bytes::decimal(pid as nat) + bytes::lit("]\n")
}

/// What is said of a program started in the background.
pub fn print_bg(pid: u64) -> (r: Vec<u8>)
    ensures
        r@ == bg_text(pid as int),
{
    let mut v: Vec<u8> = Vec::new();
    push_str(&mut v, "[bg pid ");
    push_u64(&mut v, pid);
    push_str(&mut v, "]\n");
    assert(v@ =~= bg_text(pid as int));
    v
}

// ── Which job is meant ──

/// The number that a text denotes: digits, with a sign in front or not. The
/// digits have to fit.
pub open spec fn parsed_signed(s: Seq<u8>) -> Option<int> {
    let signed = s.len() > 0 && (s[0] == 45 || s[0] == 43);
    let d = if signed {
        s.skip(1)
    } else {
        s
    };
    if d.len() > 0 && bytes::all_digits(d) && bytes::decimal_value(d) <= i64::MAX {
        Some(
            if s[0] == 45 {
                -(bytes::decimal_value(d) as int)
            } else {
                bytes::decimal_value(d) as int
            },
        )
    } else {
        None
    }
}

pub fn parse_i64(s: &[u8]) -> (r: Option<i64>)
    ensures
        r is Some <==> parsed_signed(s@) is Some,
        r is Some ==> r->0 == parsed_signed(s@)->0,
{
    if s.len() == 0 {
        return None;
    }
    let signed: bool = s[0] == 45 || s[0] == 43;
    let neg: bool = s[0] == 45;
    let v: Option<u64> = if signed {
        let d: &[u8] = slice_subrange(s, 1, s.len());
        assert(d@ =~= s@.skip(1));
        parse_digits(d, 0x7FFF_FFFF_FFFF_FFFF)
    } else {
        parse_digits(s, 0x7FFF_FFFF_FFFF_FFFF)
    };
    match v {
        Some(n) => {
            if neg {
                Some(-(n as i64))
            } else {
                Some(n as i64)
            }
        },
        None => None,
    }
}

/// Why no job is meant.
#[derive(Clone, Copy, PartialEq, Eq, Debug, Structural)]
pub enum JobError {
    NoJobs,
    NoSuchJob,
    BadSpec,
}

pub open spec fn job_error_text(what: Seq<u8>, e: JobError) -> Seq<u8> {
    what + match e {
        JobError::NoJobs => bytes::lit(": no jobs\n"),
        JobError::NoSuchJob => bytes::lit(": no such job\n"),
        JobError::BadSpec => bytes::lit(": bad job spec\n"),
    }
}

pub fn report_job_error(what: &[u8], e: JobError) -> (r: Vec<u8>)
    ensures
        r@ == job_error_text(what@, e),
{
    let mut v: Vec<u8> = bytes::copy_of(what);
    match e {
        JobError::NoJobs => push_str(&mut v, ": no jobs\n"),
        JobError::NoSuchJob => push_str(&mut v, ": no such job\n"),
        JobError::BadSpec => push_str(&mut v, ": bad job spec\n"),
    }
    v
}

/// The job that `%N`, a pid or nothing means: the `N`th of the table, the one
/// with that pid, or the last.
pub open spec fn meant_job(jobs: Seq<JobView>, arg: Option<Seq<u8>>) -> Result<int, JobError> {
    match arg {
        None => if jobs.len() == 0 {
            Err(JobError::NoJobs)
        } else {
            Ok(jobs.len() - 1)
        },
        Some(s) => if s.len() > 0 && s[0] == 37 {
            match parsed_signed(s.skip(1)) {
                Some(n) => if 0 <= n < jobs.len() {
                    Ok(n)
                } else {
                    Err(JobError::NoSuchJob)
                },
                None => Err(JobError::NoSuchJob),
            }
        } else {
            match parsed_signed(s) {
                Some(p) => if pid_index(jobs, p as i64, 0) < jobs.len() {
                    Ok(pid_index(jobs, p as i64, 0))
                } else {
                    Err(JobError::NoSuchJob)
                },
                None => Err(JobError::BadSpec),
            }
        },
    }
}

pub fn resolve_job(jobs: &Jobs, arg: Option<&[u8]>) -> (r: Result<usize, JobError>)
    ensures
        ({
            let m = meant_job(
                jobs@,
                match arg {
                    Some(a) => Some(a@),
                    None => None,
                },
            );
            match r {
                Ok(i) => m == Ok::<int, JobError>(i as int) && i < jobs@.len(),
                Err(e) => m == Err::<int, JobError>(e),
            }
        }),
{
    let n: usize = jobs.list.len();
    match arg {
        None => {
            if n == 0 {
                Err(JobError::NoJobs)
            } else {
                Ok(n - 1)
            }
        },
        Some(s) => {
            if s.len() > 0 && s[0] == 37 {
                let rest: &[u8] = slice_subrange(s, 1, s.len());
                assert(rest@ =~= s@.skip(1));
                match parse_i64(rest) {
                    Some(k) => {
                        if k >= 0 {
                            let u: u64 = k as u64;
                            let total: u64 = n as u64;
                            if u < total {
                                return Ok(u as usize);
                            }
                        }
                        Err(JobError::NoSuchJob)
                    },
                    None => Err(JobError::NoSuchJob),
                }
            } else {
                match parse_i64(s) {
                    Some(p) => {
                        let i: usize = jobs.with_pid(p);
                        if i < n {
                            Ok(i)
                        } else {
                            Err(JobError::NoSuchJob)
                        }
                    },
                    None => Err(JobError::BadSpec),
                }
            }
        },
    }
}

// ── A job in front ──

/// How the watch over a job in front ended.
#[derive(Clone, Copy, PartialEq, Eq, Debug, Structural)]
pub enum FgDone {
    Exited(i64),
    Stopped,
}

/// What the watch is at.
#[derive(Clone, Copy, PartialEq, Eq, Debug, Structural)]
pub enum FgPhase {
    /// Waiting for the end, or for a key.
    Watch,
    /// Ctrl-Z was typed: the job is being stopped.
    Stopping,
    /// Ctrl-C was typed at this time: the job was asked to end.
    Cancelling { t0: i64 },
    /// It did not, and is being killed.
    Killing,
}

#[derive(Clone, Copy, PartialEq, Eq, Debug, Structural)]
pub enum FgEvent {
    Heard(Msg),
    /// No message is waiting.
    Quiet,
    Key(u8),
    NoKey,
}

/// What the watch does next.
#[derive(Clone, Copy, PartialEq, Eq, Debug, Structural)]
pub enum FgAction {
    /// Look for a message.
    Poll,
    /// Reply to the message, then look for another.
    Reply,
    /// Look for a key.
    ReadKey,
    /// Stop the job, then look for a message.
    Suspend,
    /// Ask the job to end, then look for a message.
    Cancel,
    /// Kill the job, then look for a message.
    Kill,
    /// Pause, then look for a message.
    Rest,
    Finish(FgDone),
}

/// How long a job has to end by itself, in ticks.
pub const CANCEL_GRACE: i64 = 20;

pub open spec fn fg_next(phase: FgPhase, ev: FgEvent, now: i64, chan: u64) -> (FgPhase, FgAction) {
    match ev {
        FgEvent::Heard(m) => (
            phase,
            match heard(m, Some(chan)) {
                Heard::Ended(code) => FgAction::Finish(FgDone::Exited(code)),
                Heard::Noted => FgAction::Poll,
                Heard::Reply => FgAction::Reply,
            },
        ),
        FgEvent::Quiet => if phase is Stopping {
            (phase, FgAction::Finish(FgDone::Stopped))
        } else {
            (phase, FgAction::ReadKey)
        },
        FgEvent::Key(b) => if phase is Watch && b == 0x1A {
            (FgPhase::Stopping, FgAction::Suspend)
        } else if phase is Watch && b == 0x03 {
            (FgPhase::Cancelling { t0: now }, FgAction::Cancel)
        } else {
            (phase, FgAction::ReadKey)
        },
        FgEvent::NoKey => match phase {
            FgPhase::Cancelling { t0 } => if now - t0 > CANCEL_GRACE {
                (FgPhase::Killing, FgAction::Kill)
            } else {
                (phase, FgAction::Rest)
            },
            _ => (phase, FgAction::Rest),
        },
    }
}

/// The watch over the job on a channel.
pub struct Fg {
    pub chan: u64,
    pub phase: FgPhase,
}

impl Fg {
    pub fn new(chan: u64) -> (r: Fg)
        ensures
            r == (Fg { chan, phase: FgPhase::Watch }),
    {
        Fg { chan, phase: FgPhase::Watch }
    }

    /// Goes on with the watch. What is heard of other jobs goes into the table;
    /// the grants to cancel are put into `cancel`.
    pub fn wait_fg(&mut self, ev: FgEvent, now: i64, jobs: &mut Jobs, cancel: &mut Vec<u64>) -> (r:
        FgAction)
        requires
            old(self).phase matches FgPhase::Cancelling { t0 } ==> i64::MIN <= now - t0
                <= i64::MAX,
        ensures
            (final(self).phase, r) == fg_next(old(self).phase, ev, now, old(self).chan),
            final(self).chan == old(self).chan,
            ({
                let noted = ev matches FgEvent::Heard(m) && heard(m, Some(old(self).chan)) is Noted;
                &&& noted ==> final(jobs)@ == jobs_after_exit(
                    old(jobs)@,
                    ev->Heard_0.chan,
                    ev->Heard_0.code,
                ) && final(cancel)@ == old(cancel)@ + freed(old(jobs)@, ev->Heard_0.chan)
                &&& !noted ==> final(jobs)@ == old(jobs)@ && final(cancel)@ == old(cancel)@
            }),
    {
        let ghost c0 = cancel@;
        match ev {
            FgEvent::Heard(m) => {
                let h: Heard = jobs.hear(m, Some(self.chan), cancel);
                assert(c0 + Seq::<u64>::empty() =~= c0);
                match h {
                    Heard::Ended(code) => FgAction::Finish(FgDone::Exited(code)),
                    Heard::Noted => FgAction::Poll,
                    Heard::Reply => FgAction::Reply,
                }
            },
            FgEvent::Quiet => match self.phase {
                FgPhase::Stopping => FgAction::Finish(FgDone::Stopped),
                _ => FgAction::ReadKey,
            },
            FgEvent::Key(b) => match self.phase {
                FgPhase::Watch => {
                    if b == 0x1A {
                        self.phase = FgPhase::Stopping;
                        FgAction::Suspend
                    } else if b == 0x03 {
                        self.phase = FgPhase::Cancelling { t0: now };
                        FgAction::Cancel
                    } else {
                        FgAction::ReadKey
                    }
                },
                _ => FgAction::ReadKey,
            },
            FgEvent::NoKey => match self.phase {
                FgPhase::Cancelling { t0 } => {
                    if now - t0 > CANCEL_GRACE {
                        self.phase = FgPhase::Killing;
                        FgAction::Kill
                    } else {
                        FgAction::Rest
                    }
                },
                _ => FgAction::Rest,
            },
        }
    }
}

/// The watch says that a job ended only when it was told so, with the code that
/// it was told; it says that a job is stopped only after Ctrl-Z, and only when
/// no news of the end is waiting.
pub proof fn law_end_is_told(phase: FgPhase, ev: FgEvent, now: i64, chan: u64, done: FgDone)
    requires
        fg_next(phase, ev, now, chan).1 == FgAction::Finish(done),
    ensures
        match done {
            FgDone::Exited(code) => ev == FgEvent::Heard(Msg { exit: true, chan, code }),
            FgDone::Stopped => phase is Stopping && ev is Quiet,
        },
{
}

/// A job is killed only after it was asked to end and had its time for that.
pub proof fn law_kill_comes_after_grace(phase: FgPhase, ev: FgEvent, now: i64, chan: u64)
    requires
        fg_next(phase, ev, now, chan).1 is Kill,
    ensures
        phase is Cancelling,
        now - phase->t0 > CANCEL_GRACE,
{
}

/// What a command did: what it says, what it says on the error stream, which
/// grants are to be cancelled, and its code.
pub struct Outcome {
    pub out: Vec<u8>,
    pub err: Vec<u8>,
    pub cancel: Vec<u64>,
    pub code: i64,
}

/// What came of a watch, for the table, the user and the caller.
pub open spec fn front_done(
    before: Seq<JobView>,
    after: Seq<JobView>,
    idx: int,
    done: FgDone,
    r: Outcome,
) -> bool {
    &&& r.err@ == Seq::<u8>::empty()
    &&& match done {
        FgDone::Exited(code) => {
            &&& after == before.remove(idx)
            &&& r.out@ == exit_text(code)
            &&& r.cancel@ == before[idx].grants
            &&& r.code == code
        },
        FgDone::Stopped => {
            &&& after == before.update(idx, JobView { state: JobState::Stopped, ..before[idx] })
            &&& r.out@ == stopped_text(idx, before[idx].cmd)
            &&& r.cancel@ == Seq::<u64>::empty()
            &&& r.code == 0
        },
    }
}

/// Ends the watch over a job: one that ended leaves the table, one that is
/// stopped stays in it.
pub fn finish_front(jobs: &mut Jobs, idx: usize, done: FgDone) -> (r: Outcome)
    requires
        idx < old(jobs)@.len(),
    ensures
        front_done(old(jobs)@, final(jobs)@, idx as int, done, r),
{
    match done {
        FgDone::Exited(code) => {
            let j: Job = jobs.remove(idx);
            let r = Outcome { out: report_exit(code), err: Vec::new(), cancel: j.grants, code };
            assert(r.err@ =~= Seq::empty());
            r
        },
        FgDone::Stopped => {
            assert(jobs@[idx as int] == jobs.list@[idx as int]@);
            let out: Vec<u8> = print_stopped(idx, &jobs.list[idx].cmd);
            jobs.set_state(idx, JobState::Stopped);
            let r = Outcome { out, err: Vec::new(), cancel: Vec::new(), code: 0 };
            assert(r.err@ =~= Seq::empty());
            assert(r.cancel@ =~= Seq::empty());
            r
        },
    }
}

// ── fg and bg ──

/// What `fg` or `bg` does with a job.
pub enum Bring {
    /// It ended, or it cannot go on; nothing more is to be done.
    Over(Outcome),
    /// It is stopped: it is to be made to go on.
    Resume(i64),
    /// It runs in front: it is watched.
    Watch { chan: u64, pid: i64 },
}

/// What is said of a job that ended before it was brought anywhere.
pub open spec fn over_done(
    before: Seq<JobView>,
    after: Seq<JobView>,
    idx: int,
    front: bool,
    code: i64,
    r: Outcome,
) -> bool {
    &&& after == before.remove(idx)
    &&& r.out@ == waited_text(before[idx])
    &&& r.err@ == Seq::<u8>::empty()
    &&& r.cancel@ == Seq::<u64>::empty()
    &&& r.code == (if front {
        code
    } else {
        0
    })
}

/// A running job is brought to the front, where it is watched, or to the back.
pub open spec fn going_done(
    before: Seq<JobView>,
    after: Seq<JobView>,
    idx: int,
    front: bool,
    r: Bring,
) -> bool {
    let j = JobView { bg: !front, state: JobState::Running, ..before[idx] };
    &&& after == before.update(idx, j)
    &&& if front {
        r matches Bring::Watch { chan, pid } && chan == j.chan && pid == j.pid
    } else {
        &&& r matches Bring::Over(o)
        &&& o.out@ == job_line(idx, j)
        &&& o.err@ == Seq::<u8>::empty()
        &&& o.cancel@ == Seq::<u64>::empty()
        &&& o.code == 0
    }
}

pub open spec fn brought(
    before: Seq<JobView>,
    after: Seq<JobView>,
    idx: int,
    front: bool,
    r: Bring,
) -> bool {
    match before[idx].state {
        JobState::Done(code) => r matches Bring::Over(o) && over_done(
            before,
            after,
            idx,
            front,
            code,
            o,
        ),
        JobState::Stopped => {
            &&& after == before
            &&& r matches Bring::Resume(pid) && pid == before[idx].pid
        },
        JobState::Running => going_done(before, after, idx, front, r),
    }
}

fn report_over(jobs: &mut Jobs, idx: usize, front: bool, code: i64) -> (r: Outcome)
    requires
        idx < old(jobs)@.len(),
    ensures
        over_done(old(jobs)@, final(jobs)@, idx as int, front, code, r),
{
    let j: Job = jobs.remove(idx);
    let r = Outcome {
        out: report_waited(&j),
        err: Vec::new(),
        cancel: Vec::new(),
        code: if front {
            code
        } else {
            0
        },
    };
    assert(r.err@ =~= Seq::empty());
    assert(r.cancel@ =~= Seq::empty());
    r
}

fn go_on(jobs: &mut Jobs, idx: usize, front: bool) -> (r: Bring)
    requires
        idx < old(jobs)@.len(),
    ensures
        going_done(old(jobs)@, final(jobs)@, idx as int, front, r),
{
    let ghost j0 = jobs@;
    jobs.set_state(idx, JobState::Running);
    jobs.set_bg(idx, !front);
    let ghost j = JobView { bg: !front, state: JobState::Running, ..j0[idx as int] };
    assert(jobs@ =~= j0.update(idx as int, j));
    assert(jobs@[idx as int] == jobs.list@[idx as int]@);
    if front {
        return Bring::Watch { chan: jobs.list[idx].chan, pid: jobs.list[idx].pid };
    }
    let o = Outcome {
        out: print_job(idx, &jobs.list[idx]),
        err: Vec::new(),
        cancel: Vec::new(),
        code: 0,
    };
    assert(o.err@ =~= Seq::empty());
    assert(o.cancel@ =~= Seq::empty());
    Bring::Over(o)
}

/// Brings a job to the front (`fg`) or lets it go on in the back (`bg`).
pub fn bring(jobs: &mut Jobs, idx: usize, front: bool) -> (r: Bring)
    requires
        idx < old(jobs)@.len(),
    ensures
        brought(old(jobs)@, final(jobs)@, idx as int, front, r),
{
    assert(jobs@[idx as int] == jobs.list@[idx as int]@);
    match jobs.list[idx].state {
        JobState::Done(code) => Bring::Over(report_over(jobs, idx, front, code)),
        JobState::Stopped => Bring::Resume(jobs.list[idx].pid),
        JobState::Running => go_on(jobs, idx, front),
    }
}

/// Goes on after a job was to be resumed. One that could not be resumed may
/// have ended meanwhile; the news of that has been taken in before.
pub fn brought_on(jobs: &mut Jobs, idx: usize, front: bool, resumed: bool) -> (r: Bring)
    requires
        idx < old(jobs)@.len(),
    ensures
        if resumed {
            going_done(old(jobs)@, final(jobs)@, idx as int, front, r)
        } else {
            match old(jobs)@[idx as int].state {
                JobState::Done(code) => r matches Bring::Over(o) && over_done(
                    old(jobs)@,
                    final(jobs)@,
                    idx as int,
                    front,
                    code,
                    o,
                ),
                _ => {
                    &&& final(jobs)@ == old(jobs)@
                    &&& r matches Bring::Over(o)
                    &&& o.out@ == Seq::<u8>::empty()
                    &&& o.err@ == (if front {
                        bytes::lit("fg: resume failed\n")
                    } else {
                        bytes::lit("bg: resume failed\n")
                    })
                    &&& o.cancel@ == Seq::<u64>::empty()
                    &&& o.code == 1
                },
            }
        },
{
    if resumed {
        return go_on(jobs, idx, front);
    }
    assert(jobs@[idx as int] == jobs.list@[idx as int]@);
    match jobs.list[idx].state {
        JobState::Done(code) => Bring::Over(report_over(jobs, idx, front, code)),
        _ => {
            let mut err: Vec<u8> = Vec::new();
            if front {
                push_str(&mut err, "fg: resume failed\n");
                assert(err@ =~= bytes::lit("fg: resume failed\n"));
            } else {
                push_str(&mut err, "bg: resume failed\n");
                assert(err@ =~= bytes::lit("bg: resume failed\n"));
            }
            let o = Outcome { out: Vec::new(), err, cancel: Vec::new(), code: 1 };
            assert(o.out@ =~= Seq::empty());
            assert(o.cancel@ =~= Seq::empty());
            Bring::Over(o)
        },
    }
}

// ── wait ──

/// What `wait` does next.
pub enum WaitStep {
    /// Something is said, and it goes on.
    Say(Vec<u8>),
    /// The end of the job on this channel is to be waited for.
    On(u64),
    Finished,
}

/// The jobs that `wait` waits for: all of them, or one.
#[derive(Clone, Copy, PartialEq, Eq, Debug, Structural)]
pub struct Waiting {
    /// The next job.
    pub at: usize,
    pub all: bool,
    /// The one job is dealt with.
    pub over: bool,
}

/// Why `wait` waits for nothing.
#[derive(Clone, Copy, PartialEq, Eq, Debug, Structural)]
pub enum WaitError {
    BadPid,
    NoSuchJob,
}

pub open spec fn wait_error_text(e: WaitError) -> Seq<u8> {
    match e {
        WaitError::BadPid => bytes::lit("wait: bad pid\n"),
        WaitError::NoSuchJob => bytes::lit("wait: no such job\n"),
    }
}

pub fn report_wait_error(e: WaitError) -> (r: Vec<u8>)
    ensures
        r@ == wait_error_text(e),
{
    let mut v: Vec<u8> = Vec::new();
    match e {
        WaitError::BadPid => push_str(&mut v, "wait: bad pid\n"),
        WaitError::NoSuchJob => push_str(&mut v, "wait: no such job\n"),
    }
    assert(v@ =~= wait_error_text(e));
    v
}

/// Whether there is a job left to wait for.
pub open spec fn wait_left(jobs: Seq<JobView>, w: Waiting) -> bool {
    !w.over && w.at < jobs.len()
}

/// `wait` goes on: it reports a job that is stopped and leaves it, it reports a
/// job that ended and takes it out, it waits for one that runs.
pub open spec fn wait_goes(
    before: (Seq<JobView>, Waiting),
    after: (Seq<JobView>, Waiting),
    r: WaitStep,
) -> bool {
    let (jobs, w) = before;
    let at = w.at as int;
    if !wait_left(jobs, w) {
        after == before && r is Finished
    } else {
        match jobs[at].state {
            JobState::Stopped => {
                &&& after.0 == jobs
                &&& after.1.at == at + 1
                &&& after.1.all == w.all
                &&& after.1.over == !w.all
                &&& r matches WaitStep::Say(t) && t@ == waited_text(jobs[at])
            },
            JobState::Running => {
                &&& after == before
                &&& r matches WaitStep::On(c) && c == jobs[at].chan
            },
            JobState::Done(_) => {
                &&& after == (jobs.remove(at), Waiting { over: !w.all, ..w })
                &&& r matches WaitStep::Say(t) && t@ == waited_text(jobs[at])
            },
        }
    }
}

impl Waiting {
    /// `wait`, with a pid or without.
    pub fn cmd_wait(jobs: &Jobs, arg: Option<&[u8]>) -> (r: Result<Waiting, WaitError>)
        ensures
            match arg {
                None => r == Ok::<Waiting, WaitError>(Waiting { at: 0, all: true, over: false }),
                Some(a) => match parsed_signed(a@) {
                    None => r == Err::<Waiting, WaitError>(WaitError::BadPid),
                    Some(p) => {
                        let i = pid_index(jobs@, p as i64, 0);
                        if i < jobs@.len() {
                            r matches Ok(w) && w == (Waiting { at: w.at, all: false, over: false })
                                && w.at == i
                        } else {
                            r == Err::<Waiting, WaitError>(WaitError::NoSuchJob)
                        }
                    },
                },
            },
    {
        match arg {
            None => Ok(Waiting { at: 0, all: true, over: false }),
            Some(a) => match parse_i64(a) {
                None => Err(WaitError::BadPid),
                Some(p) => {
                    let i: usize = jobs.with_pid(p);
                    if i < jobs.list.len() {
                        Ok(Waiting { at: i, all: false, over: false })
                    } else {
                        Err(WaitError::NoSuchJob)
                    }
                },
            },
        }
    }

    pub fn next(&mut self, jobs: &mut Jobs) -> (r: WaitStep)
        ensures
            wait_goes((old(jobs)@, *old(self)), (final(jobs)@, *final(self)), r),
    {
        let ghost j0 = jobs@;
        if self.over || self.at >= jobs.list.len() {
            return WaitStep::Finished;
        }
        assert(jobs@[self.at as int] == jobs.list@[self.at as int]@);
        match jobs.list[self.at].state {
            JobState::Stopped => {
                let t: Vec<u8> = report_waited(&jobs.list[self.at]);
                self.at = self.at + 1;
                self.over = !self.all;
                WaitStep::Say(t)
            },
            JobState::Running => WaitStep::On(jobs.list[self.at].chan),
            JobState::Done(_) => {
                let j: Job = jobs.remove(self.at);
                self.over = !self.all;
                WaitStep::Say(report_waited(&j))
            },
        }
    }

    /// The wait for a job's end is over: it ended with a code, or the wait
    /// failed. Either way it leaves the table.
    pub fn waited(&mut self, jobs: &mut Jobs, code: Option<i64>) -> (r: Outcome)
        requires
            wait_left(old(jobs)@, *old(self)),
        ensures
            ({
                let at = old(self).at as int;
                let j = old(jobs)@[at];
                &&& final(jobs)@ == old(jobs)@.remove(at)
                &&& *final(self) == (Waiting { over: !old(self).all, ..*old(self) })
                &&& r.err@ == Seq::<u8>::empty()
                &&& r.code == 0
                &&& match code {
                    Some(c) => {
                        &&& r.out@ == waited_text(JobView { state: JobState::Done(c), ..j })
                        &&& r.cancel@ == j.grants
                    },
                    None => {
                        &&& r.out@ == waited_text(JobView { state: JobState::Running, ..j })
                        &&& r.cancel@ == Seq::<u64>::empty()
                    },
                }
            }),
    {
        let ghost j0 = jobs@[self.at as int];
        let mut j: Job = jobs.remove(self.at);
        self.over = !self.all;
        match code {
            Some(c) => {
                j.state = JobState::Done(c);
                assert(j@ =~= JobView { state: JobState::Done(c), ..j0 });
                let out: Vec<u8> = report_waited(&j);
                let r = Outcome { out, err: Vec::new(), cancel: copy_grants(&j.grants), code: 0 };
                assert(r.err@ =~= Seq::empty());
                r
            },
            None => {
                j.state = JobState::Running;
                assert(j@ =~= JobView { state: JobState::Running, ..j0 });
                let out: Vec<u8> = report_waited(&j);
                let r = Outcome { out, err: Vec::new(), cancel: Vec::new(), code: 0 };
                assert(r.err@ =~= Seq::empty());
                assert(r.cancel@ =~= Seq::empty());
                r
            },
        }
    }
}

// ── A group of programs ──

/// The codes of a group after the news that someone ended.
pub open spec fn codes_after(chans: Seq<u64>, codes: Seq<Option<i64>>, m: Msg) -> Seq<Option<i64>> {
    Seq::new(
        codes.len(),
        |i: int|
            if m.exit && chans[i] == m.chan && codes[i] is None {
                Some(m.code)
            } else {
                codes[i]
            },
    )
}

/// Takes in a message while a whole group is waited for. True once all of the
/// group ended.
pub fn wait_all(chans: &Vec<u64>, codes: &mut Vec<Option<i64>>, m: Msg) -> (r: bool)
    requires
        chans@.len() == old(codes)@.len(),
    ensures
        final(codes)@ == codes_after(chans@, old(codes)@, m),
        r == forall|i: int| 0 <= i < final(codes)@.len() ==> final(codes)@[i] is Some,
{
    let ghost c0 = codes@;
    let mut all: bool = true;
    let mut i: usize = 0;
    while i < codes.len()
        invariant
            i <= codes@.len(),
            c0 == old(codes)@,
            codes@.len() == c0.len(),
            chans@.len() == c0.len(),
            forall|k: int|
                0 <= k < codes@.len() ==> #[trigger] codes@[k] == (if k < i {
                    codes_after(chans@, c0, m)[k]
                } else {
                    c0[k]
                }),
            all == forall|k: int| 0 <= k < i ==> codes@[k] is Some,
        decreases codes.len() - i,
    {
        let ghost before = codes@;
        let open: bool = codes[i].is_none();
        if m.exit && chans[i] == m.chan && open {
            codes.set(i, Some(m.code));
        }
        if codes[i].is_none() {
            all = false;
        }
        assert(forall|k: int| 0 <= k < i ==> codes@[k] == before[k]);
        i = i + 1;
    }
    assert(codes@ =~= codes_after(chans@, c0, m));
    all
}

/// What a program of a group ended with does not change any more.
pub proof fn law_code_stays(chans: Seq<u64>, codes: Seq<Option<i64>>, m: Msg, i: int)
    requires
        chans.len() == codes.len(),
        0 <= i < codes.len(),
        codes[i] is Some,
    ensures
        codes_after(chans, codes, m)[i] == codes[i],
{
}

/// A job that is known to have ended stays so, with the code that it ended
/// with, whatever is heard later.
pub proof fn law_done_stays_done(jobs: Seq<JobView>, chan: u64, code: i64, i: int)
    requires
        0 <= i < jobs.len(),
        jobs[i].state is Done,
    ensures
        jobs_after_exit(jobs, chan, code)[i] == jobs[i],
{
}

} // verus!
