//! `run`: one program, in front or in the background.
//!
//! The program is loaded, its redirections are opened and granted to it, and it
//! is started. If anything fails on the way, all that was opened is closed and
//! all grants are cancelled; once it runs, its grants go with its job.
use vstd::prelude::*;

use super::jobs;
use super::jobs::{append_all, print_bg, Job, JobState, JobView, Jobs};
use super::load::Loaded;
use super::pipeline;
use super::pipeline::{Effects, Entry, Fx, SpawnError};
use super::redirect;
use super::redirect::{append_fds, close_all, Fds, Redirect, NO_FD};
use crate::bytes;
use crate::bytes::{append_bytes, copy_of, push_str};

verus! {

/// What is waited for.
#[derive(Clone, Copy, PartialEq, Eq, Debug, Structural)]
pub enum RunPhase {
    Loading,
    Opening,
    Granting(u8),
    Spawning,
    Over,
}

/// What is asked for next.
#[derive(Clone, Copy, PartialEq, Eq, Debug, Structural)]
pub enum RunAsk {
    /// That the program be loaded.
    Load,
    /// That the redirections be opened.
    Open,
    /// A grant for a descriptor.
    Grant(i64),
    /// That the program be started.
    Spawn,
    /// That the job with this index be watched in front.
    Watch(usize),
    /// Nothing: it is over, with this code.
    Finished(i64),
}

/// A program that is being started.
pub struct Run {
    pub fds: Fds,
    pub entries: Vec<Entry>,
    pub grants: Vec<u64>,
    pub phase: RunPhase,
}

/// A program that is being started, as a value.
#[verifier::ext_equal]
pub struct RunView {
    pub fds: Seq<i64>,
    pub entries: Seq<Entry>,
    pub grants: Seq<u64>,
    pub phase: RunPhase,
}

impl View for Run {
    type V = RunView;

    open spec fn view(&self) -> RunView {
        RunView {
            fds: self.fds@,
            entries: self.entries@,
            grants: self.grants@,
            phase: self.phase,
        }
    }
}

pub open spec fn fresh_run() -> RunView {
    RunView {
        fds: redirect::no_fds(),
        entries: Seq::empty(),
        grants: Seq::empty(),
        phase: RunPhase::Loading,
    }
}

/// One turn: what the run becomes, what is to be done, what is asked for.
#[verifier::ext_equal]
pub struct RunTurn {
    pub p: RunView,
    pub fx: Fx,
    pub ask: RunAsk,
}

/// The program cannot be run.
pub open spec fn run_failed(p: RunView, err: Seq<u8>) -> RunTurn {
    RunTurn {
        p: RunView { phase: RunPhase::Over, ..fresh_run() },
        fx: Fx {
            close: redirect::distinct(p.fds),
            cancel: p.grants,
            err,
            out: Seq::empty(),
        },
        ask: RunAsk::Finished(1),
    }
}

pub open spec fn to_spawn(p: RunView) -> RunTurn {
    RunTurn {
        p: RunView { phase: RunPhase::Spawning, ..p },
        fx: pipeline::no_fx(),
        ask: RunAsk::Spawn,
    }
}

/// To the grant for the first stream from `s` on that needs one, then to the
/// start. An error stream that is the output stream needs none.
pub open spec fn run_grant(p: RunView, s: int) -> RunTurn
    decreases 3 - s,
{
    if s >= 3 || s < 0 {
        to_spawn(p)
    } else if p.fds[s] < 0 {
        run_grant(p, s + 1)
    } else if s == 2 && p.fds[2] == p.fds[1] {
        to_spawn(RunView { entries: p.entries.push(Entry::Alias { vfd: 2, target: 1 }), ..p })
    } else {
        RunTurn {
            p: RunView { phase: RunPhase::Granting(s as u8), ..p },
            fx: pipeline::no_fx(),
            ask: RunAsk::Grant(p.fds[s]),
        }
    }
}

/// The program was to be loaded; what is said if it could not be.
pub open spec fn run_loaded(p: RunView, any_redirs: bool, err: Option<Seq<u8>>) -> RunTurn {
    match err {
        Some(e) => run_failed(p, e),
        None => if any_redirs {
            RunTurn {
                p: RunView { phase: RunPhase::Opening, ..p },
                fx: pipeline::no_fx(),
                ask: RunAsk::Open,
            }
        } else {
            to_spawn(p)
        },
    }
}

/// The redirections were to be opened.
pub open spec fn run_opened(p: RunView, fds: Option<Seq<i64>>, err: Seq<u8>) -> RunTurn {
    match fds {
        Some(f) => run_grant(RunView { fds: f, ..p }, 0),
        None => run_failed(p, err),
    }
}

/// A grant for the stream `s` was asked for.
pub open spec fn run_granted(p: RunView, s: u8, nonce: Option<u64>) -> RunTurn {
    match nonce {
        Some(n) => run_grant(
            RunView {
                grants: p.grants.push(n),
                entries: p.entries.push(Entry::Grant { vfd: s, nonce: n }),
                ..p
            },
            s + 1,
        ),
        None => run_failed(p, bytes::lit("run: redirect grant failed\n")),
    }
}

/// A turn was taken.
pub open spec fn run_turned(fx0: Fx, p: RunView, fx: Fx, ask: RunAsk, t: RunTurn) -> bool {
    &&& p == t.p
    &&& fx == pipeline::plus(fx0, t.fx)
    &&& ask == t.ask
}

impl Run {
    /// Starts `run`.
    pub fn cmd_run(args: &Vec<Vec<u8>>, fx: &mut Effects) -> (r: (Run, RunAsk))
        ensures
            if args@.len() < 2 {
                &&& r.1 == RunAsk::Finished(1)
                &&& final(fx)@ == pipeline::plus(
                    old(fx)@,
                    Fx {
                        err: bytes::lit("run: usage: run <path> [args...] [&]\n"),
                        ..pipeline::no_fx()
                    },
                )
            } else {
                &&& r.0@ == fresh_run()
                &&& r.1 == RunAsk::Load
                &&& final(fx)@ == old(fx)@
            },
    {
        let ghost f0 = fx@;
        let p = Run {
            fds: [NO_FD, NO_FD, NO_FD],
            entries: Vec::new(),
            grants: Vec::new(),
            phase: RunPhase::Loading,
        };
        assert(p@ =~= fresh_run());
        if args.len() < 2 {
            push_str(&mut fx.err, "run: usage: run <path> [args...] [&]\n");
            assert(fx@ =~= pipeline::plus(
                f0,
                Fx {
                    err: bytes::lit("run: usage: run <path> [args...] [&]\n"),
                    ..pipeline::no_fx()
                },
            ));
            return (p, RunAsk::Finished(1));
        }
        (p, RunAsk::Load)
    }

    fn fail(&mut self, err: &[u8], fx: &mut Effects) -> (r: RunAsk)
        ensures
            run_turned(old(fx)@, final(self)@, final(fx)@, r, run_failed(old(self)@, err@)),
    {
        let ghost p0 = self@;
        let ghost f0 = fx@;
        let c: Vec<i64> = close_all(&self.fds);
        append_fds(&mut fx.close, &c);
        append_all(&mut fx.cancel, &self.grants);
        append_bytes(&mut fx.err, err);
        self.fds = [NO_FD, NO_FD, NO_FD];
        self.entries = Vec::new();
        self.grants = Vec::new();
        self.phase = RunPhase::Over;
        assert(self@ =~= run_failed(p0, err@).p);
        assert(fx@ =~= pipeline::plus(f0, run_failed(p0, err@).fx));
        RunAsk::Finished(1)
    }

    fn go_to_grant(&mut self, from: u8, fx: &mut Effects) -> (r: RunAsk)
        requires
            from <= 3,
        ensures
            run_turned(old(fx)@, final(self)@, final(fx)@, r, run_grant(old(self)@, from as int)),
    {
        let ghost p0 = self@;
        let ghost f0 = fx@;
        assert(fx@ =~= pipeline::plus(f0, pipeline::no_fx()));
        let mut s: u8 = from;
        assert(self.fds@.len() == 3);
        while s < 3
            invariant
                from <= s <= 3,
                self@ == p0,
                self@ == old(self)@,
                *fx == *old(fx),
                f0 == fx@,
                f0 == pipeline::plus(f0, pipeline::no_fx()),
                self.fds@.len() == 3,
                run_grant(p0, s as int) == run_grant(p0, from as int),
            decreases 3 - s,
        {
            let fd: i64 = self.fds[s as usize];
            assert(fd == p0.fds[s as int]);
            if fd >= 0 {
                if s == 2 && fd == self.fds[1] {
                    self.entries.push(Entry::Alias { vfd: 2, target: 1 });
                    self.phase = RunPhase::Spawning;
                    assert(self@ =~= run_grant(p0, 2).p);
                    return RunAsk::Spawn;
                }
                self.phase = RunPhase::Granting(s);
                assert(self@ =~= run_grant(p0, s as int).p);
                return RunAsk::Grant(fd);
            }
            s = s + 1;
        }
        self.phase = RunPhase::Spawning;
        assert(self@ =~= to_spawn(p0).p);
        RunAsk::Spawn
    }

    /// Goes on with the program that was to be loaded, or with what is said of
    /// it if it could not be.
    pub fn loaded(&mut self, redirs: &Vec<Redirect>, err: &Option<Vec<u8>>, fx: &mut Effects) -> (r:
        RunAsk)
        ensures
            run_turned(
                old(fx)@,
                final(self)@,
                final(fx)@,
                r,
                run_loaded(
                    old(self)@,
                    redirs@.len() > 0,
                    match *err {
                        Some(e) => Some(e@),
                        None => None,
                    },
                ),
            ),
    {
        let ghost p0 = self@;
        let ghost f0 = fx@;
        match err {
            Some(e) => self.fail(e, fx),
            None => {
                assert(fx@ =~= pipeline::plus(f0, pipeline::no_fx()));
                if redirs.len() > 0 {
                    self.phase = RunPhase::Opening;
                    assert(self@ =~= run_loaded(p0, true, None).p);
                    RunAsk::Open
                } else {
                    self.phase = RunPhase::Spawning;
                    assert(self@ =~= to_spawn(p0).p);
                    RunAsk::Spawn
                }
            },
        }
    }

    /// Goes on with the streams, or with what is said of the file that could
    /// not be opened.
    pub fn opened(&mut self, fds: Option<Fds>, err: &[u8], fx: &mut Effects) -> (r: RunAsk)
        ensures
            run_turned(
                old(fx)@,
                final(self)@,
                final(fx)@,
                r,
                run_opened(
                    old(self)@,
                    match fds {
                        Some(f) => Some(f@),
                        None => None,
                    },
                    err@,
                ),
            ),
    {
        let ghost p0 = self@;
        match fds {
            Some(f) => {
                self.fds = f;
                assert(self@ =~= RunView { fds: f@, ..p0 });
                self.go_to_grant(0, fx)
            },
            None => self.fail(err, fx),
        }
    }

    /// Goes on with the grant that was asked for.
    pub fn granted(&mut self, nonce: Option<u64>, fx: &mut Effects) -> (r: RunAsk)
        requires
            old(self).phase matches RunPhase::Granting(s) && s < 3,
        ensures
            run_turned(
                old(fx)@,
                final(self)@,
                final(fx)@,
                r,
                run_granted(old(self)@, old(self).phase->Granting_0, nonce),
            ),
    {
        let ghost p0 = self@;
        let s: u8 = match self.phase {
            RunPhase::Granting(s) => s,
            _ => 0,
        };
        match nonce {
            Some(n) => {
                self.grants.push(n);
                self.entries.push(Entry::Grant { vfd: s, nonce: n });
                assert(self@ =~= RunView {
                    grants: p0.grants.push(n),
                    entries: p0.entries.push(Entry::Grant { vfd: s, nonce: n }),
                    ..p0
                });
                self.go_to_grant(s + 1, fx)
            },
            None => self.fail("run: redirect grant failed\n".as_bytes(), fx),
        }
    }

    /// Goes on with the program that was to be started: its pid and channel, or
    /// why it was not. A program that runs becomes a job.
    pub fn spawned(
        &mut self,
        started: Result<(u64, u64), SpawnError>,
        program: &Loaded,
        bg: bool,
        jobs: &mut Jobs,
        fx: &mut Effects,
    ) -> (r: RunAsk)
        requires
            started is Ok ==> started->Ok_0.0 <= i64::MAX,
        ensures
            match started {
                Err(e) => {
                    &&& run_turned(
                        old(fx)@,
                        final(self)@,
                        final(fx)@,
                        r,
                        run_failed(old(self)@, pipeline::spawn_complaint(true, e)),
                    )
                    &&& final(jobs)@ == old(jobs)@
                },
                Ok((pid, chan)) => {
                    &&& final(jobs)@ == old(jobs)@.push(
                        JobView {
                            pid: pid as i64,
                            chan,
                            cmd: program.cmdline@,
                            bg,
                            state: JobState::Running,
                            grants: old(self).grants@,
                        },
                    )
                    &&& final(self)@ == (RunView { phase: RunPhase::Over, ..fresh_run() })
                    &&& final(fx)@ == pipeline::plus(
                        old(fx)@,
                        Fx {
                            close: redirect::distinct(old(self).fds@),
                            out: if bg {
                                jobs::bg_text(pid as int)
                            } else {
                                Seq::empty()
                            },
                            ..pipeline::no_fx()
                        },
                    )
                    &&& r == (if bg {
                        RunAsk::Finished(0)
                    } else {
                        RunAsk::Watch(old(jobs)@.len() as usize)
                    })
                },
            },
    {
        let ghost p0 = self@;
        let ghost f0 = fx@;
        match started {
            Err(e) => {
                let mut t: Vec<u8> = Vec::new();
                match e {
                    SpawnError::TooLong => push_str(&mut t, "run: argv troppo lunghi\n"),
                    SpawnError::Fork => push_str(&mut t, "run: fork failed\n"),
                }
                assert(t@ =~= pipeline::spawn_complaint(true, e));
                self.fail(&t, fx)
            },
            Ok((pid, chan)) => {
                let c: Vec<i64> = close_all(&self.fds);
                append_fds(&mut fx.close, &c);
                let mut grants: Vec<u64> = Vec::new();
                append_all(&mut grants, &self.grants);
                assert(grants@ =~= p0.grants);
                let idx: usize = jobs.list.len();
                let job = Job {
                    pid: pid as i64,
                    chan,
                    cmd: copy_of(&program.cmdline),
                    bg,
                    state: JobState::Running,
                    grants,
                };
                jobs.start(job);
                self.fds = [NO_FD, NO_FD, NO_FD];
                self.entries = Vec::new();
                self.grants = Vec::new();
                self.phase = RunPhase::Over;
                assert(self@ =~= RunView { phase: RunPhase::Over, ..fresh_run() });
                if bg {
                    let t: Vec<u8> = print_bg(pid);
                    append_bytes(&mut fx.out, &t);
                }
                assert(fx@ =~= pipeline::plus(
                    f0,
                    Fx {
                        close: redirect::distinct(p0.fds),
                        out: if bg {
                            jobs::bg_text(pid as int)
                        } else {
                            Seq::empty()
                        },
                        ..pipeline::no_fx()
                    },
                ));
                if bg {
                    RunAsk::Finished(0)
                } else {
                    RunAsk::Watch(idx)
                }
            },
        }
    }
}

/// What is held while a program is being started is still held after a turn, or
/// was closed or cancelled. When it is over, nothing is held.
pub open spec fn run_accounted(p: RunView, t: RunTurn) -> bool {
    &&& forall|fd: i64| fd >= 0 && #[trigger] p.fds.contains(fd) ==> t.p.fds.contains(fd)
        || t.fx.close.contains(fd)
    &&& forall|g: u64| #[trigger] p.grants.contains(g) ==> t.p.grants.contains(g)
        || t.fx.cancel.contains(g)
    &&& t.ask is Finished ==> t.p.fds == redirect::no_fds() && t.p.grants.len() == 0
}

proof fn lemma_run_failed(p: RunView, err: Seq<u8>)
    ensures
        run_accounted(p, run_failed(p, err)),
{
    assert forall|fd: i64| fd >= 0 && #[trigger] p.fds.contains(fd) implies redirect::distinct(
        p.fds,
    ).contains(fd) by {
        redirect::lemma_distinct_has(p.fds, fd);
    }
}

proof fn lemma_run_grant(p: RunView, s: int)
    requires
        0 <= s <= 3,
    ensures
        run_accounted(p, run_grant(p, s)),
    decreases 3 - s,
{
    if s < 3 {
        lemma_run_grant(p, s + 1);
    }
}

/// Nothing is lost while a program is being started: whatever comes of what is
/// asked for, each descriptor stays held or is closed, and each grant stays or
/// is cancelled.
pub proof fn law_failed_run_leaves_nothing(
    p: RunView,
    fds: Seq<i64>,
    nonce: Option<u64>,
    s: u8,
    err: Seq<u8>,
    any_redirs: bool,
)
    requires
        s < 3,
    ensures
        run_accounted(p, run_loaded(p, any_redirs, Some(err))),
        run_accounted(p, run_loaded(p, any_redirs, None)),
        run_accounted(RunView { fds, ..p }, run_opened(p, Some(fds), err)),
        run_accounted(p, run_opened(p, None, err)),
        run_accounted(p, run_granted(p, s, nonce)),
        nonce is Some ==> run_granted(p, s, nonce).p.grants.contains(nonce->0),
{
    lemma_run_failed(p, err);
    lemma_run_grant(RunView { fds, ..p }, 0);
    match nonce {
        Some(n) => {
            let q = RunView {
                grants: p.grants.push(n),
                entries: p.entries.push(Entry::Grant { vfd: s, nonce: n }),
                ..p
            };
            lemma_run_grant(q, s + 1);
            lemma_run_grant_keeps(q, s + 1);
            assert(q.grants[p.grants.len() as int] == n);
            assert forall|g: u64| #[trigger] p.grants.contains(g) implies q.grants.contains(g) by {
                let i = p.grants.index_of(g);
                assert(q.grants[i] == g);
            }
        },
        None => {
            lemma_run_failed(p, bytes::lit("run: redirect grant failed\n"));
        },
    }
}

proof fn lemma_run_grant_keeps(p: RunView, s: int)
    requires
        0 <= s <= 3,
    ensures
        run_grant(p, s).p.grants == p.grants,
    decreases 3 - s,
{
    if s < 3 {
        lemma_run_grant_keeps(p, s + 1);
    }
}

} // verus!
