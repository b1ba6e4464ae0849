//! Pipelines: commands that run side by side, each reading what the one before
//! it writes, and single commands with a here-document.
//!
//! Pipes are made between the stages, each stage's files are opened, the
//! stages are started, their here-documents are written, and all are waited
//! for. The code of the last stage counts. If anything fails on the way, all
//! that was opened is closed and all grants are cancelled.
//!
//! What has to be done outside is asked for one thing at a time; what is to be
//! closed, cancelled and said along with it is put into the effects.
use vstd::prelude::*;

use super::builtins;
use super::builtins::is_builtin;
use super::jobs;
use super::jobs::{append_all, report_exit};
use super::load;
use super::redirect;
use super::redirect::{
    append_fds, close_all, report_open_error, Fds, OpenError, Redirect, RedirectView, NO_FD,
};
use crate::bytes;
use crate::bytes::{append_bytes, copy_of, has_byte, is_str, push_str};

verus! {

/// A stage of a pipeline: a command whose words stand.
pub struct Stage {
    pub argv: Vec<Vec<u8>>,
    /// What is set in front of the command.
    pub env: Vec<(Vec<u8>, Vec<u8>)>,
    pub redirs: Vec<Redirect>,
    pub bg: bool,
}

/// A stage as a value.
#[verifier::ext_equal]
pub struct StageView {
    pub argv: Seq<Seq<u8>>,
    pub env: Seq<(Seq<u8>, Seq<u8>)>,
    pub redirs: Seq<RedirectView>,
    pub bg: bool,
}

impl View for Stage {
    type V = StageView;

    open spec fn view(&self) -> StageView {
        StageView {
            argv: bytes::views(self.argv@),
            env: load::pair_views(self.env@),
            redirs: redirect::redirect_views(self.redirs@),
            bg: self.bg,
        }
    }
}

pub open spec fn stage_views(v: Seq<Stage>) -> Seq<StageView> {
    Seq::new(v.len(), |i: int| v[i]@)
}

/// How a stage's program gets a stream.
#[derive(Clone, Copy, PartialEq, Eq, Debug, Structural)]
pub enum Entry {
    /// By claiming a grant.
    Grant { vfd: u8, nonce: u64 },
    /// It is what another stream is.
    Alias { vfd: u8, target: u8 },
}

/// What is waited for.
#[derive(Clone, Copy, PartialEq, Eq, Debug, Structural)]
pub enum Phase {
    /// A pipe between two stages.
    Linking,
    /// The files of a stage.
    Opening,
    /// A pipe for the here-document on a stream.
    Heredoc(u8),
    /// The grant for a stream.
    Granting(u8),
    /// The program of a stage.
    Loading,
    /// The start of a stage.
    Spawning { program: bool },
    /// The end of all stages.
    Waiting,
    Over,
}

/// A text with the descriptor that it is to be written to.
pub open spec fn body_views(v: Seq<(i64, Vec<u8>)>) -> Seq<(i64, Seq<u8>)> {
    Seq::new(v.len(), |i: int| (v[i].0, v[i].1@))
}

pub struct Pipeline {
    pub n: usize,
    /// The pipes between the stages.
    pub links: Vec<(i64, i64)>,
    /// The stage that is being started.
    pub at: usize,
    /// The streams of that stage, its here-documents, its entries and its
    /// grants.
    pub fds: Fds,
    pub stage_bodies: Vec<(i64, Vec<u8>)>,
    pub entries: Vec<Entry>,
    pub stage_grants: Vec<u64>,
    /// The grants and here-documents of the stages that run.
    pub grants: Vec<u64>,
    pub bodies: Vec<(i64, Vec<u8>)>,
    /// The channels of the stages that run, and which stages those are.
    pub chans: Vec<u64>,
    pub stage_of: Vec<usize>,
    pub codes: Vec<Option<i64>>,
    pub phase: Phase,
}

/// A pipeline as a value.
#[verifier::ext_equal]
pub struct PipeView {
    pub n: int,
    pub links: Seq<(i64, i64)>,
    pub at: int,
    pub fds: Seq<i64>,
    pub stage_bodies: Seq<(i64, Seq<u8>)>,
    pub entries: Seq<Entry>,
    pub stage_grants: Seq<u64>,
    pub grants: Seq<u64>,
    pub bodies: Seq<(i64, Seq<u8>)>,
    pub chans: Seq<u64>,
    pub stage_of: Seq<usize>,
    pub codes: Seq<Option<i64>>,
    pub phase: Phase,
}

impl View for Pipeline {
    type V = PipeView;

    open spec fn view(&self) -> PipeView {
        PipeView {
            n: self.n as int,
            links: self.links@,
            at: self.at as int,
            fds: self.fds@,
            stage_bodies: body_views(self.stage_bodies@),
            entries: self.entries@,
            stage_grants: self.stage_grants@,
            grants: self.grants@,
            bodies: body_views(self.bodies@),
            chans: self.chans@,
            stage_of: self.stage_of@,
            codes: self.codes@,
            phase: self.phase,
        }
    }
}

/// What is asked for next.
pub enum Ask {
    /// A pipe.
    Pipe,
    /// That the files of the stage be opened, over these descriptors.
    Open { seed: Fds },
    /// A grant for a descriptor.
    Grant(i64),
    /// That a program be loaded.
    Load { prog: Vec<u8>, rest: Vec<Vec<u8>> },
    /// That the loaded program be started as the stage.
    SpawnProgram,
    /// That the shell's command be started as the stage, in a process of its
    /// own.
    SpawnBuiltin,
    /// That the texts be written to the descriptors, those then be closed, and
    /// all on the channels be waited for.
    Feed { bodies: Vec<(i64, Vec<u8>)>, chans: Vec<u64> },
    /// Nothing: it is over, with this code.
    Finished(i64),
}

/// What is asked for next, as a value.
#[verifier::ext_equal]
pub enum AskView {
    Pipe,
    Open { seed: Seq<i64> },
    Grant(i64),
    Load { prog: Seq<u8>, rest: Seq<Seq<u8>> },
    SpawnProgram,
    SpawnBuiltin,
    Feed { bodies: Seq<(i64, Seq<u8>)>, chans: Seq<u64> },
    Finished(i64),
}

impl View for Ask {
    type V = AskView;

    open spec fn view(&self) -> AskView {
        match *self {
            Ask::Pipe => AskView::Pipe,
            Ask::Open { seed } => AskView::Open { seed: seed@ },
            Ask::Grant(fd) => AskView::Grant(fd),
            Ask::Load { prog, rest } => AskView::Load { prog: prog@, rest: bytes::views(rest@) },
            Ask::SpawnProgram => AskView::SpawnProgram,
            Ask::SpawnBuiltin => AskView::SpawnBuiltin,
            Ask::Feed { bodies, chans } => AskView::Feed {
                bodies: body_views(bodies@),
                chans: chans@,
            },
            Ask::Finished(code) => AskView::Finished(code),
        }
    }
}

/// What is to be done along with what is asked for.
pub struct Effects {
    pub close: Vec<i64>,
    pub cancel: Vec<u64>,
    pub err: Vec<u8>,
    pub out: Vec<u8>,
}

#[verifier::ext_equal]
pub struct Fx {
    pub close: Seq<i64>,
    pub cancel: Seq<u64>,
    pub err: Seq<u8>,
    pub out: Seq<u8>,
}

impl View for Effects {
    type V = Fx;

    open spec fn view(&self) -> Fx {
        Fx { close: self.close@, cancel: self.cancel@, err: self.err@, out: self.out@ }
    }
}

pub open spec fn no_fx() -> Fx {
    Fx { close: Seq::empty(), cancel: Seq::empty(), err: Seq::empty(), out: Seq::empty() }
}

pub open spec fn plus(a: Fx, b: Fx) -> Fx {
    Fx {
        close: a.close + b.close,
        cancel: a.cancel + b.cancel,
        err: a.err + b.err,
        out: a.out + b.out,
    }
}

/// One turn of a pipeline: what it becomes, what is to be done, and what is
/// asked for.
#[verifier::ext_equal]
pub struct Turn {
    pub p: PipeView,
    pub fx: Fx,
    pub ask: AskView,
}

pub open spec fn with_fx(fx: Fx, t: Turn) -> Turn {
    Turn { fx: plus(fx, t.fx), ..t }
}

/// Both ends of all pipes.
pub open spec fn link_ends(links: Seq<(i64, i64)>) -> Seq<i64>
    decreases links.len(),
{
    if links.len() == 0 {
        Seq::empty()
    } else {
        link_ends(links.drop_last()).push(links.last().0).push(links.last().1)
    }
}

/// The ends that texts are to be written to.
pub open spec fn body_ends(bodies: Seq<(i64, Seq<u8>)>) -> Seq<i64> {
    Seq::new(bodies.len(), |i: int| bodies[i].0)
}

/// The pipeline without what belongs to the stage that was being started.
pub open spec fn off_stage(p: PipeView) -> PipeView {
    PipeView {
        fds: redirect::no_fds(),
        stage_bodies: Seq::empty(),
        entries: Seq::empty(),
        stage_grants: Seq::empty(),
        ..p
    }
}

/// All that belongs to the stage that was being started is closed and
/// cancelled.
pub open spec fn drop_stage(p: PipeView, err: Seq<u8>) -> Fx {
    Fx {
        close: redirect::distinct(p.fds) + body_ends(p.stage_bodies),
        cancel: p.stage_grants,
        err,
        out: Seq::empty(),
    }
}

/// The pipeline cannot be run: everything is closed and cancelled.
pub open spec fn given_up(p: PipeView, err: Seq<u8>) -> Turn {
    Turn {
        p: PipeView {
            links: Seq::empty(),
            bodies: Seq::empty(),
            grants: Seq::empty(),
            phase: Phase::Over,
            ..off_stage(p)
        },
        fx: plus(
            drop_stage(p, err),
            Fx {
                close: link_ends(p.links) + body_ends(p.bodies),
                cancel: p.grants,
                err: Seq::empty(),
                out: Seq::empty(),
            },
        ),
        ask: AskView::Finished(1),
    }
}

/// What a stage is connected to: the pipes before and behind it.
pub open spec fn seed_of(p: PipeView) -> Seq<i64> {
    seq![
        if p.at > 0 {
            p.links[p.at - 1].0
        } else {
            NO_FD
        },
        if p.at + 1 < p.n {
            p.links[p.at].1
        } else {
            NO_FD
        },
        NO_FD,
    ]
}

/// To the next stage, or to the end: the shell's own ends of the pipes are
/// closed.
pub open spec fn to_stage(p: PipeView) -> Turn {
    if p.at < p.n {
        Turn {
            p: PipeView { phase: Phase::Opening, ..p },
            fx: no_fx(),
            ask: AskView::Open { seed: seed_of(p) },
        }
    } else {
        Turn {
            p: PipeView {
                links: Seq::empty(),
                bodies: Seq::empty(),
                phase: Phase::Waiting,
                ..p
            },
            fx: Fx { close: link_ends(p.links), ..no_fx() },
            ask: AskView::Feed { bodies: p.bodies, chans: p.chans },
        }
    }
}

/// The last redirection of a stream; -1 if it has none.
pub open spec fn slot_source(redirs: Seq<RedirectView>, slot: u8) -> int
    decreases redirs.len(),
{
    if redirs.len() == 0 {
        -1
    } else if redirs.last().slot == slot {
        redirs.len() - 1
    } else {
        slot_source(redirs.drop_last(), slot)
    }
}

/// The text that a stream is to read from, if its last redirection is a
/// here-document.
pub open spec fn heredoc_on(redirs: Seq<RedirectView>, slot: u8) -> Option<Seq<u8>> {
    let i = slot_source(redirs, slot);
    if i >= 0 && redirs[i].heredoc {
        match redirs[i].body {
            Some(b) => Some(b),
            None => Some(Seq::empty()),
        }
    } else {
        None
    }
}

/// To the here-document on the first stream from `s` on that has one, then to
/// the grants.
pub open spec fn to_heredoc(p: PipeView, stages: Seq<StageView>, s: int) -> Turn
    decreases 3 - s,
{
    if s >= 3 || s < 0 {
        to_grant(p, stages, 0)
    } else if heredoc_on(stages[p.at].redirs, s as u8) is Some {
        Turn {
            p: PipeView { phase: Phase::Heredoc(s as u8), ..p },
            fx: no_fx(),
            ask: AskView::Pipe,
        }
    } else {
        to_heredoc(p, stages, s + 1)
    }
}

/// To the grant for the first stream from `s` on that needs one, then to the
/// start. An error stream that is the output stream needs none.
pub open spec fn to_grant(p: PipeView, stages: Seq<StageView>, s: int) -> Turn
    decreases 3 - s,
{
    if s >= 3 || s < 0 {
        ready(p, stages)
    } else if p.fds[s] < 0 {
        to_grant(p, stages, s + 1)
    } else if s == 2 && p.fds[2] == p.fds[1] {
        ready(
            PipeView { entries: p.entries.push(Entry::Alias { vfd: 2, target: 1 }), ..p },
            stages,
        )
    } else {
        Turn {
            p: PipeView { phase: Phase::Granting(s as u8), ..p },
            fx: no_fx(),
            ask: AskView::Grant(p.fds[s]),
        }
    }
}

/// Whether a command is a program, not one of the shell's own.
pub open spec fn is_program(argv: Seq<Seq<u8>>) -> bool {
    argv[0] == bytes::lit("run") || !builtins::is_builtin_name(argv[0])
}

/// The program of a command and its arguments.
pub open spec fn program_of(argv: Seq<Seq<u8>>) -> (Seq<u8>, Seq<Seq<u8>>) {
    if argv[0] == bytes::lit("run") {
        (argv[1], argv.skip(2))
    } else {
        (argv[0], argv.skip(1))
    }
}

/// The stage has its streams: a command that is nothing but redirections is
/// done, a program is loaded, a command of the shell is started.
pub open spec fn ready(p: PipeView, stages: Seq<StageView>) -> Turn {
    let argv = stages[p.at].argv;
    if argv.len() == 0 {
        with_fx(
            drop_stage(p, Seq::empty()),
            to_stage(
                PipeView {
                    codes: p.codes.update(p.at, Some(0)),
                    at: p.at + 1,
                    ..off_stage(p)
                },
            ),
        )
    } else if !is_program(argv) {
        Turn {
            p: PipeView { phase: Phase::Spawning { program: false }, ..p },
            fx: no_fx(),
            ask: AskView::SpawnBuiltin,
        }
    } else if argv[0] == bytes::lit("run") && argv.len() < 2 {
        given_up(p, bytes::lit("run: usage: run <path> [args...]\n"))
    } else {
        Turn {
            p: PipeView { phase: Phase::Loading, ..p },
            fx: no_fx(),
            ask: AskView::Load { prog: program_of(argv).0, rest: program_of(argv).1 },
        }
    }
}

// ── The answers ──

/// A pipe was asked for.
pub open spec fn piped(p: PipeView, stages: Seq<StageView>, pipe: Option<(i64, i64)>) -> Turn {
    match (p.phase, pipe) {
        (Phase::Heredoc(s), Some((r, w))) => {
            let old = p.fds[s as int];
            let close = if old >= 0 && !link_ends(p.links).contains(old) {
                seq![old]
            } else {
                Seq::empty()
            };
            let body = heredoc_on(stages[p.at].redirs, s)->0;
            with_fx(
                Fx { close, ..no_fx() },
                to_heredoc(
                    PipeView {
                        fds: p.fds.update(s as int, r),
                        stage_bodies: p.stage_bodies.push((w, body)),
                        ..p
                    },
                    stages,
                    s + 1,
                ),
            )
        },
        (Phase::Heredoc(s), None) => given_up(
            p,
            redirect::open_error_text(
                stages[p.at].redirs[slot_source(stages[p.at].redirs, s)].target,
                OpenError::Other,
            ),
        ),
        (_, Some(link)) => {
            let q = PipeView { links: p.links.push(link), ..p };
            if q.links.len() + 1 < p.n {
                Turn { p: q, fx: no_fx(), ask: AskView::Pipe }
            } else {
                to_stage(q)
            }
        },
        (_, None) => given_up(p, bytes::lit("pipe: creazione fallita\n")),
    }
}

/// The files of a stage were to be opened.
pub open spec fn opened(
    p: PipeView,
    stages: Seq<StageView>,
    fds: Option<Seq<i64>>,
    err: Seq<u8>,
) -> Turn {
    match fds {
        Some(f) => to_heredoc(PipeView { fds: f, ..p }, stages, 0),
        None => given_up(p, err),
    }
}

/// A grant for the stream `s` was asked for.
pub open spec fn granted(
    p: PipeView,
    stages: Seq<StageView>,
    s: u8,
    nonce: Option<u64>,
) -> Turn {
    match nonce {
        Some(n) => to_grant(
            PipeView {
                stage_grants: p.stage_grants.push(n),
                entries: p.entries.push(Entry::Grant { vfd: s, nonce: n }),
                ..p
            },
            stages,
            s + 1,
        ),
        None => given_up(p, bytes::lit("pipe: redirect grant failed\n")),
    }
}

/// What is said when a program cannot be loaded: why, and that the command is
/// unknown if it was just a name.
pub open spec fn load_complaint(argv: Seq<Seq<u8>>, err: Seq<u8>) -> Seq<u8> {
    if argv[0] != bytes::lit("run") && !argv[0].contains(47u8) {
        err + bytes::lit("unknown command: ") + argv[0] + bytes::lit("\n")
    } else {
        err
    }
}

/// A program was to be loaded.
pub open spec fn loaded(p: PipeView, stages: Seq<StageView>, err: Option<Seq<u8>>) -> Turn {
    match err {
        None => Turn {
            p: PipeView { phase: Phase::Spawning { program: true }, ..p },
            fx: no_fx(),
            ask: AskView::SpawnProgram,
        },
        Some(e) => given_up(p, load_complaint(stages[p.at].argv, e)),
    }
}

/// Why a stage could not be started.
#[derive(Clone, Copy, PartialEq, Eq, Debug, Structural)]
pub enum SpawnError {
    /// Its arguments and environment are too long.
    TooLong,
    Fork,
}

pub open spec fn spawn_complaint(program: bool, e: SpawnError) -> Seq<u8> {
    match (e, program) {
        (SpawnError::TooLong, _) => bytes::lit("run: argv troppo lunghi\n"),
        (SpawnError::Fork, true) => bytes::lit("run: fork failed\n"),
        (SpawnError::Fork, false) => bytes::lit("pipe: fork failed\n"),
    }
}

/// A stage was to be started; its channel, if it was.
pub open spec fn spawned(p: PipeView, program: bool, chan: Result<u64, SpawnError>) -> Turn {
    match chan {
        Ok(c) => with_fx(
            Fx { close: redirect::distinct(p.fds), ..no_fx() },
            to_stage(
                PipeView {
                    bodies: p.bodies + p.stage_bodies,
                    grants: p.grants + p.stage_grants,
                    stage_of: p.stage_of.push(p.at as usize),
                    chans: p.chans.push(c),
                    at: p.at + 1,
                    ..off_stage(p)
                },
            ),
        ),
        Err(e) => given_up(p, spawn_complaint(program, e)),
    }
}

/// The codes of the stages, given those of the ones that were started.
pub open spec fn stage_codes(
    codes: Seq<Option<i64>>,
    stage_of: Seq<usize>,
    got: Seq<Option<i64>>,
) -> Seq<Option<i64>>
    decreases got.len(),
{
    if got.len() == 0 {
        codes
    } else if got.len() > stage_of.len() {
        stage_codes(codes, stage_of, got.drop_last())
    } else {
        stage_codes(codes, stage_of, got.drop_last()).update(
            stage_of[got.len() - 1] as int,
            got.last(),
        )
    }
}

/// The code of a pipeline: that of its last stage.
pub open spec fn last_code(codes: Seq<Option<i64>>) -> i64 {
    match codes.last() {
        Some(c) => c,
        None => 1,
    }
}

/// All stages ended.
pub open spec fn ended(p: PipeView, got: Seq<Option<i64>>) -> Turn {
    let codes = stage_codes(p.codes, p.stage_of, got);
    Turn {
        p: PipeView { codes, grants: Seq::empty(), phase: Phase::Over, ..p },
        fx: Fx { cancel: p.grants, out: jobs::exit_text(last_code(codes)), ..no_fx() },
        ask: AskView::Finished(last_code(codes)),
    }
}

// ── Carried out ──

/// A turn was taken: the pipeline, the effects and what is asked for are as the
/// turn says.
pub open spec fn turned(fx0: Fx, p: PipeView, fx: Fx, ask: AskView, t: Turn) -> bool {
    &&& p == t.p
    &&& fx == plus(fx0, t.fx)
    &&& ask == t.ask
}

/// What holds of a pipeline between turns.
pub open spec fn sound(p: PipeView, stages: Seq<StageView>) -> bool {
    &&& p.n == stages.len()
    &&& p.n >= 1
    &&& p.fds.len() == 3
    &&& p.codes.len() == p.n
    &&& p.stage_of.len() == p.chans.len()
    &&& forall|i: int| 0 <= i < p.stage_of.len() ==> (#[trigger] p.stage_of[i]) < p.n
    &&& 0 <= p.at <= p.n
    &&& match p.phase {
        Phase::Linking => {
            &&& p.at == 0
            &&& p.links.len() + 1 < p.n
            &&& p == off_stage(p)
        },
        Phase::Opening => {
            &&& p.links.len() + 1 == p.n
            &&& p.at < p.n
            &&& p == off_stage(p)
        },
        Phase::Over => true,
        Phase::Waiting => {
            &&& p.at == p.n
            &&& p == off_stage(p)
            &&& p.links.len() == 0
            &&& p.bodies.len() == 0
        },
        Phase::Heredoc(s) => {
            &&& p.links.len() + 1 == p.n
            &&& p.at < p.n
            &&& s < 3
            &&& heredoc_on(stages[p.at].redirs, s) is Some
        },
        Phase::Granting(s) => {
            &&& p.links.len() + 1 == p.n
            &&& p.at < p.n
            &&& s < 3
        },
        Phase::Loading => {
            &&& p.links.len() + 1 == p.n
            &&& p.at < p.n
            &&& stages[p.at].argv.len() > 0
        },
        _ => {
            &&& p.links.len() + 1 == p.n
            &&& p.at < p.n
        },
    }
}

fn append_links(v: &mut Vec<i64>, links: &Vec<(i64, i64)>)
    ensures
        final(v)@ == old(v)@ + link_ends(links@),
{
    let ghost v0 = v@;
    let mut i: usize = 0;
    assert(links@.take(0) =~= Seq::empty());
    assert(v0 + link_ends(links@.take(0)) =~= v0);
    while i < links.len()
        invariant
            i <= links@.len(),
            v@ == v0 + link_ends(links@.take(i as int)),
        decreases links.len() - i,
    {
        let ghost v1 = v@;
        v.push(links[i].0);
        v.push(links[i].1);
        assert(links@.take(i + 1).drop_last() =~= links@.take(i as int));
        assert(links@.take(i + 1).last() == links@[i as int]);
        i = i + 1;
        assert(v@ =~= v0 + link_ends(links@.take(i as int)));
    }
    assert(links@.take(links@.len() as int) =~= links@);
}

fn append_ends(v: &mut Vec<i64>, bodies: &Vec<(i64, Vec<u8>)>)
    ensures
        final(v)@ == old(v)@ + body_ends(body_views(bodies@)),
{
    let ghost v0 = v@;
    let ghost ends = body_ends(body_views(bodies@));
    let mut i: usize = 0;
    assert(v0 + ends.take(0) =~= v0);
    while i < bodies.len()
        invariant
            i <= bodies@.len(),
            ends == body_ends(body_views(bodies@)),
            v@ == v0 + ends.take(i as int),
        decreases bodies.len() - i,
    {
        v.push(bodies[i].0);
        i = i + 1;
        assert(v@ =~= v0 + ends.take(i as int));
    }
    assert(ends.take(ends.len() as int) =~= ends);
}

fn append_bodies(v: &mut Vec<(i64, Vec<u8>)>, more: &Vec<(i64, Vec<u8>)>)
    ensures
        body_views(final(v)@) == body_views(old(v)@) + body_views(more@),
{
    let ghost v0 = body_views(v@);
    let ghost m = body_views(more@);
    let mut i: usize = 0;
    assert(v0 + m.take(0) =~= v0);
    while i < more.len()
        invariant
            i <= more@.len(),
            m == body_views(more@),
            body_views(v@) == v0 + m.take(i as int),
        decreases more.len() - i,
    {
        let ghost v1 = v@;
        let b: Vec<u8> = copy_of(&more[i].1);
        v.push((more[i].0, b));
        assert(body_views(v@) =~= body_views(v1).push(m[i as int]));
        i = i + 1;
        assert(m.take(i as int) =~= m.take(i - 1).push(m[i - 1]));
        assert(body_views(v@) =~= v0 + m.take(i as int));
    }
    assert(m.take(m.len() as int) =~= m);
}

fn in_links(links: &Vec<(i64, i64)>, fd: i64) -> (r: bool)
    ensures
        r == link_ends(links@).contains(fd),
{
    let mut i: usize = 0;
    assert(links@.take(0) =~= Seq::empty());
    while i < links.len()
        invariant
            i <= links@.len(),
            !link_ends(links@.take(i as int)).contains(fd),
        decreases links.len() - i,
    {
        assert(links@.take(i + 1).drop_last() =~= links@.take(i as int));
        let ghost e0 = link_ends(links@.take(i as int));
        let ghost e1 = link_ends(links@.take(i + 1));
        assert(e1 == e0.push(links@[i as int].0).push(links@[i as int].1));
        if links[i].0 == fd || links[i].1 == fd {
            proof {
                if links@[i as int].0 == fd {
                    assert(e1[e0.len() as int] == fd);
                } else {
                    assert(e1[e0.len() as int + 1] == fd);
                }
                lemma_link_ends_grow(links@, i + 1, fd);
            }
            return true;
        }
        assert(!e1.contains(fd)) by {
            if e1.contains(fd) {
                let k = e1.index_of(fd);
                if k < e0.len() {
                    assert(e0[k] == fd);
                }
            }
        }
        i = i + 1;
    }
    assert(links@.take(links@.len() as int) =~= links@);
    false
}

proof fn lemma_link_ends_grow(links: Seq<(i64, i64)>, i: int, fd: i64)
    requires
        0 <= i <= links.len(),
        link_ends(links.take(i)).contains(fd),
    ensures
        link_ends(links).contains(fd),
    decreases links.len() - i,
{
    if i == links.len() {
        assert(links.take(i) =~= links);
    } else {
        let e0 = link_ends(links.take(i));
        let e1 = link_ends(links.take(i + 1));
        assert(links.take(i + 1).drop_last() =~= links.take(i));
        let k = e0.index_of(fd);
        assert(e1[k] == fd);
        lemma_link_ends_grow(links, i + 1, fd);
    }
}

impl Effects {
    pub fn new() -> (r: Effects)
        ensures
            r@ == no_fx(),
    {
        let r = Effects {
            close: Vec::new(),
            cancel: Vec::new(),
            err: Vec::new(),
            out: Vec::new(),
        };
        assert(r@ =~= no_fx());
        r
    }
}

impl Pipeline {
    /// Takes what belongs to the stage off, and closes and cancels it.
    fn leave_stage(&mut self, fx: &mut Effects, err: &[u8])
        ensures
            final(self)@ == off_stage(old(self)@),
            final(fx)@ == plus(old(fx)@, drop_stage(old(self)@, err@)),
    {
        let ghost p0 = self@;
        let ghost f0 = fx@;
        let c: Vec<i64> = close_all(&self.fds);
        append_fds(&mut fx.close, &c);
        append_ends(&mut fx.close, &self.stage_bodies);
        append_all(&mut fx.cancel, &self.stage_grants);
        append_bytes(&mut fx.err, err);
        self.clear_stage();
        assert(fx@ =~= plus(f0, drop_stage(p0, err@)));
    }

    fn clear_stage(&mut self)
        ensures
            final(self)@ == off_stage(old(self)@),
    {
        let ghost p0 = self@;
        self.fds = [NO_FD, NO_FD, NO_FD];
        self.stage_bodies = Vec::new();
        self.entries = Vec::new();
        self.stage_grants = Vec::new();
        assert(self@ =~= off_stage(p0));
    }

    fn give_up(&mut self, fx: &mut Effects, err: &[u8]) -> (r: Ask)
        ensures
            turned(old(fx)@, final(self)@, final(fx)@, r@, given_up(old(self)@, err@)),
    {
        let ghost p0 = self@;
        let ghost f0 = fx@;
        self.leave_stage(fx, err);
        append_links(&mut fx.close, &self.links);
        append_ends(&mut fx.close, &self.bodies);
        append_all(&mut fx.cancel, &self.grants);
        self.links = Vec::new();
        self.bodies = Vec::new();
        self.grants = Vec::new();
        self.phase = Phase::Over;
        assert(self@ =~= given_up(p0, err@).p);
        assert(fx@ =~= plus(f0, given_up(p0, err@).fx));
        Ask::Finished(1)
    }

    fn go_to_stage(&mut self, fx: &mut Effects) -> (r: Ask)
        requires
            old(self).at < old(self).n ==> old(self).links@.len() + 1 == old(self).n,
        ensures
            turned(old(fx)@, final(self)@, final(fx)@, r@, to_stage(old(self)@)),
    {
        let ghost p0 = self@;
        let ghost f0 = fx@;
        if self.at < self.n {
            let before: i64 = if self.at > 0 {
                self.links[self.at - 1].0
            } else {
                NO_FD
            };
            let behind: i64 = if self.at + 1 < self.n {
                self.links[self.at].1
            } else {
                NO_FD
            };
            self.phase = Phase::Opening;
            let seed: Fds = [before, behind, NO_FD];
            assert(seed@ =~= seed_of(p0));
            assert(self@ =~= to_stage(p0).p);
            assert(fx@ =~= plus(f0, no_fx()));
            return Ask::Open { seed };
        }
        append_links(&mut fx.close, &self.links);
        self.links = Vec::new();
        let mut bodies: Vec<(i64, Vec<u8>)> = Vec::new();
        append_bodies(&mut bodies, &self.bodies);
        assert(body_views(bodies@) =~= p0.bodies);
        self.bodies = Vec::new();
        self.phase = Phase::Waiting;
        let mut chans: Vec<u64> = Vec::new();
        append_all(&mut chans, &self.chans);
        assert(chans@ =~= p0.chans);
        assert(self@ =~= to_stage(p0).p);
        assert(fx@ =~= plus(f0, to_stage(p0).fx));
        Ask::Feed { bodies, chans }
    }

    fn be_ready(&mut self, stages: &Vec<Stage>, fx: &mut Effects) -> (r: Ask)
        requires
            old(self).n == stages@.len(),
            old(self).links@.len() + 1 == old(self).n,
            old(self).at < old(self).n,
            old(self).codes@.len() == old(self).n,
        ensures
            turned(
                old(fx)@,
                final(self)@,
                final(fx)@,
                r@,
                ready(old(self)@, stage_views(stages@)),
            ),
    {
        let ghost p0 = self@;
        let ghost f0 = fx@;
        let ghost sv = stage_views(stages@);
        let at: usize = self.at;
        let argv: &Vec<Vec<u8>> = &stages[at].argv;
        assert(sv[p0.at].argv == bytes::views(argv@));
        if argv.len() == 0 {
            let none: Vec<u8> = Vec::new();
            self.leave_stage(fx, &none);
            assert(none@ =~= Seq::empty());
            self.codes.set(at, Some(0));
            self.at = at + 1;
            let ghost q = PipeView {
                codes: p0.codes.update(p0.at, Some(0)),
                at: p0.at + 1,
                ..off_stage(p0)
            };
            assert(self@ =~= q);
            let ghost f1 = fx@;
            let r: Ask = self.go_to_stage(fx);
            assert(fx@ =~= plus(f0, ready(p0, sv).fx));
            return r;
        }
        let run: bool = is_str(&argv[0], "run");
        assert(sv[p0.at].argv[0] == argv@[0]@);
        if !run && is_builtin(&argv[0]) {
            self.phase = Phase::Spawning { program: false };
            assert(self@ =~= ready(p0, sv).p);
            assert(fx@ =~= plus(f0, no_fx()));
            return Ask::SpawnBuiltin;
        }
        assert(is_program(sv[p0.at].argv)) by {
            if run {
                assert(argv@[0]@ == bytes::lit("run"));
            }
        }
        if run && argv.len() < 2 {
            return self.give_up(fx, "run: usage: run <path> [args...]\n".as_bytes());
        }
        let from: usize = if run {
            2
        } else {
            1
        };
        let prog: Vec<u8> = copy_of(&argv[from - 1]);
        let mut rest: Vec<Vec<u8>> = Vec::new();
        let mut i: usize = from;
        let ghost all = bytes::views(argv@);
        assert(bytes::views(rest@) =~= all.subrange(from as int, from as int));
        while i < argv.len()
            invariant
                from <= i <= argv@.len(),
                all == bytes::views(argv@),
                bytes::views(rest@) == all.subrange(from as int, i as int),
            decreases argv.len() - i,
        {
            broadcast use bytes::lemma_views_push;

            rest.push(copy_of(&argv[i]));
            i = i + 1;
            assert(bytes::views(rest@) =~= all.subrange(from as int, i as int));
        }
        assert(bytes::views(rest@) =~= all.skip(from as int));
        self.phase = Phase::Loading;
        assert(self@ =~= ready(p0, sv).p);
        assert(fx@ =~= plus(f0, no_fx()));
        Ask::Load { prog, rest }
    }

    fn go_to_grant(&mut self, stages: &Vec<Stage>, from: u8, fx: &mut Effects) -> (r: Ask)
        requires
            old(self).n == stages@.len(),
            old(self).links@.len() + 1 == old(self).n,
            old(self).at < old(self).n,
            old(self).codes@.len() == old(self).n,
            from <= 3,
        ensures
            turned(
                old(fx)@,
                final(self)@,
                final(fx)@,
                r@,
                to_grant(old(self)@, stage_views(stages@), from as int),
            ),
    {
        let ghost p0 = self@;
        let ghost f0 = fx@;
        let ghost sv = stage_views(stages@);
        let mut s: u8 = from;
        assert(self.fds@.len() == 3);
        while s < 3
            invariant
                from <= s <= 3,
                self@ == p0,
                self@ == old(self)@,
                *fx == *old(fx),
                f0 == fx@,
                sv == stage_views(stages@),
                self.fds@.len() == 3,
                self.n == stages@.len(),
                self.links@.len() + 1 == self.n,
                self.at < self.n,
                self.codes@.len() == self.n,
                to_grant(p0, sv, s as int) == to_grant(p0, sv, from as int),
            decreases 3 - s,
        {
            let fd: i64 = self.fds[s as usize];
            assert(fd == p0.fds[s as int]);
            if fd >= 0 {
                if s == 2 && fd == self.fds[1] {
                    self.entries.push(Entry::Alias { vfd: 2, target: 1 });
                    let ghost q = PipeView {
                        entries: p0.entries.push(Entry::Alias { vfd: 2, target: 1 }),
                        ..p0
                    };
                    assert(self@ =~= q);
                    return self.be_ready(stages, fx);
                }
                self.phase = Phase::Granting(s);
                assert(self@ =~= to_grant(p0, sv, s as int).p);
                assert(fx@ =~= plus(f0, no_fx()));
                return Ask::Grant(fd);
            }
            s = s + 1;
        }
        self.be_ready(stages, fx)
    }

    fn go_to_heredoc(&mut self, stages: &Vec<Stage>, from: u8, fx: &mut Effects) -> (r: Ask)
        requires
            old(self).n == stages@.len(),
            old(self).links@.len() + 1 == old(self).n,
            old(self).at < old(self).n,
            old(self).codes@.len() == old(self).n,
            from <= 3,
        ensures
            turned(
                old(fx)@,
                final(self)@,
                final(fx)@,
                r@,
                to_heredoc(old(self)@, stage_views(stages@), from as int),
            ),
    {
        let ghost p0 = self@;
        let ghost f0 = fx@;
        let ghost sv = stage_views(stages@);
        let mut s: u8 = from;
        while s < 3
            invariant
                from <= s <= 3,
                self@ == p0,
                self@ == old(self)@,
                *fx == *old(fx),
                f0 == fx@,
                sv == stage_views(stages@),
                self.n == stages@.len(),
                self.links@.len() + 1 == self.n,
                self.at < self.n,
                self.codes@.len() == self.n,
                to_heredoc(p0, sv, s as int) == to_heredoc(p0, sv, from as int),
            decreases 3 - s,
        {
            assert(sv[p0.at].redirs == redirect::redirect_views(stages@[p0.at].redirs@));
            let src: Option<usize> = source_of(&stages[self.at].redirs, s);
            if let Some(i) = src {
                assert(sv[p0.at].redirs[i as int] == stages@[p0.at].redirs@[i as int]@);
                if stages[self.at].redirs[i].heredoc {
                    self.phase = Phase::Heredoc(s);
                    assert(self@ =~= to_heredoc(p0, sv, s as int).p);
                    assert(fx@ =~= plus(f0, no_fx()));
                    return Ask::Pipe;
                }
            }
            s = s + 1;
        }
        self.go_to_grant(stages, 0, fx)
    }

    /// Starts a pipeline.
    pub fn cmd_pipeline(stages: &Vec<Stage>, fx: &mut Effects) -> (r: (Pipeline, Ask))
        ensures
            ({
                let sv = stage_views(stages@);
                let (p, ask) = r;
                if sv.len() == 0 {
                    &&& ask@ == AskView::Finished(0)
                    &&& final(fx)@ == old(fx)@
                } else if exists|i: int| 0 <= i < sv.len() && (#[trigger] sv[i]).bg {
                    &&& ask@ == AskView::Finished(1)
                    &&& final(fx)@ == plus(
                        old(fx)@,
                        Fx {
                            err: bytes::lit(
                                "background pipeline: non supportata (usare `run ... &`)\n",
                            ),
                            ..no_fx()
                        },
                    )
                } else if sv.len() == 1 {
                    turned(old(fx)@, p@, final(fx)@, ask@, to_stage(fresh(1)))
                } else {
                    &&& p@ == fresh(sv.len() as int)
                    &&& ask@ == AskView::Pipe
                    &&& final(fx)@ == old(fx)@
                }
            }),
            !(r.1@ is Finished) ==> sound(r.0@, stage_views(stages@)),
    {
        let ghost f0 = fx@;
        let ghost sv = stage_views(stages@);
        let n: usize = stages.len();
        let mut codes: Vec<Option<i64>> = Vec::new();
        let mut bg: bool = false;
        let mut i: usize = 0;
        while i < n
            invariant
                i <= n,
                n == stages@.len(),
                sv == stage_views(stages@),
                codes@.len() == i,
                forall|k: int| 0 <= k < i ==> #[trigger] codes@[k] is None,
                bg == exists|k: int| 0 <= k < i && (#[trigger] sv[k]).bg,
            decreases n - i,
        {
            assert(sv[i as int] == stages@[i as int]@);
            if stages[i].bg {
                bg = true;
            }
            codes.push(None);
            i = i + 1;
        }
        let mut p = Pipeline {
            n,
            links: Vec::new(),
            at: 0,
            fds: [NO_FD, NO_FD, NO_FD],
            stage_bodies: Vec::new(),
            entries: Vec::new(),
            stage_grants: Vec::new(),
            grants: Vec::new(),
            bodies: Vec::new(),
            chans: Vec::new(),
            stage_of: Vec::new(),
            codes,
            phase: Phase::Linking,
        };
        assert(p@ =~= fresh(n as int));
        if n == 0 {
            return (p, Ask::Finished(0));
        }
        if bg {
            push_str(
                &mut fx.err,
                "background pipeline: non supportata (usare `run ... &`)\n",
            );
            assert(fx@ =~= plus(
                f0,
                Fx {
                    err: bytes::lit("background pipeline: non supportata (usare `run ... &`)\n"),
                    ..no_fx()
                },
            ));
            return (p, Ask::Finished(1));
        }
        if n == 1 {
            let r: Ask = p.go_to_stage(fx);
            return (p, r);
        }
        (p, Ask::Pipe)
    }

    /// Goes on with the pipe that was asked for.
    pub fn piped(&mut self, stages: &Vec<Stage>, pipe: Option<(i64, i64)>, fx: &mut Effects) -> (r:
        Ask)
        requires
            sound(old(self)@, stage_views(stages@)),
            old(self).phase is Linking || old(self).phase is Heredoc,
        ensures
            turned(
                old(fx)@,
                final(self)@,
                final(fx)@,
                r@,
                piped(old(self)@, stage_views(stages@), pipe),
            ),
            sound(final(self)@, stage_views(stages@)),
    {
        let ghost p0 = self@;
        let ghost f0 = fx@;
        let ghost sv = stage_views(stages@);
        proof {
            lemma_turns_sound(p0, sv);
        }
        match self.phase {
            Phase::Heredoc(s) => {
                assert(sv[p0.at].redirs == redirect::redirect_views(stages@[p0.at].redirs@));
                let src: Option<usize> = source_of(&stages[self.at].redirs, s);
                let i: usize = match src {
                    Some(i) => i,
                    None => 0,
                };
                assert(i == slot_source(sv[p0.at].redirs, s));
                let rd: &Redirect = &stages[self.at].redirs[i];
                assert(sv[p0.at].redirs[i as int] == rd@);
                match pipe {
                    Some((r, w)) => {
                        let old_fd: i64 = self.fds[s as usize];
                        if old_fd >= 0 {
                            if !in_links(&self.links, old_fd) {
                                fx.close.push(old_fd);
                            }
                        }
                        let ghost close = if p0.fds[s as int] >= 0 && !link_ends(p0.links).contains(
                            p0.fds[s as int],
                        ) {
                            seq![p0.fds[s as int]]
                        } else {
                            Seq::empty()
                        };
                        assert(fx@ =~= plus(f0, Fx { close, ..no_fx() }));
                        self.fds[s as usize] = r;
                        let body: Vec<u8> = match &rd.body {
                            Some(b) => copy_of(b),
                            None => Vec::new(),
                        };
                        assert(heredoc_on(sv[p0.at].redirs, s) == Some(body@)) by {
                            if rd.body is None {
                                assert(body@ =~= Seq::empty());
                            }
                        }
                        let ghost bv = body@;
                        self.stage_bodies.push((w, body));
                        let ghost q = PipeView {
                            fds: p0.fds.update(s as int, r),
                            stage_bodies: p0.stage_bodies.push((w, bv)),
                            ..p0
                        };
                        assert(self@ =~= q);
                        let ghost f1 = fx@;
                        let ask: Ask = self.go_to_heredoc(stages, s + 1, fx);
                        assert(fx@ =~= plus(f0, piped(p0, sv, pipe).fx));
                        proof {
                            lemma_heredoc_sound(q, sv, s + 1);
                        }
                        ask
                    },
                    None => {
                        let t: Vec<u8> = report_open_error(&rd.target, OpenError::Other);
                        self.give_up(fx, &t)
                    },
                }
            },
            _ => match pipe {
                Some(link) => {
                    self.links.push(link);
                    assert(self@ =~= PipeView { links: p0.links.push(link), ..p0 });
                    if self.links.len() + 1 < self.n {
                        assert(fx@ =~= plus(f0, no_fx()));
                        Ask::Pipe
                    } else {
                        self.go_to_stage(fx)
                    }
                },
                None => self.give_up(fx, "pipe: creazione fallita\n".as_bytes()),
            },
        }
    }

    /// Goes on with the stage's files: its streams, or what is said of the file
    /// that could not be opened.
    pub fn opened(&mut self, stages: &Vec<Stage>, fds: Option<Fds>, err: &[u8], fx: &mut Effects) -> (r:
        Ask)
        requires
            sound(old(self)@, stage_views(stages@)),
            old(self).phase is Opening,
        ensures
            turned(
                old(fx)@,
                final(self)@,
                final(fx)@,
                r@,
                opened(
                    old(self)@,
                    stage_views(stages@),
                    match fds {
                        Some(f) => Some(f@),
                        None => None,
                    },
                    err@,
                ),
            ),
            sound(final(self)@, stage_views(stages@)),
    {
        let ghost p0 = self@;
        let ghost sv = stage_views(stages@);
        proof {
            lemma_turns_sound(p0, sv);
        }
        match fds {
            Some(f) => {
                self.fds = f;
                let ghost q = PipeView { fds: f@, ..p0 };
                assert(self@ =~= q);
                assert(f@.len() == 3);
                proof {
                    lemma_heredoc_sound(q, sv, 0);
                }
                self.go_to_heredoc(stages, 0, fx)
            },
            None => self.give_up(fx, err),
        }
    }

    /// Goes on with the grant that was asked for.
    pub fn granted(&mut self, stages: &Vec<Stage>, nonce: Option<u64>, fx: &mut Effects) -> (r: Ask)
        requires
            sound(old(self)@, stage_views(stages@)),
            old(self).phase is Granting,
        ensures
            turned(
                old(fx)@,
                final(self)@,
                final(fx)@,
                r@,
                granted(old(self)@, stage_views(stages@), old(self).phase->Granting_0, nonce),
            ),
            sound(final(self)@, stage_views(stages@)),
    {
        let ghost p0 = self@;
        let ghost sv = stage_views(stages@);
        proof {
            lemma_turns_sound(p0, sv);
        }
        let s: u8 = match self.phase {
            Phase::Granting(s) => s,
            _ => 0,
        };
        match nonce {
            Some(n) => {
                self.stage_grants.push(n);
                self.entries.push(Entry::Grant { vfd: s, nonce: n });
                let ghost q = PipeView {
                    stage_grants: p0.stage_grants.push(n),
                    entries: p0.entries.push(Entry::Grant { vfd: s, nonce: n }),
                    ..p0
                };
                assert(self@ =~= q);
                proof {
                    lemma_grant_sound(q, sv, s + 1);
                }
                self.go_to_grant(stages, s + 1, fx)
            },
            None => self.give_up(fx, "pipe: redirect grant failed\n".as_bytes()),
        }
    }

    /// Goes on with the program that was to be loaded, or with what is said of
    /// it if it could not be.
    pub fn loaded(&mut self, stages: &Vec<Stage>, err: Option<Vec<u8>>, fx: &mut Effects) -> (r: Ask)
        requires
            sound(old(self)@, stage_views(stages@)),
            old(self).phase is Loading,
        ensures
            turned(
                old(fx)@,
                final(self)@,
                final(fx)@,
                r@,
                loaded(old(self)@, stage_views(stages@), load::maybe(err)),
            ),
            sound(final(self)@, stage_views(stages@)),
    {
        let ghost p0 = self@;
        let ghost f0 = fx@;
        let ghost sv = stage_views(stages@);
        proof {
            lemma_turns_sound(p0, sv);
        }
        match err {
            None => {
                self.phase = Phase::Spawning { program: true };
                assert(self@ =~= PipeView { phase: Phase::Spawning { program: true }, ..p0 });
                assert(fx@ =~= plus(f0, no_fx()));
                Ask::SpawnProgram
            },
            Some(e) => {
                let mut t: Vec<u8> = copy_of(&e);
                let name: &Vec<u8> = &stages[self.at].argv[0];
                assert(sv[p0.at].argv[0] == name@);
                if !is_str(name, "run") && !has_byte(name, 47) {
                    push_str(&mut t, "unknown command: ");
                    append_bytes(&mut t, name);
                    push_str(&mut t, "\n");
                }
                assert(t@ =~= load_complaint(sv[p0.at].argv, e@));
                self.give_up(fx, &t)
            },
        }
    }

    /// Goes on with the stage that was to be started: its channel, or why it
    /// was not.
    pub fn spawned(&mut self, stages: &Vec<Stage>, chan: Result<u64, SpawnError>, fx: &mut Effects) -> (r:
        Ask)
        requires
            sound(old(self)@, stage_views(stages@)),
            old(self).phase is Spawning,
        ensures
            turned(
                old(fx)@,
                final(self)@,
                final(fx)@,
                r@,
                spawned(old(self)@, old(self).phase->program, chan),
            ),
            sound(final(self)@, stage_views(stages@)),
    {
        let ghost p0 = self@;
        let ghost f0 = fx@;
        let ghost sv = stage_views(stages@);
        proof {
            lemma_turns_sound(p0, sv);
        }
        let program: bool = match self.phase {
            Phase::Spawning { program } => program,
            _ => false,
        };
        match chan {
            Ok(c) => {
                let cl: Vec<i64> = close_all(&self.fds);
                append_fds(&mut fx.close, &cl);
                let ghost f1 = Fx { close: redirect::distinct(p0.fds), ..no_fx() };
                assert(fx@ =~= plus(f0, f1));
                append_bodies(&mut self.bodies, &self.stage_bodies);
                append_all(&mut self.grants, &self.stage_grants);
                self.stage_of.push(self.at);
                self.chans.push(c);
                self.at = self.at + 1;
                self.clear_stage();
                let ghost q = PipeView {
                    bodies: p0.bodies + p0.stage_bodies,
                    grants: p0.grants + p0.stage_grants,
                    stage_of: p0.stage_of.push(p0.at as usize),
                    chans: p0.chans.push(c),
                    at: p0.at + 1,
                    ..off_stage(p0)
                };
                assert(self@ =~= q);
                let ghost f2 = fx@;
                let r: Ask = self.go_to_stage(fx);
                assert(fx@ =~= plus(f0, spawned(p0, program, chan).fx));
                r
            },
            Err(e) => {
                let mut t: Vec<u8> = Vec::new();
                match (e, program) {
                    (SpawnError::TooLong, _) => push_str(&mut t, "run: argv troppo lunghi\n"),
                    (SpawnError::Fork, true) => push_str(&mut t, "run: fork failed\n"),
                    (SpawnError::Fork, false) => push_str(&mut t, "pipe: fork failed\n"),
                }
                assert(t@ =~= spawn_complaint(program, e));
                self.give_up(fx, &t)
            },
        }
    }

    /// Ends the pipeline with the codes of the stages that were started.
    pub fn ended(&mut self, stages: &Vec<Stage>, got: &Vec<Option<i64>>, fx: &mut Effects) -> (r: Ask)
        requires
            sound(old(self)@, stage_views(stages@)),
            old(self).phase is Waiting,
        ensures
            turned(old(fx)@, final(self)@, final(fx)@, r@, ended(old(self)@, got@)),
            sound(final(self)@, stage_views(stages@)),
    {
        let ghost p0 = self@;
        let ghost f0 = fx@;
        let mut k: usize = 0;
        assert(got@.take(0) =~= Seq::empty());
        while k < got.len()
            invariant
                k <= got@.len(),
                self.n == p0.n,
                self.n >= 1,
                self.codes@.len() == self.n,
                p0.codes.len() == self.n,
                self.stage_of@ == p0.stage_of,
                self@ == (PipeView { codes: self.codes@, ..p0 }),
                self.codes@ == stage_codes(p0.codes, p0.stage_of, got@.take(k as int)),
                forall|i: int| 0 <= i < p0.stage_of.len() ==> (#[trigger] p0.stage_of[i]) < p0.n,
            decreases got.len() - k,
        {
            assert(got@.take(k + 1).drop_last() =~= got@.take(k as int));
            if k < self.stage_of.len() {
                let si: usize = self.stage_of[k];
                let c: Option<i64> = got[k];
                assert(p0.stage_of[k as int] < p0.n);
                self.codes.set(si, c);
            }
            k = k + 1;
        }
        assert(got@.take(got@.len() as int) =~= got@);
        append_all(&mut fx.cancel, &self.grants);
        self.grants = Vec::new();
        self.phase = Phase::Over;
        let last: i64 = match self.codes[self.n - 1] {
            Some(c) => c,
            None => 1,
        };
        let t: Vec<u8> = report_exit(last);
        append_bytes(&mut fx.out, &t);
        assert(self@ =~= ended(p0, got@).p);
        assert(fx@ =~= plus(f0, ended(p0, got@).fx));
        Ask::Finished(last)
    }
}

/// A pipeline of `n` stages, before anything was done.
pub open spec fn fresh(n: int) -> PipeView {
    PipeView {
        n,
        links: Seq::empty(),
        at: 0,
        fds: redirect::no_fds(),
        stage_bodies: Seq::empty(),
        entries: Seq::empty(),
        stage_grants: Seq::empty(),
        grants: Seq::empty(),
        bodies: Seq::empty(),
        chans: Seq::empty(),
        stage_of: Seq::empty(),
        codes: Seq::new(n as nat, |i: int| None::<i64>),
        phase: Phase::Linking,
    }
}

/// The last redirection of a stream.
fn source_of(redirs: &Vec<Redirect>, slot: u8) -> (r: Option<usize>)
    ensures
        match r {
            Some(i) => i < redirs@.len() && i == slot_source(
                redirect::redirect_views(redirs@),
                slot,
            ),
            None => slot_source(redirect::redirect_views(redirs@), slot) < 0,
        },
{
    let ghost rv = redirect::redirect_views(redirs@);
    let mut i: usize = redirs.len();
    assert(rv.take(i as int) =~= rv);
    while i > 0
        invariant
            i <= redirs@.len(),
            rv == redirect::redirect_views(redirs@),
            slot_source(rv, slot) == slot_source(rv.take(i as int), slot),
        decreases i,
    {
        i = i - 1;
        assert(rv.take(i + 1).last() == redirs@[i as int]@);
        assert(rv.take(i + 1).drop_last() =~= rv.take(i as int));
        if redirs[i].slot == slot {
            return Some(i);
        }
    }
    None
}

proof fn lemma_turns_sound(p: PipeView, stages: Seq<StageView>)
    requires
        sound(p, stages),
    ensures
        forall|err: Seq<u8>| sound(#[trigger] given_up(p, err).p, stages),
{
}

proof fn lemma_ready_sound(p: PipeView, stages: Seq<StageView>)
    requires
        p.n == stages.len(),
        p.n >= 1,
        p.fds.len() == 3,
        p.codes.len() == p.n,
        p.stage_of.len() == p.chans.len(),
        forall|i: int| 0 <= i < p.stage_of.len() ==> (#[trigger] p.stage_of[i]) < p.n,
        0 <= p.at < p.n,
        p.links.len() + 1 == p.n,
    ensures
        sound(ready(p, stages).p, stages),
{
}

proof fn lemma_grant_sound(p: PipeView, stages: Seq<StageView>, s: int)
    requires
        p.n == stages.len(),
        p.n >= 1,
        p.fds.len() == 3,
        p.codes.len() == p.n,
        p.stage_of.len() == p.chans.len(),
        forall|i: int| 0 <= i < p.stage_of.len() ==> (#[trigger] p.stage_of[i]) < p.n,
        0 <= p.at < p.n,
        p.links.len() + 1 == p.n,
        0 <= s <= 3,
    ensures
        sound(to_grant(p, stages, s).p, stages),
    decreases 3 - s,
{
    if s >= 3 {
        lemma_ready_sound(p, stages);
    } else if p.fds[s] < 0 {
        lemma_grant_sound(p, stages, s + 1);
    } else if s == 2 && p.fds[2] == p.fds[1] {
        lemma_ready_sound(
            PipeView { entries: p.entries.push(Entry::Alias { vfd: 2, target: 1 }), ..p },
            stages,
        );
    }
}

proof fn lemma_heredoc_sound(p: PipeView, stages: Seq<StageView>, s: int)
    requires
        p.n == stages.len(),
        p.n >= 1,
        p.fds.len() == 3,
        p.codes.len() == p.n,
        p.stage_of.len() == p.chans.len(),
        forall|i: int| 0 <= i < p.stage_of.len() ==> (#[trigger] p.stage_of[i]) < p.n,
        0 <= p.at < p.n,
        p.links.len() + 1 == p.n,
        0 <= s <= 3,
    ensures
        sound(to_heredoc(p, stages, s).p, stages),
    decreases 3 - s,
{
    if s >= 3 {
        lemma_grant_sound(p, stages, 0);
    } else if heredoc_on(stages[p.at].redirs, s as u8) is None {
        lemma_heredoc_sound(p, stages, s + 1);
    }
}

// ── In the process of a stage ──

/// The streams of a stage after an entry: a claimed grant, or another stream's
/// descriptor.
pub open spec fn stream_after(fds: Seq<i64>, e: Entry, claimed: i64) -> Seq<i64> {
    match e {
        Entry::Grant { vfd, .. } => fds.update(vfd as int, claimed),
        Entry::Alias { vfd, target } => fds.update(vfd as int, fds[target as int]),
    }
}

/// Takes an entry in, in the process of the stage. `claimed` is what claiming
/// the grant gave. False if the grant could not be claimed: the stage ends.
pub fn take_entry(fds: &mut Fds, e: Entry, claimed: Option<i64>) -> (r: bool)
    requires
        match e {
            Entry::Grant { vfd, .. } => vfd < 3,
            Entry::Alias { vfd, target } => vfd < 3 && target < 3,
        },
    ensures
        r == (e is Alias || claimed is Some),
        final(fds)@ == (if r {
            stream_after(
                old(fds)@,
                e,
                match claimed {
                    Some(c) => c,
                    None => NO_FD,
                },
            )
        } else {
            old(fds)@
        }),
{
    let ghost f0 = fds@;
    match e {
        Entry::Grant { vfd, .. } => match claimed {
            Some(c) => {
                fds[vfd as usize] = c;
                assert(fds@ =~= f0.update(vfd as int, c));
                true
            },
            None => false,
        },
        Entry::Alias { vfd, target } => {
            let t: i64 = fds[target as usize];
            fds[vfd as usize] = t;
            assert(fds@ =~= f0.update(vfd as int, f0[target as int]));
            true
        },
    }
}

/// How often a full pipe is tried without anything being taken.
pub const BODY_PATIENCE: u32 = 100_000;

/// The writing of a here-document: how much is written, and how often nothing
/// was taken since.
#[derive(Clone, Copy, PartialEq, Eq, Debug, Structural)]
pub struct BodyWriter {
    pub done: usize,
    pub idle: u32,
}

/// What the writing does next.
#[derive(Clone, Copy, PartialEq, Eq, Debug, Structural)]
pub enum BodyStep {
    /// Write from here on.
    Write(usize),
    /// Pause, then write from here on.
    Pause(usize),
    /// Close the descriptor.
    Close,
}

impl BodyWriter {
    pub fn new() -> (r: BodyWriter)
        ensures
            r == (BodyWriter { done: 0, idle: 0 }),
    {
        BodyWriter { done: 0, idle: 0 }
    }

    /// Goes on after a write that took `n` bytes, or failed. A reader that is
    /// gone, or takes nothing for too long, ends it.
    pub fn wrote(&mut self, len: usize, n: Option<usize>) -> (r: BodyStep)
        requires
            old(self).done <= len,
            old(self).idle <= BODY_PATIENCE,
            n is Some ==> n->0 <= len - old(self).done,
        ensures
            final(self).done <= len,
            r is Close || final(self).idle <= BODY_PATIENCE,
            match n {
                None => r is Close && *final(self) == *old(self),
                Some(k) => {
                    &&& final(self).done == old(self).done + k
                    &&& k > 0 ==> final(self).idle == 0
                    &&& k == 0 ==> final(self).idle == old(self).idle + 1
                    &&& r == (if final(self).done == len {
                        BodyStep::Close
                    } else if k > 0 {
                        BodyStep::Write(final(self).done)
                    } else if final(self).idle > BODY_PATIENCE {
                        BodyStep::Close
                    } else {
                        BodyStep::Pause(final(self).done)
                    })
                },
            },
    {
        match n {
            None => BodyStep::Close,
            Some(k) => {
                self.done = self.done + k;
                if k > 0 {
                    self.idle = 0;
                } else {
                    self.idle = self.idle + 1;
                }
                if self.done == len {
                    BodyStep::Close
                } else if k > 0 {
                    BodyStep::Write(self.done)
                } else if self.idle > BODY_PATIENCE {
                    BodyStep::Close
                } else {
                    BodyStep::Pause(self.done)
                }
            },
        }
    }
}

// ── Laws ──

/// What came of what a pipeline asked for.
pub enum Answer {
    Pipe(Option<(i64, i64)>),
    Files(Option<Seq<i64>>, Seq<u8>),
    Grant(Option<u64>),
    Program(Option<Seq<u8>>),
    Start(Result<u64, SpawnError>),
    Codes(Seq<Option<i64>>),
}

/// The answer is to what the pipeline waits for.
pub open spec fn fits(phase: Phase, a: Answer) -> bool {
    match a {
        Answer::Pipe(_) => phase is Linking || phase is Heredoc,
        Answer::Files(f, _) => phase is Opening && (f is Some ==> f->0.len() == 3),
        Answer::Grant(_) => phase is Granting,
        Answer::Program(_) => phase is Loading,
        Answer::Start(_) => phase is Spawning,
        Answer::Codes(_) => phase is Waiting,
    }
}

/// The turn that a pipeline takes at an answer.
pub open spec fn turn_of(p: PipeView, stages: Seq<StageView>, a: Answer) -> Turn {
    match a {
        Answer::Pipe(x) => piped(p, stages, x),
        Answer::Files(f, err) => opened(p, stages, f, err),
        Answer::Grant(n) => granted(p, stages, p.phase->Granting_0, n),
        Answer::Program(err) => loaded(p, stages, err),
        Answer::Start(c) => spawned(p, p.phase->program, c),
        Answer::Codes(got) => ended(p, got),
    }
}

/// Whether a pipeline holds a descriptor.
pub open spec fn holds_fd(p: PipeView, fd: i64) -> bool {
    fd >= 0 && (link_ends(p.links).contains(fd) || p.fds.contains(fd) || body_ends(
        p.stage_bodies,
    ).contains(fd) || body_ends(p.bodies).contains(fd))
}

/// Whether a pipeline has a grant to cancel.
pub open spec fn owes_grant(p: PipeView, g: u64) -> bool {
    p.grants.contains(g) || p.stage_grants.contains(g)
}

/// The descriptors that an answer brings.
pub open spec fn brings_fd(a: Answer, fd: i64) -> bool {
    fd >= 0 && match a {
        Answer::Pipe(Some((r, w))) => fd == r || fd == w,
        Answer::Files(Some(f), _) => f.contains(fd),
        _ => false,
    }
}

/// The descriptors that are handed on, to be closed when a text is written.
pub open spec fn hands_on(ask: AskView, fd: i64) -> bool {
    ask matches AskView::Feed { bodies, .. } && body_ends(bodies).contains(fd)
}

/// What a pipeline had is still there after a turn, or was closed, cancelled or
/// handed on.
pub open spec fn accounted(p: PipeView, t: Turn) -> bool {
    &&& forall|fd: i64| #[trigger]
        holds_fd(p, fd) ==> holds_fd(t.p, fd) || t.fx.close.contains(fd) || hands_on(t.ask, fd)
    &&& forall|g: u64| #[trigger]
        owes_grant(p, g) ==> owes_grant(t.p, g) || t.fx.cancel.contains(g)
}

proof fn lemma_in_sum<A>(a: Seq<A>, b: Seq<A>, x: A)
    ensures
        (a + b).contains(x) == (a.contains(x) || b.contains(x)),
{
    if a.contains(x) {
        let i = a.index_of(x);
        assert((a + b)[i] == x);
    }
    if b.contains(x) {
        let i = b.index_of(x);
        assert((a + b)[a.len() + i] == x);
    }
    if (a + b).contains(x) {
        let i = (a + b).index_of(x);
        if i < a.len() {
            assert(a[i] == x);
        } else {
            assert(b[i - a.len()] == x);
        }
    }
}

proof fn lemma_given_up(p: PipeView, err: Seq<u8>)
    ensures
        accounted(p, given_up(p, err)),
{
    let t = given_up(p, err);
    let d = redirect::distinct(p.fds);
    let e = body_ends(p.stage_bodies);
    let l = link_ends(p.links);
    let b = body_ends(p.bodies);
    assert forall|fd: i64| #[trigger] holds_fd(p, fd) implies t.fx.close.contains(fd) by {
        assert(t.fx.close =~= (d + e) + (l + b));
        lemma_in_sum(d + e, l + b, fd);
        lemma_in_sum(d, e, fd);
        lemma_in_sum(l, b, fd);
        if p.fds.contains(fd) {
            redirect::lemma_distinct_has(p.fds, fd);
        }
    }
    assert forall|g: u64| #[trigger] owes_grant(p, g) implies t.fx.cancel.contains(g) by {
        assert(t.fx.cancel =~= p.stage_grants + p.grants);
        lemma_in_sum(p.stage_grants, p.grants, g);
    }
}

proof fn lemma_to_stage(p: PipeView)
    ensures
        accounted(p, to_stage(p)),
{
    let t = to_stage(p);
    assert forall|fd: i64| #[trigger] holds_fd(p, fd) implies holds_fd(t.p, fd)
        || t.fx.close.contains(fd) || hands_on(t.ask, fd) by {
    }
    assert forall|g: u64| #[trigger] owes_grant(p, g) implies owes_grant(t.p, g) by {
    }
}

/// What a turn does first, and what is done with what is left.
proof fn lemma_two_steps(p: PipeView, fx: Fx, q: PipeView, t: Turn)
    requires
        accounted(q, t),
        forall|fd: i64| #[trigger] holds_fd(p, fd) ==> holds_fd(q, fd) || fx.close.contains(fd),
        forall|g: u64| #[trigger] owes_grant(p, g) ==> owes_grant(q, g) || fx.cancel.contains(g),
    ensures
        accounted(p, with_fx(fx, t)),
{
    let w = with_fx(fx, t);
    assert forall|fd: i64| #[trigger] holds_fd(p, fd) implies holds_fd(w.p, fd)
        || w.fx.close.contains(fd) || hands_on(w.ask, fd) by {
        lemma_in_sum(fx.close, t.fx.close, fd);
        if holds_fd(q, fd) {
        }
    }
    assert forall|g: u64| #[trigger] owes_grant(p, g) implies owes_grant(w.p, g)
        || w.fx.cancel.contains(g) by {
        lemma_in_sum(fx.cancel, t.fx.cancel, g);
        if owes_grant(q, g) {
        }
    }
}

proof fn lemma_ready(p: PipeView, stages: Seq<StageView>)
    ensures
        accounted(p, ready(p, stages)),
{
    let argv = stages[p.at].argv;
    if argv.len() == 0 {
        let fx = drop_stage(p, Seq::empty());
        let q = PipeView { codes: p.codes.update(p.at, Some(0)), at: p.at + 1, ..off_stage(p) };
        lemma_to_stage(q);
        assert forall|fd: i64| #[trigger] holds_fd(p, fd) implies holds_fd(q, fd)
            || fx.close.contains(fd) by {
            lemma_in_sum(redirect::distinct(p.fds), body_ends(p.stage_bodies), fd);
            if p.fds.contains(fd) {
                redirect::lemma_distinct_has(p.fds, fd);
            }
        }
        lemma_two_steps(p, fx, q, to_stage(q));
    } else if is_program(argv) && argv[0] == bytes::lit("run") && argv.len() < 2 {
        lemma_given_up(p, bytes::lit("run: usage: run <path> [args...]\n"));
    } else {
        let t = ready(p, stages);
        assert forall|fd: i64| #[trigger] holds_fd(p, fd) implies holds_fd(t.p, fd) by {
        }
        assert forall|g: u64| #[trigger] owes_grant(p, g) implies owes_grant(t.p, g) by {
        }
    }
}

proof fn lemma_to_grant(p: PipeView, stages: Seq<StageView>, s: int)
    requires
        0 <= s <= 3,
    ensures
        accounted(p, to_grant(p, stages, s)),
    decreases 3 - s,
{
    if s >= 3 {
        lemma_ready(p, stages);
    } else if p.fds[s] < 0 {
        lemma_to_grant(p, stages, s + 1);
    } else if s == 2 && p.fds[2] == p.fds[1] {
        let q = PipeView { entries: p.entries.push(Entry::Alias { vfd: 2, target: 1 }), ..p };
        lemma_ready(q, stages);
        assert forall|fd: i64| #[trigger] holds_fd(p, fd) implies holds_fd(q, fd) by {
        }
        assert forall|g: u64| #[trigger] owes_grant(p, g) implies owes_grant(q, g) by {
        }
    } else {
        let t = to_grant(p, stages, s);
        assert forall|fd: i64| #[trigger] holds_fd(p, fd) implies holds_fd(t.p, fd) by {
        }
        assert forall|g: u64| #[trigger] owes_grant(p, g) implies owes_grant(t.p, g) by {
        }
    }
}

proof fn lemma_to_heredoc(p: PipeView, stages: Seq<StageView>, s: int)
    requires
        0 <= s <= 3,
    ensures
        accounted(p, to_heredoc(p, stages, s)),
    decreases 3 - s,
{
    if s >= 3 {
        lemma_to_grant(p, stages, 0);
    } else if heredoc_on(stages[p.at].redirs, s as u8) is Some {
        let t = to_heredoc(p, stages, s);
        assert forall|fd: i64| #[trigger] holds_fd(p, fd) implies holds_fd(t.p, fd) by {
        }
        assert forall|g: u64| #[trigger] owes_grant(p, g) implies owes_grant(t.p, g) by {
        }
    } else {
        lemma_to_heredoc(p, stages, s + 1);
    }
}

/// The pipeline with what an answer brought, before anything else is done. An
/// end of a pipe that takes the place of a stream's descriptor has that one
/// closed, unless it is held elsewhere.
proof fn lemma_piped(p: PipeView, stages: Seq<StageView>, pipe: Option<(i64, i64)>)
    requires
        sound(p, stages),
        p.phase is Linking || p.phase is Heredoc,
    ensures
        ({
            let t = piped(p, stages, pipe);
            &&& accounted(p, t)
            &&& forall|fd: i64| #[trigger]
                brings_fd(Answer::Pipe(pipe), fd) ==> holds_fd(t.p, fd) || t.fx.close.contains(fd)
                    || hands_on(t.ask, fd)
        }),
{
    let t = piped(p, stages, pipe);
    match (p.phase, pipe) {
        (Phase::Heredoc(s), Some((r, w))) => {
            let old_fd = p.fds[s as int];
            let close = if old_fd >= 0 && !link_ends(p.links).contains(old_fd) {
                seq![old_fd]
            } else {
                Seq::empty()
            };
            let fx = Fx { close, ..no_fx() };
            let body = heredoc_on(stages[p.at].redirs, s)->0;
            let q = PipeView {
                fds: p.fds.update(s as int, r),
                stage_bodies: p.stage_bodies.push((w, body)),
                ..p
            };
            lemma_to_heredoc(q, stages, s + 1);
            let u = to_heredoc(q, stages, s + 1);
            let e0 = body_ends(p.stage_bodies);
            let e1 = body_ends(q.stage_bodies);
            assert(e1 =~= e0.push(w));
            assert forall|fd: i64| #[trigger] holds_fd(p, fd) implies holds_fd(q, fd)
                || fx.close.contains(fd) by {
                if p.fds.contains(fd) {
                    let i = p.fds.index_of(fd);
                    if i != s {
                        assert(q.fds[i] == fd);
                    } else if !link_ends(p.links).contains(fd) {
                        assert(close[0] == fd);
                    }
                }
                if e0.contains(fd) {
                    let i = e0.index_of(fd);
                    assert(e1[i] == fd);
                }
            }
            assert forall|g: u64| #[trigger] owes_grant(p, g) implies owes_grant(q, g) by {
            }
            lemma_two_steps(p, fx, q, u);
            assert forall|fd: i64| #[trigger] brings_fd(Answer::Pipe(pipe), fd) implies holds_fd(
                t.p,
                fd,
            ) || t.fx.close.contains(fd) || hands_on(t.ask, fd) by {
                assert(q.fds[s as int] == r);
                assert(e1[e0.len() as int] == w);
                assert(holds_fd(q, fd));
                lemma_in_sum(fx.close, u.fx.close, fd);
            }
        },
        (Phase::Heredoc(s), None) => {
            lemma_given_up(
                p,
                redirect::open_error_text(
                    stages[p.at].redirs[slot_source(stages[p.at].redirs, s)].target,
                    OpenError::Other,
                ),
            );
        },
        (_, Some(link)) => {
            let q = PipeView { links: p.links.push(link), ..p };
            let l0 = link_ends(p.links);
            let l1 = link_ends(q.links);
            assert(q.links.drop_last() =~= p.links);
            assert(l1 == l0.push(link.0).push(link.1));
            assert forall|fd: i64| #[trigger] holds_fd(p, fd) implies holds_fd(q, fd) by {
                if l0.contains(fd) {
                    let i = l0.index_of(fd);
                    assert(l1[i] == fd);
                }
            }
            assert forall|g: u64| #[trigger] owes_grant(p, g) implies owes_grant(q, g) by {
            }
            assert forall|fd: i64| #[trigger] brings_fd(Answer::Pipe(pipe), fd) implies holds_fd(
                q,
                fd,
            ) by {
                assert(l1[l0.len() as int] == link.0);
                assert(l1[l0.len() as int + 1] == link.1);
            }
            lemma_to_stage(q);
        },
        (_, None) => {
            lemma_given_up(p, bytes::lit("pipe: creazione fallita\n"));
        },
    }
}

/// Nothing is lost: whatever comes of what a pipeline asks for, each descriptor
/// that it has or gets is afterwards still held, closed, or handed on with the
/// text that is to be written to it; each grant is still to be cancelled or was
/// cancelled. When the pipeline is over, it holds nothing.
pub proof fn law_nothing_is_lost(p: PipeView, stages: Seq<StageView>, a: Answer)
    requires
        sound(p, stages),
        fits(p.phase, a),
    ensures
        ({
            let t = turn_of(p, stages, a);
            &&& accounted(p, t)
            &&& forall|fd: i64| #[trigger]
                brings_fd(a, fd) ==> holds_fd(t.p, fd) || t.fx.close.contains(fd) || hands_on(
                    t.ask,
                    fd,
                )
            &&& a matches Answer::Grant(Some(n)) ==> owes_grant(t.p, n) || t.fx.cancel.contains(n)
            &&& t.ask is Finished ==> forall|fd: i64| !#[trigger] holds_fd(t.p, fd)
            &&& t.ask is Finished ==> forall|g: u64| !#[trigger] owes_grant(t.p, g)
        }),
{
    let t = turn_of(p, stages, a);
    match a {
        Answer::Pipe(x) => {
            lemma_piped(p, stages, x);
        },
        Answer::Files(f, err) => {
            match f {
                Some(fds) => {
                    let q = PipeView { fds, ..p };
                    lemma_to_heredoc(q, stages, 0);
                    assert forall|fd: i64| #[trigger] holds_fd(p, fd) implies holds_fd(q, fd) by {
                        assert(p.fds == redirect::no_fds());
                    }
                    assert forall|g: u64| #[trigger] owes_grant(p, g) implies owes_grant(q, g) by {
                    }
                    assert forall|fd: i64| #[trigger] brings_fd(a, fd) implies holds_fd(q, fd) by {
                    }
                },
                None => {
                    lemma_given_up(p, err);
                },
            }
        },
        Answer::Grant(n) => {
            let s = p.phase->Granting_0;
            match n {
                Some(nonce) => {
                    let q = PipeView {
                        stage_grants: p.stage_grants.push(nonce),
                        entries: p.entries.push(Entry::Grant { vfd: s, nonce }),
                        ..p
                    };
                    lemma_to_grant(q, stages, s + 1);
                    assert forall|fd: i64| #[trigger] holds_fd(p, fd) implies holds_fd(q, fd) by {
                    }
                    assert forall|g: u64| #[trigger] owes_grant(p, g) implies owes_grant(q, g) by {
                        if p.stage_grants.contains(g) {
                            let i = p.stage_grants.index_of(g);
                            assert(q.stage_grants[i] == g);
                        }
                    }
                    assert(q.stage_grants[p.stage_grants.len() as int] == nonce);
                    assert(owes_grant(q, nonce));
                },
                None => {
                    lemma_given_up(p, bytes::lit("pipe: redirect grant failed\n"));
                },
            }
        },
        Answer::Program(err) => {
            match err {
                Some(e) => {
                    lemma_given_up(p, load_complaint(stages[p.at].argv, e));
                },
                None => {
                    assert forall|fd: i64| #[trigger] holds_fd(p, fd) implies holds_fd(t.p, fd) by {
                    }
                    assert forall|g: u64| #[trigger] owes_grant(p, g) implies owes_grant(t.p, g) by {
                    }
                },
            }
        },
        Answer::Start(c) => {
            match c {
                Ok(chan) => {
                    let fx = Fx { close: redirect::distinct(p.fds), ..no_fx() };
                    let q = PipeView {
                        bodies: p.bodies + p.stage_bodies,
                        grants: p.grants + p.stage_grants,
                        stage_of: p.stage_of.push(p.at as usize),
                        chans: p.chans.push(chan),
                        at: p.at + 1,
                        ..off_stage(p)
                    };
                    lemma_to_stage(q);
                    assert(body_ends(q.bodies) =~= body_ends(p.bodies) + body_ends(p.stage_bodies));
                    assert forall|fd: i64| #[trigger] holds_fd(p, fd) implies holds_fd(q, fd)
                        || fx.close.contains(fd) by {
                        lemma_in_sum(body_ends(p.bodies), body_ends(p.stage_bodies), fd);
                        if p.fds.contains(fd) {
                            redirect::lemma_distinct_has(p.fds, fd);
                        }
                    }
                    assert forall|g: u64| #[trigger] owes_grant(p, g) implies owes_grant(q, g) by {
                        lemma_in_sum(p.grants, p.stage_grants, g);
                    }
                    lemma_two_steps(p, fx, q, to_stage(q));
                },
                Err(e) => {
                    lemma_given_up(p, spawn_complaint(p.phase->program, e));
                },
            }
        },
        Answer::Codes(got) => {
            assert forall|fd: i64| #[trigger] holds_fd(p, fd) implies holds_fd(t.p, fd) by {
            }
            assert(p.stage_grants.len() == 0);
        },
    }
    if t.ask is Finished {
        lemma_finished_empty(p, stages, a);
    }
}

/// A pipeline that holds nothing.
pub open spec fn bare(p: PipeView) -> bool {
    &&& p.links.len() == 0
    &&& p.fds == redirect::no_fds()
    &&& p.stage_bodies.len() == 0
    &&& p.bodies.len() == 0
    &&& p.stage_grants.len() == 0
    &&& p.grants.len() == 0
}

proof fn lemma_bare_after_grant(p: PipeView, stages: Seq<StageView>, s: int)
    requires
        0 <= s <= 3,
    ensures
        to_grant(p, stages, s).ask is Finished ==> bare(to_grant(p, stages, s).p),
    decreases 3 - s,
{
    if s < 3 {
        lemma_bare_after_grant(p, stages, s + 1);
    }
}

proof fn lemma_bare_after_heredoc(p: PipeView, stages: Seq<StageView>, s: int)
    requires
        0 <= s <= 3,
    ensures
        to_heredoc(p, stages, s).ask is Finished ==> bare(to_heredoc(p, stages, s).p),
    decreases 3 - s,
{
    if s < 3 {
        lemma_bare_after_heredoc(p, stages, s + 1);
    } else {
        lemma_bare_after_grant(p, stages, 0);
    }
}

proof fn lemma_finished_empty(p: PipeView, stages: Seq<StageView>, a: Answer)
    requires
        sound(p, stages),
        fits(p.phase, a),
        turn_of(p, stages, a).ask is Finished,
    ensures
        forall|fd: i64| !#[trigger] holds_fd(turn_of(p, stages, a).p, fd),
        forall|g: u64| !#[trigger] owes_grant(turn_of(p, stages, a).p, g),
{
    let t = turn_of(p, stages, a);
    match (p.phase, a) {
        (Phase::Heredoc(s), Answer::Pipe(Some((r, w)))) => {
            let q = PipeView {
                fds: p.fds.update(s as int, r),
                stage_bodies: p.stage_bodies.push(
                    (w, heredoc_on(stages[p.at].redirs, s)->0),
                ),
                ..p
            };
            lemma_bare_after_heredoc(q, stages, s + 1);
        },
        (_, Answer::Files(Some(f), err)) => {
            lemma_bare_after_heredoc(PipeView { fds: f, ..p }, stages, 0);
        },
        (Phase::Granting(s), Answer::Grant(Some(nonce))) => {
            let q = PipeView {
                stage_grants: p.stage_grants.push(nonce),
                entries: p.entries.push(Entry::Grant { vfd: s, nonce }),
                ..p
            };
            lemma_bare_after_grant(q, stages, s + 1);
        },
        _ => {},
    }
    assert(bare(t.p));
}

} // verus!
