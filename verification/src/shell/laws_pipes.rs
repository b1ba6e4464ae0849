//! How the stages of a pipeline are connected, fed and counted.
use vstd::prelude::*;

use super::builtins;
use super::pipeline;
use super::pipeline::{AskView, Entry, Phase, PipeView, StageView};
use super::redirect::{RedirectView, NO_FD};
use super::run;
use super::run::{RunAsk, RunView};
use crate::bytes;

verus! {

/// What one stage of a pipeline writes, the next one reads: both have an end of
/// the same pipe. The first stage reads from no pipe, and the last writes to
/// none.
pub proof fn law_stages_are_chained(p: PipeView, i: int)
    requires
        0 <= i < p.n,
        p.links.len() == p.n - 1,
    ensures
        ({
            let here = PipeView { at: i, ..p };
            let next = PipeView { at: i + 1, ..p };
            &&& i + 1 < p.n ==> (pipeline::seed_of(next)[0], pipeline::seed_of(here)[1])
                == p.links[i]
            &&& i == 0 ==> pipeline::seed_of(here)[0] == NO_FD
            &&& i + 1 == p.n ==> pipeline::seed_of(here)[1] == NO_FD
            &&& pipeline::seed_of(here)[2] == NO_FD
            &&& pipeline::seed_of(here).len() == 3
        }),
{
}

/// A stage is opened over the pipes that it is chained to, and when all stages
/// run no end of a pipe stays with the shell.
pub proof fn law_shell_keeps_no_pipe(p: PipeView, i: int)
    requires
        0 <= i < p.links.len(),
        p.at == p.n,
    ensures
        ({
            let t = pipeline::to_stage(p);
            &&& t.fx.close.contains(p.links[i].0)
            &&& t.fx.close.contains(p.links[i].1)
            &&& t.p.links.len() == 0
            &&& t.ask == (AskView::Feed { bodies: p.bodies, chans: p.chans })
        }),
{
    lemma_link_ends(p.links, i);
}

proof fn lemma_link_ends(links: Seq<(i64, i64)>, i: int)
    requires
        0 <= i < links.len(),
    ensures
        pipeline::link_ends(links).contains(links[i].0),
        pipeline::link_ends(links).contains(links[i].1),
    decreases links.len(),
{
    let e = pipeline::link_ends(links);
    let d = pipeline::link_ends(links.drop_last());
    if i == links.len() - 1 {
        assert(e[e.len() - 2] == links[i].0);
        assert(e[e.len() - 1] == links[i].1);
    } else {
        lemma_link_ends(links.drop_last(), i);
        assert(links.drop_last()[i] == links[i]);
        let j = choose|j: int| 0 <= j < d.len() && d[j] == links[i].0;
        let k = choose|k: int| 0 <= k < d.len() && d[k] == links[i].1;
        assert(e[j] == links[i].0);
        assert(e[k] == links[i].1);
    }
}

/// Stages were started in order.
pub open spec fn rising(stage_of: Seq<usize>) -> bool {
    forall|i: int, j: int|
        0 <= i < j < stage_of.len() ==> #[trigger] stage_of[i] < #[trigger] stage_of[j]
}

proof fn lemma_stage_codes(
    codes: Seq<Option<i64>>,
    stage_of: Seq<usize>,
    got: Seq<Option<i64>>,
    k: int,
)
    requires
        got.len() <= stage_of.len(),
        rising(stage_of),
        forall|i: int| 0 <= i < stage_of.len() ==> (#[trigger] stage_of[i]) < codes.len(),
        0 <= k < got.len(),
    ensures
        pipeline::stage_codes(codes, stage_of, got).len() == codes.len(),
        pipeline::stage_codes(codes, stage_of, got)[stage_of[k] as int] == got[k],
    decreases got.len(),
{
    lemma_stage_codes_len(codes, stage_of, got.drop_last());
    assert(stage_of[got.len() - 1] < codes.len());
    if k < got.len() - 1 {
        lemma_stage_codes(codes, stage_of, got.drop_last(), k);
        assert(stage_of[k] < stage_of[got.len() - 1]);
        assert(got.drop_last()[k] == got[k]);
    }
}

proof fn lemma_stage_codes_len(
    codes: Seq<Option<i64>>,
    stage_of: Seq<usize>,
    got: Seq<Option<i64>>,
)
    requires
        got.len() <= stage_of.len(),
        forall|i: int| 0 <= i < stage_of.len() ==> (#[trigger] stage_of[i]) < codes.len(),
    ensures
        pipeline::stage_codes(codes, stage_of, got).len() == codes.len(),
    decreases got.len(),
{
    if got.len() > 0 {
        assert(stage_of[got.len() - 1] < codes.len());
        lemma_stage_codes_len(codes, stage_of, got.drop_last());
    }
}

/// The code of a pipeline is the one that its last stage ended with, whatever
/// the others ended with; and all its grants are cancelled.
pub proof fn law_last_stage_gives_the_code(p: PipeView, got: Seq<Option<i64>>, code: i64)
    requires
        p.codes.len() == p.n,
        p.n >= 1,
        got.len() == p.stage_of.len(),
        got.len() > 0,
        rising(p.stage_of),
        p.stage_of.last() == p.n - 1,
        got.last() == Some(code),
    ensures
        pipeline::ended(p, got).ask == AskView::Finished(code),
        pipeline::ended(p, got).fx.cancel == p.grants,
        pipeline::ended(p, got).p.grants.len() == 0,
{
    assert forall|i: int| 0 <= i < p.stage_of.len() implies (#[trigger] p.stage_of[i])
        < p.codes.len() by {
        if i < p.stage_of.len() - 1 {
            assert(p.stage_of[i] < p.stage_of[p.stage_of.len() - 1]);
        }
    }
    lemma_stage_codes(p.codes, p.stage_of, got, got.len() - 1);
}

/// No redirection of a stream.
pub open spec fn none_of(redirs: Seq<RedirectView>, slot: u8) -> bool {
    forall|i: int| 0 <= i < redirs.len() ==> (#[trigger] redirs[i]).slot != slot
}

/// The last redirection of a stream counts: only where it is a here-document is
/// the stream fed with a text, and that text is its own.
pub proof fn law_last_redirection_counts(
    front: Seq<RedirectView>,
    r: RedirectView,
    back: Seq<RedirectView>,
)
    requires
        none_of(back, r.slot),
    ensures
        pipeline::heredoc_on(front + seq![r] + back, r.slot) == if r.heredoc {
            Some(
                match r.body {
                    Some(b) => b,
                    None => Seq::empty(),
                },
            )
        } else {
            None
        },
    decreases back.len(),
{
    let all = front + seq![r] + back;
    lemma_slot_source(front, r, back);
    assert(all[front.len() as int] == r);
}

proof fn lemma_slot_source(front: Seq<RedirectView>, r: RedirectView, back: Seq<RedirectView>)
    requires
        none_of(back, r.slot),
    ensures
        pipeline::slot_source(front + seq![r] + back, r.slot) == front.len(),
    decreases back.len(),
{
    let all = front + seq![r] + back;
    if back.len() > 0 {
        let b = back.drop_last();
        assert forall|i: int| 0 <= i < b.len() implies (#[trigger] b[i]).slot != r.slot by {
            assert(b[i] == back[i]);
        }
        assert(back[back.len() - 1].slot != r.slot);
        assert(all.drop_last() =~= front + seq![r] + b);
        lemma_slot_source(front, r, b);
    }
}

/// A command that can be run once it has its streams.
pub open spec fn runnable(argv: Seq<Seq<u8>>) -> bool {
    argv.len() > 0 && (argv[0] == bytes::lit("run") ==> argv.len() >= 2)
}

/// The reading end of the pipe of a here-document becomes the stream, and the
/// text is to be written to the other end.
pub proof fn law_heredoc_goes_into_its_pipe(
    p: PipeView,
    stages: Seq<StageView>,
    s: u8,
    ends: (i64, i64),
)
    requires
        s < 3,
        p.phase == Phase::Heredoc(s),
        p.fds.len() == 3,
        0 <= p.at < p.n,
        p.n == stages.len(),
        pipeline::heredoc_on(stages[p.at].redirs, s) is Some,
        runnable(stages[p.at].argv),
    ensures
        ({
            let t = pipeline::piped(p, stages, Some(ends));
            &&& t.p.fds == p.fds.update(s as int, ends.0)
            &&& t.p.stage_bodies == p.stage_bodies.push(
                (ends.1, pipeline::heredoc_on(stages[p.at].redirs, s)->0),
            )
        }),
{
    reveal_with_fuel(pipeline::to_heredoc, 4);
    reveal_with_fuel(pipeline::to_grant, 4);
}

/// A grant is handed to the program for the stream that it was asked for.
pub proof fn law_grant_is_for_its_stream(
    p: PipeView,
    stages: Seq<StageView>,
    s: u8,
    nonce: u64,
)
    requires
        s < 3,
        p.fds.len() == 3,
        0 <= p.at < p.n,
        p.n == stages.len(),
        runnable(stages[p.at].argv),
    ensures
        pipeline::granted(p, stages, s, Some(nonce)).p.entries.contains(
            Entry::Grant { vfd: s, nonce },
        ),
        pipeline::granted(p, stages, s, Some(nonce)).p.stage_grants.contains(nonce),
{
    let q = PipeView {
        stage_grants: p.stage_grants.push(nonce),
        entries: p.entries.push(Entry::Grant { vfd: s, nonce }),
        ..p
    };
    reveal_with_fuel(pipeline::to_grant, 4);
    let e = pipeline::granted(p, stages, s, Some(nonce)).p.entries;
    let k = p.entries.len() as int;
    assert(q.entries[k] == Entry::Grant { vfd: s, nonce });
    assert(e[k] == Entry::Grant { vfd: s, nonce });
    assert(q.stage_grants[p.stage_grants.len() as int] == nonce);
}

/// Between each two stages there is one pipe: another is asked for as long as
/// one is missing, and once all are there the first stage is set up.
pub proof fn law_one_pipe_between_each_two(
    p: PipeView,
    stages: Seq<StageView>,
    ends: (i64, i64),
)
    requires
        p.phase is Linking,
        p.at == 0,
        p.n == stages.len(),
        p.links.len() + 1 < p.n,
    ensures
        ({
            let t = pipeline::piped(p, stages, Some(ends));
            &&& t.p.links == p.links.push(ends)
            &&& t.p.links.len() < p.n - 1 ==> t.ask is Pipe && t.p.phase is Linking
            &&& t.p.links.len() == p.n - 1 ==> t.ask is Open && t.p.phase is Opening && t.p.at == 0
        }),
        pipeline::piped(p, stages, None).ask == AskView::Finished(1),
{
}

/// A program is loaded by the first word of its command, with the others as its
/// arguments; behind `run` the second word is its name. A command of the shell
/// is not loaded.
pub proof fn law_program_gets_its_words(
    p: PipeView,
    stages: Seq<StageView>,
    name: Seq<u8>,
    args: Seq<Seq<u8>>,
)
    requires
        0 <= p.at < stages.len(),
        name != bytes::lit("run"),
    ensures
        stages[p.at].argv == seq![name] + args && !builtins::is_builtin_name(name)
            ==> pipeline::ready(p, stages).ask == (AskView::Load { prog: name, rest: args }),
        stages[p.at].argv == seq![name] + args && builtins::is_builtin_name(name)
            ==> pipeline::ready(p, stages).ask is SpawnBuiltin,
        stages[p.at].argv == seq![bytes::lit("run"), name] + args ==> pipeline::ready(
            p,
            stages,
        ).ask == (AskView::Load { prog: name, rest: args }),
{
    let a = seq![name] + args;
    let b = seq![bytes::lit("run"), name] + args;
    assert(a.skip(1) =~= args);
    assert(a[0] == name);
    assert(b.skip(2) =~= args);
    assert(b[0] == bytes::lit("run") && b[1] == name);
}

/// Every stream of a stage that leads somewhere is granted, in order; only an
/// error stream that is the output stream needs no grant of its own.
pub proof fn law_every_stream_is_granted(
    p: PipeView,
    stages: Seq<StageView>,
    nonce: u64,
)
    requires
        p.fds.len() == 3,
    ensures
        p.fds[0] >= 0 ==> pipeline::to_grant(p, stages, 0).ask == AskView::Grant(p.fds[0]),
        p.fds[0] < 0 && p.fds[1] >= 0 ==> pipeline::to_grant(p, stages, 0).ask == AskView::Grant(
            p.fds[1],
        ),
        p.fds[0] < 0 && p.fds[1] < 0 && p.fds[2] >= 0 ==> pipeline::to_grant(p, stages, 0).ask
            == AskView::Grant(p.fds[2]),
        p.fds[1] >= 0 ==> pipeline::granted(p, stages, 0, Some(nonce)).ask == AskView::Grant(
            p.fds[1],
        ),
        p.fds[2] >= 0 && p.fds[2] != p.fds[1] ==> pipeline::granted(p, stages, 1, Some(nonce)).ask
            == AskView::Grant(p.fds[2]),
        pipeline::granted(p, stages, 0, None).ask == AskView::Finished(1),
{
    reveal_with_fuel(pipeline::to_grant, 4);
}

/// A stage that was started is waited for on its channel, the streams that were
/// its own are closed in the shell, and the next stage is set up.
pub proof fn law_started_stage_is_waited_for(p: PipeView, program: bool, chan: u64)
    requires
        0 <= p.at < p.n,
        p.at <= usize::MAX,
    ensures
        ({
            let t = pipeline::spawned(p, program, Ok(chan));
            &&& t.p.chans == p.chans.push(chan)
            &&& t.p.stage_of == p.stage_of.push(p.at as usize)
            &&& t.p.at == p.at + 1
            &&& t.p.grants == p.grants + p.stage_grants
            &&& p.at + 1 < p.n ==> t.ask is Open
            &&& p.at + 1 == p.n ==> (t.ask matches AskView::Feed { chans, .. } && chans
                == p.chans.push(chan))
        }),
{
}

/// A pipeline that cannot be run ends with the code 1, and nothing of it stays.
pub proof fn law_failed_pipeline_leaves_nothing(p: PipeView, err: Seq<u8>)
    ensures
        pipeline::given_up(p, err).ask == AskView::Finished(1),
        pipeline::bare(pipeline::given_up(p, err).p),
        pipeline::given_up(p, err).fx.err == err,
{
    assert(pipeline::given_up(p, err).fx.err =~= err);
}

// ── A program by itself ──

/// A program that was loaded has its redirections opened, if it has any, and is
/// started otherwise; each of its streams that leads somewhere is granted before
/// that. What fails ends it with the code 1.
pub proof fn law_program_is_started_with_its_streams(
    p: RunView,
    fds: Seq<i64>,
    err: Seq<u8>,
    nonce: u64,
)
    requires
        fds.len() == 3,
        p.fds.len() == 3,
    ensures
        run::run_loaded(p, true, None).ask is Open,
        run::run_loaded(p, false, None).ask is Spawn,
        run::run_loaded(p, true, Some(err)).ask == RunAsk::Finished(1),
        run::run_loaded(p, false, Some(err)).fx.err == err,
        run::run_opened(p, None, err).ask == RunAsk::Finished(1),
        fds[0] >= 0 ==> run::run_opened(p, Some(fds), err).ask == RunAsk::Grant(fds[0]),
        fds[0] < 0 && fds[1] >= 0 ==> run::run_opened(p, Some(fds), err).ask == RunAsk::Grant(
            fds[1],
        ),
        fds[0] < 0 && fds[1] < 0 && fds[2] >= 0 ==> run::run_opened(p, Some(fds), err).ask
            == RunAsk::Grant(fds[2]),
        fds[0] < 0 && fds[1] < 0 && fds[2] < 0 ==> run::run_opened(p, Some(fds), err).ask is Spawn,
        p.fds[1] >= 0 ==> run::run_granted(p, 0, Some(nonce)).ask == RunAsk::Grant(p.fds[1]),
        p.fds[2] >= 0 && p.fds[2] != p.fds[1] ==> run::run_granted(p, 1, Some(nonce)).ask
            == RunAsk::Grant(p.fds[2]),
        run::run_granted(p, 2, Some(nonce)).ask is Spawn,
        run::run_granted(p, 2, Some(nonce)).p.entries == p.entries.push(
            Entry::Grant { vfd: 2, nonce },
        ),
        run::run_granted(p, 2, Some(nonce)).p.grants == p.grants.push(nonce),
{
    reveal_with_fuel(run::run_grant, 4);
}

} // verus!
