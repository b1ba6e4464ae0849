//! What becomes of jobs that end, are stopped, brought back or waited for.
use vstd::prelude::*;

use super::jobs;
use super::jobs::{
    Bring, FgAction, FgDone, FgEvent, FgPhase, JobError, JobState, JobView, Msg, Outcome, WaitStep,
    Waiting,
};
use crate::bytes;

verus! {

/// The other jobs of a table are those of another one, in the same order.
pub open spec fn all_but(before: Seq<JobView>, after: Seq<JobView>, idx: int) -> bool {
    &&& after.len() == before.len() - 1
    &&& forall|k: int| 0 <= k < idx ==> #[trigger] after[k] == before[k]
    &&& forall|k: int| idx <= k < after.len() ==> #[trigger] after[k] == before[k + 1]
}

/// A job in front that ended leaves the table with its code, and every grant that
/// was made for it is cancelled. One that was stopped stays with all that it
/// holds, so that it can be brought back.
pub proof fn law_front_job_is_settled(
    before: Seq<JobView>,
    after: Seq<JobView>,
    idx: int,
    done: FgDone,
    r: Outcome,
)
    requires
        0 <= idx < before.len(),
        jobs::front_done(before, after, idx, done, r),
    ensures
        done matches FgDone::Exited(code) ==> {
            &&& r.code == code
            &&& all_but(before, after, idx)
            &&& forall|g: u64| #[trigger] before[idx].grants.contains(g) ==> r.cancel@.contains(g)
        },
        done is Stopped ==> {
            &&& after.len() == before.len()
            &&& after[idx].state == JobState::Stopped
            &&& after[idx].pid == before[idx].pid
            &&& after[idx].chan == before[idx].chan
            &&& after[idx].grants == before[idx].grants
            &&& r.cancel@.len() == 0
            &&& forall|k: int|
                0 <= k < before.len() && k != idx ==> #[trigger] after[k] == before[k]
        },
{
}

/// A job is brought by what it is doing: one that runs is watched in front, or
/// goes on in the back; one that is stopped has to be resumed first; one that
/// ended is told of once and leaves the table.
pub proof fn law_job_is_brought_as_it_is(
    before: Seq<JobView>,
    after: Seq<JobView>,
    idx: int,
    front: bool,
    r: Bring,
)
    requires
        0 <= idx < before.len(),
        jobs::brought(before, after, idx, front, r),
    ensures
        before[idx].state is Running && front ==> (r matches Bring::Watch { chan, pid } && chan
            == before[idx].chan && pid == before[idx].pid && !after[idx].bg),
        before[idx].state is Running && !front ==> r is Over && after[idx].bg && after[idx].state
            is Running,
        before[idx].state is Stopped ==> after == before && (r matches Bring::Resume(pid) && pid
            == before[idx].pid),
        before[idx].state is Done ==> r is Over && all_but(before, after, idx),
{
}

/// The jobs before the one that `wait` is at are stopped.
pub open spec fn behind_are_stopped(list: Seq<JobView>, w: Waiting) -> bool {
    w.at <= list.len() && forall|k: int|
        0 <= k < w.at ==> (#[trigger] list[k]).state == JobState::Stopped
}

/// `wait` for all jobs comes past every one of them: it waits for those that run
/// and ends only when none but stopped ones are left. It says each job once.
pub proof fn law_wait_leaves_only_stopped(
    before: (Seq<JobView>, Waiting),
    after: (Seq<JobView>, Waiting),
    r: WaitStep,
)
    requires
        before.1.all,
        !before.1.over,
        behind_are_stopped(before.0, before.1),
        jobs::wait_goes(before, after, r),
    ensures
        behind_are_stopped(after.0, after.1),
        after.1.all,
        !after.1.over,
        r is Finished ==> forall|k: int|
            0 <= k < after.0.len() ==> (#[trigger] after.0[k]).state == JobState::Stopped,
        r is Say ==> after.0.len() - after.1.at < before.0.len() - before.1.at,
        r matches WaitStep::On(c) ==> before.1.at < before.0.len()
            && before.0[before.1.at as int].chan == c && before.0[before.1.at as int].state
            is Running && after == before,
{
}

/// `wait` for one job says that job, and then it is over.
pub proof fn law_wait_for_one_ends_with_it(
    before: (Seq<JobView>, Waiting),
    after: (Seq<JobView>, Waiting),
    r: WaitStep,
)
    requires
        !before.1.all,
        !before.1.over,
        before.1.at < before.0.len(),
        jobs::wait_goes(before, after, r),
    ensures
        r is Say ==> after.1.over,
        r is On ==> !after.1.over && after.0 == before.0,
        r !is Finished,
        before.0[before.1.at as int].state is Done ==> all_but(
            before.0,
            after.0,
            before.1.at as int,
        ),
{
}

// ── Keys and news ──

/// Ctrl-Z stops the job in front and Ctrl-C asks it to end; no other key does
/// anything to it. A job that was stopped is left once nothing more is heard,
/// and one that does not end in time is killed.
pub proof fn law_keys_stop_and_cancel(b: u8, now: i64, t0: i64, chan: u64)
    ensures
        ({
            let (p, a) = jobs::fg_next(FgPhase::Watch, FgEvent::Key(b), now, chan);
            &&& a is Suspend <==> b == 26
            &&& a is Cancel <==> b == 3
            &&& b == 26 ==> p is Stopping
            &&& b == 3 ==> p == (FgPhase::Cancelling { t0: now })
            &&& b != 26 && b != 3 ==> p is Watch && a is ReadKey
        }),
        jobs::fg_next(FgPhase::Stopping, FgEvent::Quiet, now, chan).1 == FgAction::Finish(
            FgDone::Stopped,
        ),
        now - t0 <= 20 ==> jobs::fg_next(FgPhase::Cancelling { t0 }, FgEvent::NoKey, now, chan) == (
            FgPhase::Cancelling { t0 },
            FgAction::Rest,
        ),
        now - t0 > 20 ==> jobs::fg_next(FgPhase::Cancelling { t0 }, FgEvent::NoKey, now, chan) == (
            FgPhase::Killing,
            FgAction::Kill,
        ),
{
}

/// The end of the job in front ends the watch, in every phase; the end of
/// another does not, and a message that wants a reply gets one.
pub proof fn law_watch_ends_with_its_job(phase: FgPhase, m: Msg, now: i64, chan: u64)
    ensures
        ({
            let (p, a) = jobs::fg_next(phase, FgEvent::Heard(m), now, chan);
            &&& p == phase
            &&& m.exit && m.chan == chan ==> a == FgAction::Finish(FgDone::Exited(m.code))
            &&& m.exit && m.chan != chan ==> a is Poll
            &&& !m.exit ==> a is Reply
        }),
{
}

/// The news that someone ended reaches the job on that channel, with its code,
/// and no other; its grants are given up then, and those of no other.
pub proof fn law_end_reaches_its_job(list: Seq<JobView>, chan: u64, code: i64, i: int, g: u64)
    requires
        0 <= i < list.len(),
    ensures
        ({
            let after = jobs::jobs_after_exit(list, chan, code);
            &&& after.len() == list.len()
            &&& list[i].chan == chan && !(list[i].state is Done) ==> after[i].state
                == JobState::Done(code) && after[i].pid == list[i].pid && after[i].cmd
                == list[i].cmd
            &&& list[i].chan != chan ==> after[i] == list[i]
        }),
        list[i].chan == chan && !(list[i].state is Done) && list[i].grants.contains(g)
            ==> jobs::freed(list, chan).contains(g),
        (forall|k: int| 0 <= k < list.len() ==> (#[trigger] list[k]).chan != chan) ==> jobs::freed(
            list,
            chan,
        ).len() == 0,
    decreases list.len(),
{
    let d = list.drop_last();
    let f = jobs::freed(d, chan);
    let own = list.last().grants;
    if d.len() > 0 {
        let k = if i < d.len() {
            i
        } else {
            0
        };
        law_end_reaches_its_job(d, chan, code, k, g);
        if i < d.len() {
            assert(d[i] == list[i]);
        }
        if forall|x: int| 0 <= x < list.len() ==> (#[trigger] list[x]).chan != chan {
            assert forall|x: int| 0 <= x < d.len() implies (#[trigger] d[x]).chan != chan by {
                assert(d[x] == list[x]);
            }
        }
    }
    assert(list.last() == list[list.len() - 1]);
    if list[i].chan == chan && !(list[i].state is Done) && list[i].grants.contains(g) {
        let all = jobs::freed(list, chan);
        if i < d.len() {
            let x = choose|x: int| 0 <= x < f.len() && f[x] == g;
            assert(all[x] == g);
        } else {
            let x = choose|x: int| 0 <= x < own.len() && own[x] == g;
            assert(all[f.len() + x] == g);
        }
    }
}

/// A number behind a percent sign is a place in the table, a number by itself
/// is a pid, and nothing is the last job.
pub proof fn law_job_that_is_meant(list: Seq<JobView>, n: nat, i: int)
    requires
        n <= i64::MAX,
        0 <= i < list.len(),
        list[i].pid == n,
        forall|k: int| 0 <= k < i ==> (#[trigger] list[k]).pid != n,
    ensures
        jobs::meant_job(list, None) == Ok::<int, JobError>(list.len() - 1),
        jobs::meant_job(list, Some(bytes::decimal(n))) == Ok::<int, JobError>(i),
        n < list.len() ==> jobs::meant_job(list, Some(seq![37u8] + bytes::decimal(n))) == Ok::<
            int,
            JobError,
        >(n as int),
        n >= list.len() ==> jobs::meant_job(list, Some(seq![37u8] + bytes::decimal(n))) == Err::<
            int,
            JobError,
        >(JobError::NoSuchJob),
{
    let d = bytes::decimal(n);
    bytes::lemma_decimal_round_trip(n);
    assert(bytes::digit_byte(d[0]));
    assert(bytes::all_digits(d));
    assert(jobs::parsed_signed(d) == Some(n as int));
    lemma_pid_index(list, n as i64, 0, i);
    let p = seq![37u8] + d;
    assert(p.skip(1) =~= d);
}

proof fn lemma_pid_index(list: Seq<JobView>, pid: i64, k: int, i: int)
    requires
        0 <= k <= i < list.len(),
        list[i].pid == pid,
        forall|x: int| k <= x < i ==> (#[trigger] list[x]).pid != pid,
    ensures
        jobs::pid_index(list, pid, k) == i,
    decreases i - k,
{
    if k < i {
        assert(list[k].pid != pid);
        lemma_pid_index(list, pid, k + 1, i);
    }
}

/// The code of a program of a group is taken down when it ends, and no other.
pub proof fn law_code_is_taken_down(chans: Seq<u64>, codes: Seq<Option<i64>>, m: Msg, i: int)
    requires
        0 <= i < codes.len(),
        codes.len() == chans.len(),
    ensures
        m.exit && chans[i] == m.chan && codes[i] is None ==> jobs::codes_after(chans, codes, m)[i]
            == Some(m.code),
        !m.exit || chans[i] != m.chan ==> jobs::codes_after(chans, codes, m)[i] == codes[i],
        jobs::codes_after(chans, codes, m).len() == codes.len(),
{
}

/// Only a failure is said, and with its code.
pub proof fn law_only_failure_is_said(code: i64)
    ensures
        code == 0 <==> jobs::exit_text(code).len() == 0,
{
    reveal_strlit("[exit ");
    vstd::utf8::is_ascii_chars_encode_utf8("[exit "@);
}

} // verus!
