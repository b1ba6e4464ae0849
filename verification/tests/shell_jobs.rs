use velordor::shell::jobs::{
    bring, brought_on, cmd_jobs, finish_front, parse_i64, print_bg, print_job, print_stopped,
    report_exit, report_job_error, report_wait_error, report_waited, resolve_job, wait_all, Bring,
    Fg, FgAction, FgDone, FgEvent, Heard, Job, JobError, JobState, Jobs, Msg, WaitError, WaitStep,
    Waiting, CANCEL_GRACE,
};

fn job(pid: i64, chan: u64) -> Job {
    Job {
        pid,
        chan,
        cmd: b"p a".to_vec(),
        bg: true,
        state: JobState::Running,
        grants: vec![chan + 100],
    }
}

fn table(pids: &[i64]) -> Jobs {
    let mut j = Jobs::new();
    for (i, p) in pids.iter().enumerate() {
        j.start(job(*p, 10 + i as u64));
    }
    j
}

#[test]
fn signed_numbers() {
    assert_eq!(parse_i64(b"-12"), Some(-12));
    assert_eq!(parse_i64(b"+7"), Some(7));
    assert_eq!(parse_i64(b"9223372036854775807"), Some(i64::MAX));
    assert_eq!(parse_i64(b"-9223372036854775807"), Some(-i64::MAX));
    // The digits have to fit without the sign.
    assert_eq!(parse_i64(b"-9223372036854775808"), None);
    assert_eq!(parse_i64(b"9223372036854775808"), None);
    assert_eq!(parse_i64(b""), None);
    assert_eq!(parse_i64(b"-"), None);
    assert_eq!(parse_i64(b"1x"), None);
}

#[test]
fn listed_jobs() {
    assert_eq!(cmd_jobs(&Jobs::new()), b"no jobs\n");
    let mut j = table(&[7, 9]);
    assert_eq!(cmd_jobs(&j), b"[0] pid 7 run p a\n[1] pid 9 run p a\n");
    let cancelled = j.note_exit(11, 3);
    assert_eq!(cancelled, [111]);
    assert_eq!(print_job(1, &j.list[1]), b"[1] pid 9 done 3 p a\n");
    assert_eq!(print_stopped(0, b"p a"), b"[0]+ Stopped p a\n");
    assert_eq!(print_bg(7), b"[bg pid 7]\n");
    assert_eq!(report_exit(0), b"");
    assert_eq!(report_exit(3), b"[exit 3]\n");
    assert_eq!(report_exit(-1), b"[exit 18446744073709551615]\n");
}

#[test]
fn a_code_stays_once_it_is_there() {
    let mut j = table(&[7]);
    assert_eq!(j.note_exit(10, 3), [110]);
    assert!(j.note_exit(10, 4).is_empty());
    assert_eq!(j.list[0].state, JobState::Done(3));
}

#[test]
fn messages_while_waiting() {
    let mut j = table(&[7, 9]);
    let mut cancel = vec![];
    let m = Msg { exit: true, chan: 11, code: 5 };
    assert_eq!(j.hear(m, Some(10), &mut cancel), Heard::Noted);
    assert_eq!(j.list[1].state, JobState::Done(5));
    let m = Msg { exit: true, chan: 10, code: 6 };
    assert_eq!(j.hear(m, Some(10), &mut cancel), Heard::Ended(6));
    let m = Msg { exit: false, chan: 12, code: 0 };
    assert_eq!(j.hear(m, Some(10), &mut cancel), Heard::Reply);
}

#[test]
fn which_job_is_meant() {
    let j = table(&[7, 9]);
    assert_eq!(resolve_job(&j, None), Ok(1));
    assert_eq!(resolve_job(&j, Some(b"%0")), Ok(0));
    assert_eq!(resolve_job(&j, Some(b"9")), Ok(1));
    assert_eq!(resolve_job(&j, Some(b"%2")), Err(JobError::NoSuchJob));
    assert_eq!(resolve_job(&j, Some(b"8")), Err(JobError::NoSuchJob));
    assert_eq!(resolve_job(&j, Some(b"x")), Err(JobError::BadSpec));
    assert_eq!(resolve_job(&Jobs::new(), None), Err(JobError::NoJobs));
    assert_eq!(report_job_error(b"fg", JobError::NoJobs), b"fg: no jobs\n");
    assert_eq!(report_job_error(b"bg", JobError::NoSuchJob), b"bg: no such job\n");
    assert_eq!(report_job_error(b"fg", JobError::BadSpec), b"fg: bad job spec\n");
}

#[test]
fn a_job_in_front_ends() {
    let mut j = table(&[7]);
    let mut cancel = vec![];
    let mut fg = Fg::new(10);
    assert_eq!(fg.wait_fg(FgEvent::Quiet, 0, &mut j, &mut cancel), FgAction::ReadKey);
    assert_eq!(fg.wait_fg(FgEvent::NoKey, 0, &mut j, &mut cancel), FgAction::Rest);
    let m = Msg { exit: true, chan: 10, code: 4 };
    assert_eq!(
        fg.wait_fg(FgEvent::Heard(m), 1, &mut j, &mut cancel),
        FgAction::Finish(FgDone::Exited(4))
    );
    let out = finish_front(&mut j, 0, FgDone::Exited(4));
    assert_eq!(out.code, 4);
    assert_eq!(out.out, b"[exit 4]\n");
}

#[test]
fn ctrl_c_kills_after_the_grace() {
    let mut j = table(&[7]);
    let mut cancel = vec![];
    let mut fg = Fg::new(10);
    assert_eq!(fg.wait_fg(FgEvent::Key(3), 100, &mut j, &mut cancel), FgAction::Cancel);
    let before = 100 + CANCEL_GRACE;
    assert_eq!(fg.wait_fg(FgEvent::NoKey, before, &mut j, &mut cancel), FgAction::Rest);
    let at = before + 1;
    assert_eq!(fg.wait_fg(FgEvent::NoKey, at, &mut j, &mut cancel), FgAction::Kill);
    // It is killed once.
    assert_eq!(fg.wait_fg(FgEvent::NoKey, at + 1, &mut j, &mut cancel), FgAction::Rest);
}

#[test]
fn ctrl_z_stops() {
    let mut j = table(&[7]);
    let mut cancel = vec![];
    let mut fg = Fg::new(10);
    assert_eq!(fg.wait_fg(FgEvent::Key(26), 0, &mut j, &mut cancel), FgAction::Suspend);
    let out = finish_front(&mut j, 0, FgDone::Stopped);
    assert_eq!(j.list[0].state, JobState::Stopped);
    assert!(out.out.ends_with(b"Stopped p a\n") || out.err.ends_with(b"Stopped p a\n"));
    // Brought back to the front, it has to be resumed first.
    match bring(&mut j, 0, true) {
        Bring::Resume(pid) => assert_eq!(pid, 7),
        _ => panic!("not resumed"),
    }
    match brought_on(&mut j, 0, true, true) {
        Bring::Watch { chan, pid } => assert_eq!((chan, pid), (10, 7)),
        _ => panic!("not watched"),
    }
    assert_eq!(j.list[0].state, JobState::Running);
}

#[test]
fn a_job_that_cannot_be_resumed() {
    let mut j = table(&[7]);
    j.list[0].state = JobState::Stopped;
    match brought_on(&mut j, 0, true, false) {
        Bring::Over(o) => {
            assert_eq!(o.code, 1);
            assert_eq!(o.err, b"fg: resume failed\n");
        },
        _ => panic!("resumed"),
    }
}

#[test]
fn waiting_for_one_job() {
    let mut j = table(&[7, 9]);
    let mut w = match Waiting::cmd_wait(&j, Some(b"9")) {
        Ok(w) => w,
        Err(_) => panic!("refused"),
    };
    match w.next(&mut j) {
        WaitStep::On(chan) => assert_eq!(chan, 11),
        _ => panic!("no wait"),
    }
    let o = w.waited(&mut j, Some(2));
    assert_eq!(o.cancel, [111]);
    assert_eq!(o.out, b"pid 9: exit 2\n");
    // It is gone from the table, the other one is still there.
    assert_eq!(j.list.len(), 1);
    assert_eq!(report_waited(&j.list[0]), b"pid 7: wait failed\n");
    assert!(matches!(Waiting::cmd_wait(&j, Some(b"8")), Err(WaitError::NoSuchJob)));
    assert!(matches!(Waiting::cmd_wait(&j, Some(b"x")), Err(WaitError::BadPid)));
    assert_eq!(report_wait_error(WaitError::BadPid), b"wait: bad pid\n");
}

#[test]
fn codes_come_in_any_order() {
    let chans = vec![5, 6];
    let mut codes = vec![None, None];
    assert!(!wait_all(&chans, &mut codes, Msg { exit: true, chan: 6, code: 1 }));
    assert_eq!(codes, [None, Some(1)]);
    wait_all(&chans, &mut codes, Msg { exit: true, chan: 7, code: 9 });
    assert_eq!(codes, [None, Some(1)]);
    wait_all(&chans, &mut codes, Msg { exit: true, chan: 5, code: 2 });
    assert_eq!(codes, [Some(2), Some(1)]);
}
