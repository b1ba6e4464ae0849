use velordor::shell::builtins::{builtin, is_builtin, Builtin};
use velordor::shell::cwd::Cwd;
use velordor::shell::exec::{
    after_line, cmd_exit, cmd_source, enter_env, exec_single, fill_heredocs, implicit_run,
    leave_env, next_delim, prompt, read_heredoc, report_parse_error, set_all, single_step,
    source_asked, source_read, to_links, to_stage, FileFact, LineError, LineOutcome, Link, Next,
    Order, ScriptSrc, Single, SingleAsk, SingleEnd, SingleEvent, SingleSay, Source,
    SOURCE_MAX_DEPTH,
};
use velordor::shell::jobs::Jobs;
use velordor::shell::load::{
    child_env, join_spaced, load_prog, lookup, resolve_prog, Load, Loaded, Lookup,
    SHEBANG_MAX_DEPTH,
};
use velordor::shell::parser::{parse_line, Conn, Op, ParseError, Vars};
use velordor::shell::pipeline::{
    take_entry, Ask, BodyStep, BodyWriter, Effects, Entry, Pipeline, SpawnError, Stage,
    BODY_PATIENCE,
};
use velordor::shell::redirect::{
    close_all, report_open_error, Need, OpenError, Opening, Redirect, NO_FD,
};
use velordor::shell::run::{Run, RunAsk};

fn strs(v: &[&str]) -> Vec<Vec<u8>> {
    v.iter().map(|s| s.as_bytes().to_vec()).collect()
}

fn stage(argv: &[&str]) -> Stage {
    Stage { argv: strs(argv), env: vec![], redirs: vec![], bg: false }
}

fn to_file(slot: u8, target: &str) -> Redirect {
    Redirect {
        slot,
        append: false,
        dup_to_1: false,
        target: target.as_bytes().to_vec(),
        heredoc: false,
        body: None,
    }
}

fn heredoc(delim: &str) -> Redirect {
    Redirect { heredoc: true, ..to_file(0, delim) }
}

fn none() -> [i64; 3] {
    [NO_FD, NO_FD, NO_FD]
}

#[test]
fn names_of_builtins() {
    assert_eq!(builtin(b"ls"), Some(Builtin::Ls));
    assert_eq!(builtin(b"hexdump"), Some(Builtin::Hexdump));
    assert_eq!(builtin(b"LS"), None);
    assert!(is_builtin(b"exit"));
    assert!(!is_builtin(b"runhello"));
}

#[test]
fn lines_of_a_script() {
    let mut s = ScriptSrc::new(b"a\nb\n\nc");
    assert_eq!(s.next_line(), Some(b"a".to_vec()));
    assert_eq!(read_heredoc(&mut s, b"c"), Some(b"b\n\n".to_vec()));
    assert_eq!(s.next_line(), None);
    let mut open = ScriptSrc::new(b"x\ny\n");
    assert_eq!(read_heredoc(&mut open, b"END"), None);
}

#[test]
fn here_documents_are_filled_in_order() {
    let mut st = vec![stage(&["cat"]), stage(&["wc"])];
    st[0].redirs.push(heredoc("A"));
    st[1].redirs.push(heredoc("B"));
    assert_eq!(next_delim(&st), Some(b"A".to_vec()));
    let mut src = ScriptSrc::of_lines(strs(&["1", "A", "2", "B", "rest"]));
    assert!(fill_heredocs(&mut st, &mut src));
    assert_eq!(st[0].redirs[0].body, Some(b"1\n".to_vec()));
    assert_eq!(st[1].redirs[0].body, Some(b"2\n".to_vec()));
    assert_eq!(next_delim(&st), None);
    assert_eq!(src.next_line(), Some(b"rest".to_vec()));
}

#[test]
fn short_circuit() {
    let st = vec![stage(&["a"]), stage(&["b"]), stage(&["c"]), stage(&["d"])];
    let links = vec![Link::And, Link::Or, Link::Always];
    let mut o = Order::new(0);
    assert_eq!(o.exec_seq(&st, &links), Next::Single(0));
    o.ran(1);
    // The second is skipped, the third stands behind `||`.
    assert_eq!(o.exec_seq(&st, &links), Next::Single(2));
    o.ran(0);
    assert_eq!(o.exec_seq(&st, &links), Next::Single(3));
    o.ran(5);
    assert_eq!(o.exec_seq(&st, &links), Next::Done);
    assert_eq!(o.status, 5);
    // After success the one behind `||` is skipped.
    let mut o = Order::new(0);
    o.exec_seq(&st, &links);
    o.ran(0);
    assert_eq!(o.exec_seq(&st, &links), Next::Single(1));
    o.ran(0);
    assert_eq!(o.exec_seq(&st, &links), Next::Single(3));
}

#[test]
fn pipes_group_commands() {
    let st = vec![stage(&["a"]), stage(&["b"]), stage(&["c"])];
    let links = vec![Link::Pipe, Link::Always];
    let mut o = Order::new(0);
    assert_eq!(o.exec_seq(&st, &links), Next::Pipeline { from: 0, to: 1 });
    assert_eq!(o.exec_seq(&st, &links), Next::Single(2));
    // A here-document is fed through a pipe, so one command can be a pipeline.
    let mut one = vec![stage(&["cat"])];
    one[0].redirs.push(heredoc("E"));
    assert_eq!(Order::new(0).exec_seq(&one, &vec![]), Next::Pipeline { from: 0, to: 0 });
}

#[test]
fn kinds_of_commands() {
    assert_eq!(exec_single(&strs(&[]), false), Single::Assign);
    assert_eq!(exec_single(&strs(&["run", "x"]), false), Single::Run);
    assert_eq!(exec_single(&strs(&["prog"]), false), Single::Program);
    assert_eq!(exec_single(&strs(&["ls"]), false), Single::Builtin(Builtin::Ls));
    assert_eq!(exec_single(&strs(&["exit", "3"]), true), Single::ExitScript(3, false));
    assert_eq!(exec_single(&strs(&["exit"]), true), Single::ExitScript(0, false));
    assert_eq!(exec_single(&strs(&["exit", "x"]), true), Single::ExitScript(1, true));
    assert_eq!(exec_single(&strs(&["exit", "3"]), false), Single::Builtin(Builtin::Exit));
    assert_eq!(cmd_exit(&strs(&["exit", "-4"])), Some(-4));
    assert_eq!(implicit_run(b"/fat/bin/p", &strs(&["p", "a"])), strs(&["run", "/fat/bin/p", "a"]));
}

fn over(ask: SingleAsk) -> SingleEnd {
    match ask {
        SingleAsk::Finish(e) => e,
        _ => panic!("not over"),
    }
}

#[test]
fn commands_step_by_step() {
    let ls = Single::Builtin(Builtin::Ls);
    assert_eq!(single_step(&ls, SingleEvent::Started), SingleAsk::OpenRedirs);
    assert_eq!(single_step(&ls, SingleEvent::Opened), SingleAsk::Carry(Builtin::Ls));
    let e = over(single_step(&ls, SingleEvent::Ended(4)));
    assert_eq!((e.restore, e.close, e.set, e.say), (true, true, false, None));
    assert_eq!(e.outcome, LineOutcome::Continue(4));
    // Redirections come before variables; nothing is set if one cannot be opened.
    assert_eq!(single_step(&Single::Assign, SingleEvent::Started), SingleAsk::OpenRedirs);
    let e = over(single_step(&Single::Assign, SingleEvent::Opened));
    assert_eq!((e.restore, e.close, e.set, e.say), (false, true, true, None));
    assert_eq!(e.outcome, LineOutcome::Continue(0));
    for kind in [Single::Assign, ls] {
        let e = over(single_step(&kind, SingleEvent::OpenFailed));
        assert_eq!((e.restore, e.close, e.set), (false, false, false));
        assert_eq!(e.say, Some(SingleSay::OpenError));
        assert_eq!(e.outcome, LineOutcome::Continue(1));
    }
    // A program is looked for first.
    assert_eq!(single_step(&Single::Program, SingleEvent::Started), SingleAsk::Look);
    assert_eq!(single_step(&Single::Program, SingleEvent::Looked(true)), SingleAsk::RunFound);
    let e = over(single_step(&Single::Program, SingleEvent::Looked(false)));
    assert_eq!(e.say, Some(SingleSay::Line(LineError::Unknown)));
    assert_eq!(e.outcome, LineOutcome::Continue(127));
    assert_eq!(single_step(&Single::Run, SingleEvent::Started), SingleAsk::RunWords);
    let e = over(single_step(&Single::Run, SingleEvent::Ended(-3)));
    assert_eq!((e.say, e.outcome), (None, LineOutcome::Continue(-3)));
    // The end of a script.
    let e = over(single_step(&Single::ExitScript(1, true), SingleEvent::Started));
    assert_eq!(e.say, Some(SingleSay::Line(LineError::BadCode)));
    assert_eq!(e.outcome, LineOutcome::Exit(1));
    let e = over(single_step(&Single::ExitScript(3, false), SingleEvent::Started));
    assert_eq!((e.say, e.outcome), (None, LineOutcome::Exit(3)));
}

#[test]
fn variables_of_one_command() {
    let mut v = Vars::new();
    v.vars_set(b"A", b"1");
    let env = vec![(b"A".to_vec(), b"2".to_vec()), (b"B".to_vec(), b"3".to_vec())];
    let saved = enter_env(&mut v, &env);
    assert_eq!(v.vars_get(b"A"), Some(b"2".to_vec()));
    assert_eq!(v.vars_get(b"B"), Some(b"3".to_vec()));
    leave_env(&mut v, &saved);
    assert_eq!(v.vars_get(b"A"), Some(b"1".to_vec()));
    assert_eq!(v.vars_get(b"B"), None);
    set_all(&mut v, &env);
    assert_eq!(v.vars_get(b"B"), Some(b"3".to_vec()));
}

#[test]
fn complaints_about_lines() {
    assert_eq!(
        report_parse_error(ParseError::MissingTarget(Op::E2Gt)),
        b"redirect: missing target after 2>\n"
    );
    assert_eq!(report_parse_error(ParseError::BadSubst), b"sostituzione errata\n");
    assert!(!report_parse_error(ParseError::PipeUnsupported).is_empty());
    assert!(!report_parse_error(ParseError::EnvPrefix).is_empty());
}

#[test]
fn a_line_becomes_stages() {
    let l = match parse_line(b"p a >f && q", &Vars::new(), 0, 1) {
        Ok(l) => l,
        Err(_) => panic!("refused"),
    };
    let st = to_stage(&l.cmds[0], strs(&["p", "a"]));
    assert_eq!(st.argv, strs(&["p", "a"]));
    assert_eq!(st.redirs[0].target, b"f");
    assert!(!st.redirs[0].heredoc);
    assert_eq!(to_links(&l.cons), [Link::And]);
    assert_eq!(to_links(&vec![Conn::Or, Conn::Always]), [Link::Or, Link::Always]);
}

#[test]
fn sourcing_a_file() {
    let at = Cwd::new();
    match cmd_source(&strs(&["source", "f"]), 0, &at) {
        Source::Ask(p) => assert_eq!(p, b"/f"),
        _ => panic!("not asked"),
    }
    match cmd_source(&strs(&["source"]), 0, &at) {
        Source::Failed(t) => assert_eq!(t, b"source: usage: source <file>\n"),
        _ => panic!("no failure"),
    }
    match cmd_source(&strs(&["source", "f"]), SOURCE_MAX_DEPTH, &at) {
        Source::Failed(t) => assert_eq!(t, b"source: nesting too deep\n"),
        _ => panic!("no failure"),
    }
    match source_asked(b"f", None) {
        Source::Failed(t) => assert_eq!(t, b"source: cannot load f\n"),
        _ => panic!("no failure"),
    }
    assert!(matches!(source_asked(b"f", Some(FileFact { is_file: true, size: 0 })), Source::Nothing));
    assert!(matches!(source_asked(b"f", Some(FileFact { is_file: true, size: 5 })), Source::Read));
    match source_read(b"f", &Some(vec![0xFF, 0xFE])) {
        Source::Failed(t) => assert_eq!(t, b"source: not text\n"),
        _ => panic!("no failure"),
    }
    match source_read(b"f", &Some("ls\n\u{e8}".as_bytes().to_vec())) {
        Source::Run(s) => assert_eq!(s.lines, [b"ls".to_vec(), "\u{e8}".as_bytes().to_vec()]),
        _ => panic!("not run"),
    }
    assert_eq!(after_line(3, None), (3, true));
    assert_eq!(after_line(3, Some(LineOutcome::Continue(0))), (0, true));
    assert_eq!(after_line(3, Some(LineOutcome::Exit(9))), (9, false));
}

#[test]
fn prompts() {
    let mut at = Cwd::new();
    assert_eq!(prompt(&at), b"$ ");
    at.cwd_set(b"/fat");
    assert_eq!(prompt(&at), b"/fat$ ");
}

#[test]
fn where_programs_are_looked_for() {
    let at = Cwd::new();
    let mut v = Vars::new();
    match lookup(b"./p", &v, &at) {
        Lookup::At(p) => assert_eq!(p, b"/p"),
        Lookup::Among(_) => panic!("searched"),
    }
    match lookup(b"p", &v, &at) {
        Lookup::Among(c) => {
            assert_eq!(c, strs(&["/fat/bin/p", "/fat/bin/p.bin"]));
            assert_eq!(resolve_prog(Lookup::Among(c), &vec![false, true]), Some(b"/fat/bin/p.bin".to_vec()));
        },
        Lookup::At(_) => panic!("not searched"),
    }
    v.vars_set(b"PATH", b"/a:/b");
    match lookup(b"p", &v, &at) {
        Lookup::Among(c) => {
            assert_eq!(c, strs(&["/a/p", "/a/p.bin", "/b/p", "/b/p.bin"]));
            assert_eq!(resolve_prog(Lookup::Among(c), &vec![false, false, false, false]), None);
        },
        Lookup::At(_) => panic!("not searched"),
    }
}

#[test]
fn environment_of_a_program() {
    let mut v = Vars::new();
    v.vars_set(b"A", b"1");
    let extra = vec![(b"A".to_vec(), b"2".to_vec())];
    let env = child_env(&extra, &v, &Cwd::new());
    let get = |n: &[u8]| env.iter().find(|e| e.0 == n).map(|e| e.1.clone());
    assert_eq!(get(b"PWD"), Some(b"/".to_vec()));
    assert_eq!(get(b"A"), Some(b"2".to_vec()));
    assert_eq!(env.iter().filter(|e| e.0 == b"A").count(), 1);
}

#[test]
fn loading_programs_and_scripts() {
    let rest = strs(&["x"]);
    match load_prog(b"p", &rest, 0, Some(b"/b/p".to_vec()), &Some(vec![0x7F, 0x45])) {
        Load::Ready(l) => {
            assert_eq!(l.argv, strs(&["/b/p", "x"]));
            assert_eq!(l.cmdline, b"/b/p x");
        },
        _ => panic!("not ready"),
    }
    match load_prog(b"s", &rest, 1, Some(b"/b/s".to_vec()), &Some(b"#!/bin/i -v\nbody".to_vec())) {
        Load::Script { prog, rest, depth } => {
            assert_eq!(prog, b"/bin/i");
            assert_eq!(rest, strs(&["-v", "/b/s", "x"]));
            assert_eq!(depth, 2);
        },
        _ => panic!("no script"),
    }
    let failed = |r: Load| match r {
        Load::Failed(t) => t,
        _ => panic!("no failure"),
    };
    assert_eq!(failed(load_prog(b"p", &rest, 0, None, &None)), b"run: cannot load p\n");
    assert_eq!(
        failed(load_prog(b"p", &rest, 0, Some(b"/p".to_vec()), &Some(b"#!\n".to_vec()))),
        b"run: bad interpreter\n"
    );
    assert_eq!(
        failed(load_prog(
            b"p",
            &rest,
            SHEBANG_MAX_DEPTH,
            Some(b"/p".to_vec()),
            &Some(b"#!/bin/i\n".to_vec())
        )),
        b"run: shebang too deep\n"
    );
    // The last interpreter may be a program.
    assert!(!matches!(
        load_prog(b"p", &rest, SHEBANG_MAX_DEPTH, Some(b"/p".to_vec()), &Some(vec![1])),
        Load::Failed(_)
    ));
    assert_eq!(join_spaced(&strs(&["a", "b"])), b"a b");
}

#[test]
fn redirections_are_opened_in_order() {
    let at = Cwd::new();
    let dup = Redirect { dup_to_1: true, ..to_file(2, "") };
    let redirs = vec![to_file(1, "f"), to_file(1, "g"), dup];
    let mut o = Opening::new(none());
    let mut closes = vec![];
    match o.need(&redirs, &at) {
        Need::Open { path, flags } => assert_eq!((path, flags), (b"/f".to_vec(), 0x600)),
        _ => panic!("nothing to open"),
    }
    assert!(o.step(&redirs, Some(4), &mut closes));
    assert!(closes.is_empty());
    // The second takes the place of the first.
    assert!(o.step(&redirs, Some(5), &mut closes));
    assert_eq!(closes, [4]);
    assert!(matches!(o.need(&redirs, &at), Need::Nothing));
    assert!(o.step(&redirs, None, &mut closes));
    assert_eq!(o.fds, [NO_FD, 5, 5]);
    assert!(matches!(o.need(&redirs, &at), Need::Done));
    assert_eq!(close_all(&o.fds), [5]);
}

#[test]
fn a_failed_redirection_leaves_nothing_open() {
    let redirs = vec![to_file(0, "in"), to_file(1, "out")];
    let mut o = Opening::new(none());
    let mut closes = vec![];
    assert!(o.step(&redirs, Some(4), &mut closes));
    assert!(!o.step(&redirs, None, &mut closes));
    assert_eq!(closes, [4]);
    assert_eq!(o.fds, none());
    assert_eq!(
        report_open_error(b"out", OpenError::NotFound),
        b"redirect: cannot open out: no such file or directory\n"
    );
    for e in [OpenError::ReadOnly, OpenError::IsDir, OpenError::Other] {
        assert!(report_open_error(b"out", e).starts_with(b"redirect: cannot open out"));
    }
}

#[test]
fn a_pipeline_of_two_programs() {
    let st = vec![stage(&["run", "p"]), stage(&["wc"])];
    let mut fx = Effects::new();
    let (mut p, ask) = Pipeline::cmd_pipeline(&st, &mut fx);
    assert!(matches!(ask, Ask::Pipe));
    match p.piped(&st, Some((4, 5)), &mut fx) {
        Ask::Open { seed } => assert_eq!(seed, [NO_FD, 5, NO_FD]),
        _ => panic!("not opened"),
    }
    match p.opened(&st, Some([NO_FD, 5, NO_FD]), b"", &mut fx) {
        Ask::Grant(fd) => assert_eq!(fd, 5),
        _ => panic!("no grant"),
    }
    match p.granted(&st, Some(77), &mut fx) {
        Ask::Load { prog, rest } => {
            assert_eq!(prog, b"p");
            assert!(rest.is_empty());
        },
        _ => panic!("not loaded"),
    }
    assert!(matches!(p.loaded(&st, None, &mut fx), Ask::SpawnProgram));
    match p.spawned(&st, Ok(20), &mut fx) {
        Ask::Open { seed } => assert_eq!(seed, [4, NO_FD, NO_FD]),
        _ => panic!("not opened"),
    }
    assert_eq!(fx.close, [5]);
    assert!(matches!(p.opened(&st, Some([4, NO_FD, NO_FD]), b"", &mut fx), Ask::Grant(4)));
    assert!(matches!(p.granted(&st, Some(78), &mut fx), Ask::SpawnBuiltin));
    match p.spawned(&st, Ok(21), &mut fx) {
        Ask::Feed { bodies, chans } => {
            assert!(bodies.is_empty());
            assert_eq!(chans, [20, 21]);
        },
        _ => panic!("not fed"),
    }
    // At the end both ends are let go of once more; closing twice does nothing.
    assert_eq!(fx.close, [5, 4, 4, 5]);
    match p.ended(&st, &vec![Some(0), Some(3)], &mut fx) {
        Ask::Finished(code) => assert_eq!(code, 3),
        _ => panic!("not finished"),
    }
}

#[test]
fn a_failed_pipeline_gives_everything_back() {
    let st = vec![stage(&["p"]), stage(&["wc"])];
    let mut fx = Effects::new();
    let (mut p, _) = Pipeline::cmd_pipeline(&st, &mut fx);
    p.piped(&st, Some((4, 5)), &mut fx);
    p.opened(&st, Some([NO_FD, 5, NO_FD]), b"", &mut fx);
    p.granted(&st, Some(77), &mut fx);
    match p.loaded(&st, Some(b"run: cannot load p\n".to_vec()), &mut fx) {
        Ask::Finished(code) => assert_eq!(code, 1),
        Ask::Feed { chans, .. } => assert!(chans.is_empty()),
        _ => panic!("goes on"),
    }
    assert_eq!(fx.err, b"run: cannot load p\nunknown command: p\n");
    let mut closed = fx.close.clone();
    closed.sort();
    closed.dedup();
    assert_eq!(closed, [4, 5]);
    assert_eq!(fx.cancel, [77]);
}

#[test]
fn pipes_and_starts_that_fail() {
    let st = vec![stage(&["p"]), stage(&["q"])];
    let mut fx = Effects::new();
    let (mut p, _) = Pipeline::cmd_pipeline(&st, &mut fx);
    p.piped(&st, None, &mut fx);
    assert_eq!(fx.err, b"pipe: creazione fallita\n");
    let mut fx = Effects::new();
    let (mut p, _) = Pipeline::cmd_pipeline(&st, &mut fx);
    p.piped(&st, Some((4, 5)), &mut fx);
    p.opened(&st, Some([NO_FD, 5, NO_FD]), b"", &mut fx);
    p.granted(&st, Some(1), &mut fx);
    p.loaded(&st, None, &mut fx);
    p.spawned(&st, Err(SpawnError::TooLong), &mut fx);
    assert_eq!(fx.err, b"run: argv troppo lunghi\n");
    assert_eq!(fx.cancel, [1]);
}

#[test]
fn entries_of_a_child() {
    let mut fds = none();
    assert!(take_entry(&mut fds, Entry::Grant { vfd: 1, nonce: 9 }, Some(6)));
    assert!(take_entry(&mut fds, Entry::Alias { vfd: 2, target: 1 }, None));
    assert_eq!(fds, [NO_FD, 6, 6]);
    assert!(!take_entry(&mut fds, Entry::Grant { vfd: 0, nonce: 9 }, None));
}

#[test]
fn bodies_are_written_in_pieces() {
    let mut w = BodyWriter::new();
    assert!(matches!(w.wrote(10, Some(4)), BodyStep::Write(4)));
    assert!(matches!(w.wrote(10, Some(0)), BodyStep::Pause(4)));
    assert!(matches!(w.wrote(10, Some(6)), BodyStep::Close));
    let mut gone = BodyWriter::new();
    assert!(matches!(gone.wrote(10, None), BodyStep::Close));
    let mut full = BodyWriter { done: 0, idle: BODY_PATIENCE };
    assert!(matches!(full.wrote(10, Some(0)), BodyStep::Close));
}

#[test]
fn run_in_the_background() {
    let mut fx = Effects::new();
    let (mut r, ask) = Run::cmd_run(&strs(&["run", "p"]), &mut fx);
    assert_eq!(ask, RunAsk::Load);
    let redirs = vec![to_file(1, "f")];
    assert_eq!(r.loaded(&redirs, &None, &mut fx), RunAsk::Open);
    assert_eq!(r.opened(Some([NO_FD, 6, 6]), b"", &mut fx), RunAsk::Grant(6));
    assert_eq!(r.granted(Some(5), &mut fx), RunAsk::Spawn);
    let mut jobs = Jobs::new();
    let prog = Loaded { argv: strs(&["/p"]), cmdline: b"/p".to_vec() };
    assert_eq!(r.spawned(Ok((9, 30)), &prog, true, &mut jobs, &mut fx), RunAsk::Finished(0));
    assert_eq!(jobs.list.len(), 1);
    assert_eq!(jobs.list[0].grants, [5]);
    assert_eq!(fx.close, [6]);
    assert!(fx.cancel.is_empty());
}

#[test]
fn a_failed_run_leaves_nothing() {
    let mut fx = Effects::new();
    let (_, ask) = Run::cmd_run(&strs(&["run"]), &mut fx);
    assert_eq!(ask, RunAsk::Finished(1));
    assert_eq!(fx.err, b"run: usage: run <path> [args...] [&]\n");
    let mut fx = Effects::new();
    let (mut r, _) = Run::cmd_run(&strs(&["run", "p"]), &mut fx);
    r.loaded(&vec![to_file(0, "i"), to_file(1, "f")], &None, &mut fx);
    r.opened(Some([7, 6, NO_FD]), b"", &mut fx);
    assert_eq!(r.granted(Some(5), &mut fx), RunAsk::Grant(6));
    assert_eq!(r.granted(None, &mut fx), RunAsk::Finished(1));
    assert_eq!(fx.err, b"run: redirect grant failed\n");
    assert_eq!(fx.close, [7, 6]);
    assert_eq!(fx.cancel, [5]);
}
