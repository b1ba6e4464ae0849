use velordor::shell::builtins::Builtin;
use velordor::shell::cwd::Cwd;
use velordor::shell::exec::{report_line_error, LineError};
use velordor::shell::info::{
    cmd_clear, cmd_echo, cmd_help, cmd_kill, cmd_ps, copy_file, entry_path, hexdump_row, ls_args,
    ls_long, ls_names, ls_short, mv_removes, plan_file, report_copied, report_kill, report_refused,
    service_by_name, Copied, CopyStep, EntryFact, FileAsk, KillError, Process, Service, Victim, Wc,
};
use velordor::shell::line::{Editor, Esc, History, ESC_TRIES};
use velordor::shell::redirect::{any_turned, stream};
use velordor::shell::show::Show;

fn strs(v: &[&str]) -> Vec<Vec<u8>> {
    v.iter().map(|s| s.as_bytes().to_vec()).collect()
}

fn typed(keys: &[u8], hist: &mut History) -> (Option<Vec<u8>>, Editor, Vec<u8>) {
    let mut e = Editor::new(hist, true);
    let mut echo = vec![];
    let mut line = None;
    for k in keys {
        if let Some(l) = e.key(*k, hist, &mut echo) {
            line = Some(l);
        }
    }
    (line, e, echo)
}

#[test]
fn echo_joins_its_arguments() {
    assert_eq!(cmd_echo(&strs(&["echo", "a", "b c"])), b"a b c\n");
    assert_eq!(cmd_echo(&strs(&["echo"])), b"\n");
}

#[test]
fn wc_counts_in_pieces() {
    let mut a = Wc::new();
    a.count(b"one two\nthr");
    a.count(b"ee\n");
    let mut b = Wc::new();
    b.count(b"one two\nthree\n");
    assert_eq!(a, b);
    assert_eq!(a.report(b"f"), b"2 3 14 f\n");
}

#[test]
fn rows_of_hexdump() {
    assert_eq!(hexdump_row(0x1F0, &[0, 0xAB, 0x0F]), b"000001f0: 00 ab 0f \n");
}

#[test]
fn rows_of_ps() {
    let me = Process { pid: 4, name: b"sh".to_vec(), prio: 2, state: 1, ipc: 0, ticks: 9, parent: Some(1) };
    let other = Process { pid: 1, name: b"init".to_vec(), prio: 3, state: 0, ipc: 0, ticks: 7, parent: None };
    let text = String::from_utf8(cmd_ps(&vec![me, other], 4)).unwrap();
    let rows: Vec<&str> = text.lines().collect();
    assert_eq!(rows[0].split_whitespace().collect::<Vec<&str>>(), ["PID", "NAME", "PRIO", "STATE", "TIME", "PARENT"]);
    assert_eq!(rows[1].split_whitespace().collect::<Vec<&str>>(), ["4", "sh", "2", "run", "9", "1"]);
    assert_eq!(rows[2].split_whitespace().collect::<Vec<&str>>(), ["1", "init", "3", "ready", "7", "-"]);
}

#[test]
fn victims_of_kill() {
    assert_eq!(service_by_name(b"tty"), Some(Service::Tty));
    assert_eq!(service_by_name(b"x"), None);
    assert_eq!(cmd_kill(&strs(&["kill"])), Victim::Usage);
    assert_eq!(cmd_kill(&strs(&["kill", "12"])), Victim::Pid(12));
    assert_eq!(cmd_kill(&strs(&["kill", "kbd"])), Victim::Server(Service::Kbd));
    assert_eq!(cmd_kill(&strs(&["kill", "nobody"])), Victim::Unknown);
}

#[test]
fn listings() {
    assert_eq!(ls_args(&strs(&["ls"])).0, false);
    assert_eq!(ls_args(&strs(&["ls", "-l", "/a"])), (true, b"/a".to_vec()));
    let names = ls_names(b"b\0a\0");
    assert_eq!(names.len(), 2);
    assert_eq!(ls_short(&strs(&["a", "b"])), b"a  b  \n");
    let f = EntryFact { is_dir: true, is_device: false, size: 0, readonly: true };
    assert_eq!(ls_long(b"d", Some(f)), b"d 0 d (ro)\n");
    let f = EntryFact { is_dir: false, is_device: true, size: 0, readonly: false };
    assert_eq!(ls_long(b"null", Some(f)), b"v 0 null\n");
    let f = EntryFact { is_dir: false, is_device: false, size: 12, readonly: false };
    assert_eq!(ls_long(b"f", Some(f)), b"- 12 f\n");
    assert_eq!(ls_long(b"gone", None), b"? gone\n");
    assert_eq!(entry_path(b"/", b"a"), b"/a");
    assert_eq!(entry_path(b"/d", b"a"), b"/d/a");
}

#[test]
fn commands_on_files() {
    let mut at = Cwd::new();
    at.cwd_set(b"/w");
    match plan_file(Builtin::Touch, &strs(&["touch", "f"]), &at, false) {
        FileAsk::Create(p) => assert_eq!(p, b"/w/f"),
        _ => panic!("touch"),
    }
    match plan_file(Builtin::Mount, &strs(&["mount", "UUID=1", "m"]), &at, false) {
        FileAsk::Mount { source, target } => assert_eq!((source, target), (b"UUID=1".to_vec(), b"/w/m".to_vec())),
        _ => panic!("mount"),
    }
    match plan_file(Builtin::Cp, &strs(&["cp", "a", "/b"]), &at, false) {
        FileAsk::Copy { from, to } => assert_eq!((from, to), (b"/w/a".to_vec(), b"/b".to_vec())),
        _ => panic!("cp"),
    }
    match plan_file(Builtin::Cd, &strs(&["cd"]), &at, false) {
        FileAsk::Home => {}
        _ => panic!("cd"),
    }
    match plan_file(Builtin::Rm, &strs(&["rm"]), &at, false) {
        FileAsk::Failed(t) => assert_eq!(t, b"rm: missing file\n"),
        _ => panic!("rm"),
    }
    assert!(report_refused(Builtin::Rm, b"f").starts_with(b"rm: "));
    assert_eq!(report_refused(Builtin::Ls, b"f"), b"ls: error\n");
    // Without a file, `cat` shows what the input was turned to.
    let cat = |has: bool| plan_file(Builtin::Cat, &strs(&["cat"]), &Cwd::new(), has);
    assert!(matches!(cat(true), FileAsk::ShowInput));
    assert!(matches!(cat(false), FileAsk::Failed(t) if t == b"cat: missing file\n"));
}

#[test]
fn files_are_shown_piece_by_piece() {
    let mut c = Show::new(Builtin::Cat);
    assert_eq!(c.room(), 4096);
    assert_eq!(c.piece(b"one "), b"one ");
    // Not text.
    assert_eq!(c.piece(&[0xFF, 0xFE]), b"");
    assert_eq!(c.piece(b"two"), b"two");
    assert_eq!(c.end(b"f"), b"\n");
    let mut w = Show::new(Builtin::Wc);
    assert_eq!(w.piece(b"one tw"), b"");
    assert_eq!(w.piece(b"o\n"), b"");
    assert_eq!(w.end(b"f"), b"1 2 8 f\n");
    let mut x = Show::new(Builtin::Hexdump);
    assert_eq!(x.room(), 16);
    assert_eq!(x.piece(&[1u8; 16]), b"00000000: 01 01 01 01 01 01 01 01 01 01 01 01 01 01 01 01 \n");
    assert_eq!(x.piece(&[0xAB]), b"00000010: ab \n");
    assert_eq!(x.end(b"f"), b"");
}

#[test]
fn small_commands() {
    assert!(cmd_help().starts_with(b"Commands: ls [-l] [path], cat <file>"));
    assert!(cmd_help().ends_with(b"exit, help\n"));
    assert_eq!(cmd_clear(), [12]);
    let mut at = Cwd::new();
    assert_eq!(at.cmd_pwd(), b"/\n");
    at.cwd_set(b"a/../b");
    assert_eq!(at.cmd_pwd(), b"/b\n");
    assert_eq!(report_kill(KillError::Usage), b"kill: usage: kill <pid|service>\n");
    assert_eq!(report_kill(KillError::Unknown), b"kill: unknown pid/service\n");
    assert_eq!(report_kill(KillError::NotRunning), b"kill: service not running\n");
    assert!(report_kill(KillError::Refused).starts_with(b"kill: failed"));
    assert_eq!(report_line_error(LineError::Unknown, b"x"), b"unknown command: x\n");
    assert_eq!(report_line_error(LineError::BadCode, b"x"), b"exit: bad code\n");
    assert_eq!(report_line_error(LineError::NoDelim, b""), b"source: unexpected EOF in heredoc\n");
}

#[test]
fn streams_go_where_they_were_turned() {
    assert_eq!(stream(&[-1, 7, -1], 1, 3), 7);
    // Errors do not follow the output.
    assert_eq!(stream(&[-1, 7, -1], 2, 3), 3);
    assert!(any_turned(&[-1, 7, -1]) && !any_turned(&[-1, -1, -1]));
}

#[test]
fn copying_ends_at_the_end() {
    assert_eq!(copy_file(CopyStep::OpenSource, Some(0)), CopyStep::OpenTarget);
    assert_eq!(copy_file(CopyStep::OpenSource, None), CopyStep::Finish(Copied::NoSource));
    assert_eq!(copy_file(CopyStep::OpenTarget, None), CopyStep::Finish(Copied::NoTarget));
    assert_eq!(copy_file(CopyStep::OpenTarget, Some(0)), CopyStep::Read);
    assert_eq!(copy_file(CopyStep::Read, Some(100)), CopyStep::Write(100));
    assert_eq!(copy_file(CopyStep::Write(100), Some(100)), CopyStep::Read);
    assert_eq!(copy_file(CopyStep::Write(100), Some(40)), CopyStep::Finish(Copied::Failed));
    assert_eq!(copy_file(CopyStep::Read, Some(0)), CopyStep::Finish(Copied::Done));
    assert_eq!(report_copied(Copied::NoSource, b"a", b"b"), b"cp: cannot open a\n");
    assert!(report_copied(Copied::Done, b"a", b"b").is_empty());
    assert!(mv_removes(Copied::Done));
    assert!(!mv_removes(Copied::Failed));
}

#[test]
fn typing_a_line() {
    let mut h = History::new();
    let (line, _, echo) = typed(b"ls\n", &mut h);
    assert_eq!(line, Some(b"ls".to_vec()));
    assert_eq!(echo, b"\x1b[Kl\x1b[D\x1b[Kls\n");
    assert_eq!(h.lines, [b"ls".to_vec()]);
}

#[test]
fn editing_inside_the_line() {
    let mut h = History::new();
    // a c, left, b, home, x, end, backspace, home, delete
    let (_, e, _) = typed(b"ac\x1b[Db\x1b[Hx\x1b[F\x08\x1b[H\x1b[3~", &mut h);
    assert_eq!(e.buf, b"ab");
    assert_eq!(e.cur, 0);
}

#[test]
fn backspace_takes_back_what_was_typed() {
    let mut h = History::new();
    let (_, e, _) = typed(b"abz\x08", &mut h);
    assert_eq!(e.buf, b"ab");
    assert_eq!(e.cur, 2);
    let (_, empty, echo) = typed(b"\x08", &mut h);
    assert!(empty.buf.is_empty() && echo.is_empty());
}

#[test]
fn history_up_and_down() {
    let mut h = History { lines: strs(&["one", "two"]) };
    let (_, e, _) = typed(b"ne\x1b[A\x1b[A", &mut h);
    assert_eq!(e.buf, b"one");
    let (_, e, _) = typed(b"ne\x1b[A\x1b[A\x1b[B\x1b[B", &mut h);
    assert_eq!(e.buf, b"ne");
    // The last line is not kept twice, an empty one not at all.
    typed(b"two\n\n", &mut h);
    assert_eq!(h.lines.len(), 2);
    typed(b"three\n", &mut h);
    assert_eq!(h.lines.len(), 3);
}

#[test]
fn unknown_sequences_are_dropped() {
    let mut h = History::new();
    let (_, e, _) = typed(b"a\x1b[Zb\x1bxc", &mut h);
    assert_eq!(e.buf, b"abc");
    let mut e = Editor::new(&h, true);
    let mut echo = vec![];
    e.key(0x1B, &mut h, &mut echo);
    // It is waited for the rest of a sequence, but not forever.
    for _ in 0..ESC_TRIES - 1 {
        e.quiet();
    }
    assert_ne!(e.esc, Esc::Outside);
    e.quiet();
    e.key(b'[', &mut h, &mut echo);
    assert_eq!(e.buf, b"[");
}
