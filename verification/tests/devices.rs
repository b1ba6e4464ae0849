use velordor::console::{Screen, COLS, LAST};
use velordor::devfs::{DevTable, DeviceType};
use velordor::fs::codes::{
    DEV_CLOSE, DEV_CONSOLE, DEV_KBD, DEV_KEYBOARD, DEV_NULL, DEV_OPEN, DEV_READ, DEV_READDIR,
    DEV_WRITE, DEV_ZERO, ERR,
};
use velordor::kbd::{
    has_byte, setup_first, setup_rest, take_byte, Kbd, ScanQueue, NOTIFY_GAP, PS2_DATA, PS2_STATUS,
    SCANCAP,
};
use velordor::tty::keys::{cooked, Key};
use velordor::tty::server::{
    BootAsk, Msg, OpKind, Phase, Reply, Tty, BACKOFF, CLOSED, ERROR_LIMIT,
};

fn row(s: &Screen, r: usize) -> String {
    String::from_utf8(s.cells[r * COLS..(r + 1) * COLS].to_vec()).unwrap()
}

fn typed(t: &mut Tty, codes: &[u8]) -> Vec<u8> {
    t.decode_bytes(codes);
    t.input.iter().copied().collect()
}

fn ok(req: i64, w0: u64) -> Reply {
    Reply { req_id: req, w0, result: w0 as i64, data: vec![] }
}

#[test]
fn text_is_shown_in_the_last_row() {
    let mut s = Screen::new();
    s.write(b"hello");
    assert!(row(&s, 24).starts_with("hello "));
    assert_eq!(s.cursor, 5);
    assert_eq!(s.hw_cursor(), (((LAST + 5) / 256) as u8, ((LAST + 5) % 256) as u8));
    s.write(b"\nx");
    assert!(row(&s, 23).starts_with("hello "));
    assert!(row(&s, 24).starts_with("x "));
}

#[test]
fn control_characters_on_the_screen() {
    let mut s = Screen::new();
    s.write(b"ab\x08c");
    assert!(row(&s, 24).starts_with("ac "));
    s.write(b"\rz");
    assert!(row(&s, 24).starts_with("zc "));
    s.write(b"\r\x08");
    assert_eq!(s.cursor, 0);
    s.write(&[0x07, 0xC3]);
    assert!(row(&s, 24).starts_with("zc "));
    s.vga_write_char(12);
    assert!(s.cells.iter().all(|c| *c == b' '));
}

#[test]
fn a_full_row_moves_up() {
    let mut s = Screen::new();
    s.write(&[b'x'; 80]);
    assert_eq!(s.cursor, 0);
    assert_eq!(row(&s, 23), "x".repeat(80));
    assert_eq!(row(&s, 24), " ".repeat(80));
}

#[test]
fn requests_to_the_console() {
    let mut s = Screen::new();
    assert_eq!(s.serve(DEV_OPEN, DEV_CONSOLE, 0, b"").reply, 0);
    assert_eq!(s.serve(DEV_OPEN, DEV_NULL, 0, b"").reply, ERR);
    assert_eq!(s.serve(DEV_WRITE, 0, 2, b"hi").reply, 2);
    assert!(row(&s, 24).starts_with("hi"));
    let r = s.serve(DEV_READ, 0, 9, b"");
    assert_eq!((r.reply, r.frame), (0, Some(vec![])));
}

#[test]
fn null_and_zero() {
    let mut t = DevTable::new();
    let null = t.serve(DEV_OPEN, DEV_NULL, 0).reply;
    let zero = t.serve(DEV_OPEN, DEV_ZERO, 0).reply;
    assert_eq!((null, zero), (1, 2));
    assert_eq!(t.serve(DEV_OPEN, DEV_KBD, 0).reply, ERR);
    assert_eq!(t.get(1), Some(DeviceType::Null));
    let r = t.serve(DEV_READ, null, 8);
    assert_eq!((r.reply, r.frame), (0, Some(vec![])));
    let r = t.serve(DEV_READ, zero, 3);
    assert_eq!((r.reply, r.frame), (3, Some(vec![0, 0, 0])));
    assert_eq!(t.serve(DEV_READ, zero, 9999).reply, 4096);
    assert_eq!(t.serve(DEV_WRITE, null, 77).reply, 77);
    assert_eq!(t.serve(DEV_CLOSE, null, 0).reply, 0);
    assert_eq!(t.serve(DEV_CLOSE, null, 0).reply, ERR);
    assert_eq!(t.serve(DEV_READ, null, 3).reply, ERR);
    let r = t.serve(DEV_READDIR, 0, 0);
    assert_eq!((r.reply, r.frame), (2, Some(b"null\0zero\0".to_vec())));
    assert_eq!(t.serve(0x77, 0, 0).reply, ERR);
    assert_eq!(t.open(DeviceType::Zero), 3);
    assert!(t.close(3));
}

#[test]
fn scan_codes_are_kept_in_order() {
    let mut q = ScanQueue::new();
    for i in 0..SCANCAP {
        q.push(i as u8);
    }
    // Full: what comes then is lost.
    q.push(99);
    assert_eq!(q.len(), SCANCAP);
    assert_eq!(q.drain_into(3), [0, 1, 2]);
    q.push(99);
    let rest = q.drain_into(SCANCAP);
    assert_eq!(rest.len(), SCANCAP - 2);
    assert_eq!(rest[0], 3);
    assert_eq!(rest[rest.len() - 1], 99);
}

#[test]
fn the_controller_of_the_keyboard() {
    assert!(has_byte(0x01));
    assert!(!has_byte(0x00));
    let mut q = ScanQueue::new();
    take_byte(&mut q, 0x01, 0x1E);
    // A byte of the mouse is none of ours.
    take_byte(&mut q, 0x21, 0x55);
    assert_eq!(q.drain_into(9), [0x1E]);
    assert_eq!(setup_first(), [(PS2_STATUS, 0xAD), (PS2_STATUS, 0xA7), (PS2_STATUS, 0x20)]);
    assert_eq!(setup_rest(Some(0x64))[1], (PS2_DATA, 0x65));
    assert_eq!(setup_rest(None)[1], (PS2_DATA, 0x65));
}

#[test]
fn requests_to_the_keyboard() {
    let mut k = Kbd::new();
    assert_eq!(k.serve(DEV_OPEN, DEV_KBD, 0).reply, 1);
    assert_eq!(k.serve(DEV_OPEN, DEV_NULL, 0).reply, ERR);
    k.queue.push(0x1E);
    k.queue.push(0x9E);
    let r = k.serve(DEV_READ, 1, 1);
    assert_eq!((r.reply, r.frame), (1, Some(vec![0x1E])));
    let r = k.serve(DEV_READ, 1, 64);
    assert_eq!((r.reply, r.frame), (1, Some(vec![0x9E])));
    let r = k.serve(DEV_READ, 1, 64);
    assert_eq!((r.reply, r.frame), (0, Some(vec![])));
    assert_eq!(k.serve(DEV_READDIR, 0, 0).frame, Some(b"kbd\0".to_vec()));
    assert_eq!(k.serve(DEV_WRITE, 1, 3).reply, ERR);
    k.queue.push(1);
    k.notified(10);
    assert!(!k.notify_due(1, 10));
    assert!(k.notify_due(0, 10 + NOTIFY_GAP) || k.notify_due(1, 10 + NOTIFY_GAP));
}

#[test]
fn keys_stand_for_bytes() {
    assert_eq!(cooked(Some(Key::Char('a'))), b"a");
    assert_eq!(cooked(Some(Key::Char('\u{20AC}'))), [0xE2, 0x82, 0xAC]);
    assert_eq!(cooked(Some(Key::Return)), b"\n");
    assert_eq!(cooked(Some(Key::NumpadEnter)), b"\n");
    assert_eq!(cooked(Some(Key::Backspace)), [8]);
    assert!(cooked(Some(Key::Other)).is_empty());
    assert!(cooked(None).is_empty());
}

#[test]
fn scan_codes_are_decoded() {
    let mut t = Tty::new();
    // a, its release, shift down, b, shift up, enter
    assert_eq!(typed(&mut t, &[0x1E, 0x9E, 0x2A, 0x30, 0xB0, 0xAA, 0x1C]), b"aB\n");
    // In pieces it is the same.
    let mut u = Tty::new();
    for c in [0x1E, 0x9E, 0x2A, 0x30, 0xB0, 0xAA, 0x1C] {
        u.decode_bytes(&[c]);
    }
    assert_eq!(u.input, t.input);
    // Control and c.
    let mut c = Tty::new();
    assert_eq!(typed(&mut c, &[0x1D, 0x2E]), [3]);
}

#[test]
fn backspace_spares_what_was_not_typed() {
    let mut t = Tty::new();
    let before = t.out.clone();
    t.take_key(Some(Key::Backspace));
    assert!(t.input.is_empty());
    assert_eq!(t.out, before);
    t.emit(b"ab");
    assert_eq!(t.line_len, 2);
    t.take_key(Some(Key::Backspace));
    assert_eq!(t.line_len, 1);
    t.take_key(Some(Key::Return));
    assert_eq!(t.line_len, 0);
}

#[test]
fn the_terminal_starts_step_by_step() {
    let mut t = Tty::new();
    assert!(matches!(t.boot_step(), Some(BootAsk::Lookup)));
    assert!(matches!(t.looked_up(true), Some(BootAsk::Send(OpKind::BufReg))));
    let mut req = 1;
    for kind in [OpKind::BufReg, OpKind::OpenKbd, OpKind::OpenCon, OpKind::Register] {
        t.boot_sent(kind, req);
        assert!(!t.collect_if_mine(&ok(req + 100, 0), 0));
        let w0 = if kind == OpKind::OpenKbd || kind == OpKind::OpenCon { 3 } else { 0 };
        assert!(t.collect_if_mine(&ok(req, w0), 0));
        req += 1;
        if t.phase != Phase::Steady {
            assert!(matches!(t.boot_step(), Some(BootAsk::Send(_))));
        }
    }
    assert_eq!(t.phase, Phase::Steady);
    assert!(t.ready());
    assert!(!t.ready());
    assert!(t.kbd_fd != CLOSED && t.con_fd != CLOSED);
}

#[test]
fn a_lost_file_system_starts_the_terminal_anew() {
    let mut t = Tty::new();
    t.phase = Phase::Steady;
    t.kbd_fd = 3;
    t.reset_to_lookup();
    assert_eq!(t.phase, Phase::LookupFs);
    assert_eq!(t.kbd_fd, CLOSED);
    assert!(!t.can_sleep());
    let mut e = Tty::new();
    e.phase = Phase::Steady;
    for _ in 0..ERROR_LIMIT + 1 {
        e.note_error();
    }
    assert_eq!(e.phase, Phase::LookupFs);
}

#[test]
fn the_terminal_serves_its_readers() {
    let mut t = Tty::new();
    t.emit(b"hey");
    let m = |tag: u64, w0: u64, w1: u64| Msg { tag, w0, w1, exit: false };
    let a = t.handle_msg(m(DEV_OPEN, DEV_KEYBOARD, 0), b"");
    assert!(a.reply.is_some() && a.reply != Some(ERR));
    assert_eq!(t.handle_msg(m(DEV_OPEN, DEV_NULL, 0), b"").reply, Some(ERR));
    let a = t.handle_msg(m(DEV_READ, 0, 2), b"");
    assert_eq!((a.reply, a.frame), (Some(2), Some(b"he".to_vec())));
    let a = t.handle_msg(m(DEV_READ, 0, 64), b"");
    assert_eq!((a.reply, a.frame), (Some(1), Some(b"y".to_vec())));
    let a = t.handle_msg(m(DEV_WRITE, 0, 3), b"out");
    assert_eq!(a.reply, Some(3));
    assert!(t.out.ends_with(b"out"));
}

#[test]
fn output_waits_for_the_console() {
    let mut t = Tty::new();
    t.phase = Phase::Steady;
    t.con_fd = 4;
    t.kbd_fd = 5;
    t.out = b"text".to_vec();
    assert_eq!(t.flush_maybe(0), Some(b"text".to_vec()));
    t.flush_sent(9, 0);
    assert_eq!(t.flush_maybe(0), None);
    assert!(t.collect_if_mine(&Reply { req_id: 9, w0: 4, result: 4, data: vec![] }, 0));
    assert!(t.out.is_empty());
    t.out = b"more".to_vec();
    // A send that fails is tried again after a while.
    t.flush_sent(-1, 50);
    assert_eq!(t.flush_maybe(50), None);
    assert_eq!(t.flush_maybe(50 + BACKOFF), Some(b"more".to_vec()));
}
