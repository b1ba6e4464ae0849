//! What passes through the terminal, in order and whole.
use vstd::prelude::*;

use super::keys;
use super::keys::Key;
use super::server;
use super::server::{
    BootAsk, Msg, OpKind, TtyView, INPUT_CAPACITY, KBD_NOTIFY, OUT_CAPACITY,
};
use crate::fs::codes::{DEV_READ, DEV_WRITE};

verus! {

/// A read of some bytes.
pub open spec fn read_of(most: u64) -> Msg {
    Msg { tag: DEV_READ, w0: 0, w1: most, exit: false }
}

/// A write of some bytes.
pub open spec fn write_of(data: Seq<u8>) -> Msg {
    Msg { tag: DEV_WRITE, w0: 0, w1: data.len() as u64, exit: false }
}

/// Reads get what was typed in the order in which it was typed, each byte once,
/// and what they do not get is still there.
pub proof fn law_reads_follow_each_other(
    t: TtyView,
    most1: u64,
    mid: TtyView,
    got1: Seq<u8>,
    most2: u64,
    after: TtyView,
    got2: Seq<u8>,
    reply1: u64,
    reply2: u64,
)
    requires
        server::answered(t, read_of(most1), Seq::empty(), mid, Some(reply1), Some(got1)),
        server::answered(mid, read_of(most2), Seq::empty(), after, Some(reply2), Some(got2)),
        server::tty_ok(t),
    ensures
        got1 + got2 + after.input == t.input,
        got1.len() == reply1 <= most1,
        got2.len() == reply2 <= most2,
        after.out == t.out,
{
    assert(got1 + got2 + after.input =~= t.input);
}

/// A read that asks for enough gets all that was typed.
pub proof fn law_read_gets_what_there_is(
    t: TtyView,
    most: u64,
    after: TtyView,
    got: Seq<u8>,
    reply: u64,
)
    requires
        server::answered(t, read_of(most), Seq::empty(), after, Some(reply), Some(got)),
        t.input.len() <= most,
        server::tty_ok(t),
    ensures
        got == t.input,
        after.input.len() == 0,
{
    assert(got =~= t.input);
}

/// What is written is shown behind what is shown already, and is not typed.
pub proof fn law_written_is_shown_behind(
    t: TtyView,
    data: Seq<u8>,
    after: TtyView,
    reply: Option<u64>,
    frame: Option<Seq<u8>>,
)
    requires
        server::answered(t, write_of(data), data, after, reply, frame),
        t.out.len() + data.len() <= OUT_CAPACITY,
    ensures
        after.out == t.out + data,
        after.input == t.input,
        after.line_len == t.line_len,
        reply == Some(data.len() as u64),
{
}

/// The console gets all that is to be shown, in order and once: what it took is
/// the front of the queue, and the rest waits. If it took nothing, all waits.
pub proof fn law_console_gets_it_in_order(
    t: TtyView,
    taken: i64,
    failed: i64,
    w0: u64,
    data: Seq<u8>,
    now: i64,
)
    requires
        0 <= taken <= t.out.len(),
        failed < 0,
        server::tty_ok(t),
    ensures
        t.out.take(taken as int) + server::collected(
            t,
            OpKind::ConWrite,
            w0,
            taken,
            data,
            now,
        ).out == t.out,
        t.err_streak + 1 < server::ERROR_LIMIT ==> server::collected(
            t,
            OpKind::ConWrite,
            w0,
            failed,
            data,
            now,
        ).out == t.out,
{
    assert(t.out.take(taken as int) + t.out.skip(taken as int) =~= t.out);
}

/// Scan codes that come in two parts type what they type at once.
pub proof fn law_scan_codes_in_parts(t: TtyView, a: Seq<u8>, b: Seq<u8>)
    ensures
        server::scanned(t, a + b) == server::scanned(server::scanned(t, a), b),
    decreases b.len(),
{
    if b.len() == 0 {
        assert(a + b =~= a);
    } else {
        assert((a + b).drop_last() =~= a + b.drop_last());
        law_scan_codes_in_parts(t, a, b.drop_last());
    }
}

/// A scan code that completes a character types it: it waits to be read and is
/// shown. Enter types a line feed. A code that completes no key types nothing.
pub proof fn law_key_is_typed(t: TtyView, code: u8, key: Option<Key>)
    requires
        keys::decoded_key(t.codes.push(code)) == key,
        t.input.len() < INPUT_CAPACITY,
        t.out.len() < OUT_CAPACITY,
    ensures
        ({
            let u = server::scanned(t, seq![code]);
            let line_end = key == Some(Key::Return) || key == Some(Key::NumpadEnter);
            &&& line_end ==> u.input == t.input.push(10) && u.out == t.out.push(10)
            &&& key is None ==> u.input == t.input && u.out == t.out
            &&& key == Some(Key::Backspace) && t.line_len > 0 ==> u.input == t.input.push(8)
                && u.out == t.out.push(8)
            &&& u.codes == t.codes.push(code)
        }),
{
    let one = seq![code];
    assert(one.drop_last() =~= Seq::<u8>::empty());
    assert(server::scanned(t, one.drop_last()) == t);
    let v = TtyView { codes: t.codes.push(code), ..t };
    let b = keys::key_bytes(key);
    assert(server::scanned(t, one) == server::typed(v, b));
    lemma_codes_stay(v, b);
    if b.len() == 1 {
        assert(b.drop_last() =~= Seq::<u8>::empty());
        assert(server::typed(v, b.drop_last()) == v);
    }
}

proof fn lemma_codes_stay(t: TtyView, s: Seq<u8>)
    ensures
        server::typed(t, s).codes == t.codes,
    decreases s.len(),
{
    if s.len() > 0 {
        lemma_codes_stay(t, s.drop_last());
    }
}

/// What the keyboard gave is typed, as if it had come at once. Where it could not
/// be asked, it is asked again.
pub proof fn law_pumped_is_typed(
    t: TtyView,
    data: Seq<u8>,
    w0: u64,
    now: i64,
    n: i64,
    failed: i64,
)
    requires
        n > 0,
        failed < 0,
    ensures
        ({
            let u = server::collected(t, OpKind::PumpRead, w0, n, data, now);
            let s = server::scanned(TtyView { err_streak: 0, ..t }, data);
            u.input == s.input && u.out == s.out && u.line_len == s.line_len && u.pending is None
        }),
        server::collected(t, OpKind::PumpRead, w0, failed, data, now).pump_now,
{
}

/// The start goes through its steps, and ends with both devices open: the
/// keyboard is what the first open gave, the console what the second gave.
pub proof fn law_start_opens_both_devices(
    t: TtyView,
    kbd: i64,
    con: i64,
    w: u64,
    data: Seq<u8>,
    now: i64,
)
    requires
        t.phase is BufReg,
        kbd >= 0,
        con >= 0,
    ensures
        ({
            let t1 = server::collected(t, OpKind::BufReg, 0, 0, data, now);
            let t2 = server::collected(t1, OpKind::OpenKbd, w, kbd, data, now);
            let t3 = server::collected(t2, OpKind::OpenCon, w, con, data, now);
            let t4 = server::collected(t3, OpKind::Register, w, 0, data, now);
            &&& server::boot_ask(t.phase) == Some(BootAsk::Send(OpKind::BufReg))
            &&& server::boot_ask(t1.phase) == Some(BootAsk::Send(OpKind::OpenKbd))
            &&& server::boot_ask(t2.phase) == Some(BootAsk::Send(OpKind::OpenCon))
            &&& server::boot_ask(t3.phase) == Some(BootAsk::Send(OpKind::Register))
            &&& server::boot_ask(t4.phase) is None
            &&& t4.phase is Steady
            &&& t4.kbd_fd == kbd
            &&& t4.con_fd == con
            &&& t4.input == t.input
            &&& t4.out == t.out
        }),
{
}

/// A step of the start that fails leads back to the beginning, with no device
/// open.
pub proof fn law_failed_start_begins_anew(
    t: TtyView,
    kind: OpKind,
    w0: u64,
    result: i64,
    data: Seq<u8>,
    now: i64,
)
    requires
        w0 != 0,
        result < 0,
        kind is BufReg || kind is OpenKbd || kind is OpenCon || kind is Register,
    ensures
        ({
            let u = server::collected(t, kind, w0, result, data, now);
            &&& u.phase is LookupFs
            &&& u.kbd_fd < 0
            &&& u.con_fd < 0
            &&& u.pending is None
        }),
{
}

/// Scan codes are asked for once the keyboard said that there are some, and the
/// terminal is at leisure.
pub proof fn law_notice_is_followed(
    t: TtyView,
    m: Msg,
    after: TtyView,
    reply: Option<u64>,
    frame: Option<Seq<u8>>,
    now: i64,
)
    requires
        m.tag == KBD_NOTIFY,
        !m.exit,
        server::answered(t, m, Seq::empty(), after, reply, frame),
        t.phase is Steady,
        t.pending is None,
        t.kbd_fd >= 0,
        server::due(now, t.pump_wait_until),
    ensures
        server::pump_due(after, now),
        reply is None,
        !server::pump_due(TtyView { pump_now: false, ..after }, now),
{
}

/// What is to be shown goes out when it may: not while a request is under way,
/// not before the console is open or the wait is over, and not when there is
/// nothing. A reply counts only if it is to the request under way.
pub proof fn law_output_waits_for_its_turn(t: TtyView, now: i64, req: i64)
    ensures
        t.pending is Some ==> !server::flush_due(t, now),
        t.out.len() == 0 ==> !server::flush_due(t, now),
        t.con_fd < 0 ==> !server::flush_due(t, now),
        t.phase is Steady && t.pending is None && t.out.len() > 0 && t.con_fd >= 0
            && t.flush_wait_until <= now && now - t.flush_wait_until <= i64::MAX
            ==> server::flush_due(t, now),
        t.phase is Steady && t.flush_wait_until > now && t.flush_wait_until - now <= i64::MAX
            ==> !server::flush_due(t, now),
        t.pending is None ==> !server::is_ours(t, req),
        t.pending matches Some(p) ==> server::is_ours(t, req) == (req > 0 && req == p.req),
{
}

} // verus!
