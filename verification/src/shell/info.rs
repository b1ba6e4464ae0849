//! What the shell's own commands compute and print: counts, dumps, tables and
//! listings, and what the file commands ask of the file system.
use vstd::prelude::*;

use super::builtins::Builtin;
use super::cwd;
use super::cwd::Cwd;
use super::glob;
use super::glob::split_listing;
use super::jobs;
use super::jobs::parse_i64;
use super::load;
use super::load::join_spaced;
use crate::bytes;
use crate::bytes::{append_bytes, copy_of, is_str, is_utf8, push_str, push_u64};

verus! {

// ── echo ──

/// What `echo` prints: its arguments, with a blank between each two.
pub fn cmd_echo(args: &Vec<Vec<u8>>) -> (r: Vec<u8>)
    ensures
        r@ == load::spaced(
            if args@.len() > 0 {
                bytes::views(args@).skip(1)
            } else {
                Seq::empty()
            },
        ) + bytes::lit("\n"),
{
    let ghost av = bytes::views(args@);
    let mut rest: Vec<Vec<u8>> = Vec::new();
    let mut i: usize = 1;
    assert(bytes::views(rest@) =~= Seq::empty());
    if args.len() > 0 {
        assert(av.subrange(1, 1) =~= Seq::empty());
        while i < args.len()
            invariant
                1 <= i <= args@.len(),
                av == bytes::views(args@),
                bytes::views(rest@) == av.subrange(1, i as int),
            decreases args.len() - i,
        {
            broadcast use bytes::lemma_views_push;

            rest.push(copy_of(&args[i]));
            i = i + 1;
            assert(bytes::views(rest@) =~= av.subrange(1, i as int));
        }
        assert(av.subrange(1, av.len() as int) =~= av.skip(1));
    }
    let mut v: Vec<u8> = join_spaced(&rest);
    push_str(&mut v, "\n");
    v
}

// ── wc ──

/// The counts of `wc` so far, and whether they stand within a word.
#[derive(Clone, Copy, PartialEq, Eq, Debug, Structural)]
pub struct Wc {
    pub lines: u64,
    pub words: u64,
    pub bytes: u64,
    pub in_word: bool,
}

/// The counts as numbers.
#[verifier::ext_equal]
pub struct WcView {
    pub lines: int,
    pub words: int,
    pub bytes: int,
    pub in_word: bool,
}

pub open spec fn wc_blank(b: u8) -> bool {
    b == 32 || b == 9 || b == 10 || b == 13
}

/// The counts after a byte more.
pub open spec fn wc_byte(w: WcView, b: u8) -> WcView {
    WcView {
        lines: w.lines + if b == 10 {
            1int
        } else {
            0
        },
        words: w.words + if !wc_blank(b) && !w.in_word {
            1int
        } else {
            0
        },
        bytes: w.bytes + 1,
        in_word: !wc_blank(b),
    }
}

/// The counts after some bytes more.
pub open spec fn wc_all(w: WcView, s: Seq<u8>) -> WcView
    decreases s.len(),
{
    if s.len() == 0 {
        w
    } else {
        wc_byte(wc_all(w, s.drop_last()), s.last())
    }
}

pub open spec fn wc_text(w: WcView, name: Seq<u8>) -> Seq<u8> {
    bytes::decimal(w.lines as nat) + bytes::lit(" ") + bytes::decimal(w.words as nat) + bytes::lit(
        " ",
    ) + bytes::decimal(w.bytes as nat) + bytes::lit(" ") + name + bytes::lit("\n")
}

impl Wc {
    pub open spec fn view(&self) -> WcView {
        WcView {
            lines: self.lines as int,
            words: self.words as int,
            bytes: self.bytes as int,
            in_word: self.in_word,
        }
    }

    /// No more lines or words were counted than bytes.
    pub open spec fn wf(&self) -> bool {
        self.lines <= self.bytes && self.words <= self.bytes
    }

    pub fn new() -> (r: Wc)
        ensures
            r@ == (WcView { lines: 0, words: 0, bytes: 0, in_word: false }),
            r.wf(),
    {
        Wc { lines: 0, words: 0, bytes: 0, in_word: false }
    }

    /// Counts some bytes more.
    pub fn count(&mut self, chunk: &[u8])
        requires
            old(self).wf(),
            old(self).bytes + chunk@.len() <= u64::MAX,
        ensures
            final(self).wf(),
            final(self)@ == wc_all(old(self)@, chunk@),
    {
        let ghost w0 = self@;
        let mut i: usize = 0;
        assert(chunk@.take(0) =~= Seq::empty());
        while i < chunk.len()
            invariant
                i <= chunk@.len(),
                self.wf(),
                w0.bytes + chunk@.len() <= u64::MAX,
                self.bytes == w0.bytes + i,
                self@ == wc_all(w0, chunk@.take(i as int)),
            decreases chunk.len() - i,
        {
            assert(chunk@.take(i + 1).drop_last() =~= chunk@.take(i as int));
            assert(chunk@.take(i + 1).last() == chunk@[i as int]);
            let b: u8 = chunk[i];
            self.bytes = self.bytes + 1;
            if b == 10 {
                self.lines = self.lines + 1;
            }
            if b == 32 || b == 9 || b == 10 || b == 13 {
                self.in_word = false;
            } else if !self.in_word {
                self.in_word = true;
                self.words = self.words + 1;
            }
            i = i + 1;
        }
        assert(chunk@.take(chunk@.len() as int) =~= chunk@);
    }

    /// What `wc` prints of a file.
    pub fn report(&self, name: &[u8]) -> (r: Vec<u8>)
        ensures
            r@ == wc_text(self@, name@),
    {
        let mut v: Vec<u8> = Vec::new();
        push_u64(&mut v, self.lines);
        push_str(&mut v, " ");
        push_u64(&mut v, self.words);
        push_str(&mut v, " ");
        push_u64(&mut v, self.bytes);
        push_str(&mut v, " ");
        append_bytes(&mut v, name);
        push_str(&mut v, "\n");
        assert(v@ =~= wc_text(self@, name@));
        v
    }
}

/// The counts do not depend on how a file is cut into pieces.
pub proof fn law_wc_pieces(w: WcView, a: Seq<u8>, b: Seq<u8>)
    ensures
        wc_all(wc_all(w, a), b) == wc_all(w, a + b),
    decreases b.len(),
{
    if b.len() == 0 {
        assert(a + b =~= a);
    } else {
        law_wc_pieces(w, a, b.drop_last());
        assert((a + b).drop_last() =~= a + b.drop_last());
        assert((a + b).last() == b.last());
    }
}

// ── hexdump ──

pub open spec fn hex_digit(n: int) -> u8 {
    if n < 10 {
        (48 + n) as u8
    } else {
        (87 + n) as u8
    }
}

fn hex_of(n: u8) -> (r: u8)
    requires
        n < 16,
    ensures
        r == hex_digit(n as int),
{
    if n < 10 {
        48 + n
    } else {
        87 + n
    }
}

/// The last `n` hexadecimal digits of a number.
pub open spec fn hex_digits(x: int, n: nat) -> Seq<u8>
    decreases n,
{
    if n == 0 {
        Seq::empty()
    } else {
        hex_digits(x / 16, (n - 1) as nat).push(hex_digit(x % 16))
    }
}

/// The bytes of a row, each followed by a blank.
pub open spec fn hex_bytes(row: Seq<u8>) -> Seq<u8>
    decreases row.len(),
{
    if row.len() == 0 {
        Seq::empty()
    } else {
        hex_bytes(row.drop_last()).push(hex_digit(row.last() as int / 16)).push(
            hex_digit(row.last() as int % 16),
        ).push(32u8)
    }
}

fn push_hex(v: &mut Vec<u8>, x: u64, n: usize)
    ensures
        final(v)@ == old(v)@ + hex_digits(x as int, n as nat),
    decreases n,
{
    let ghost v0 = v@;
    if n == 0 {
        assert(v@ =~= v0 + hex_digits(x as int, 0));
        return ;
    }
    push_hex(v, x / 16, n - 1);
    v.push(hex_of((x % 16) as u8));
    assert(v@ =~= v0 + hex_digits(x as int, n as nat));
}

pub open spec fn hexdump_text(off: int, row: Seq<u8>) -> Seq<u8> {
    hex_digits(off, 8) + bytes::lit(": ") + hex_bytes(row) + bytes::lit("\n")
}

/// The row that `hexdump` prints of the bytes at an offset.
pub fn hexdump_row(off: u64, row: &[u8]) -> (r: Vec<u8>)
    ensures
        r@ == hexdump_text(off as int, row@),
{
    let mut v: Vec<u8> = Vec::new();
    push_hex(&mut v, off, 8);
    push_str(&mut v, ": ");
    let ghost v0 = v@;
    let mut i: usize = 0;
    assert(row@.take(0) =~= Seq::empty());
    assert(v0 + hex_bytes(row@.take(0)) =~= v0);
    while i < row.len()
        invariant
            i <= row@.len(),
            v@ == v0 + hex_bytes(row@.take(i as int)),
        decreases row.len() - i,
    {
        assert(row@.take(i + 1).drop_last() =~= row@.take(i as int));
        assert(row@.take(i + 1).last() == row@[i as int]);
        v.push(hex_of(row[i] / 16));
        v.push(hex_of(row[i] % 16));
        v.push(32);
        i = i + 1;
        assert(v@ =~= v0 + hex_bytes(row@.take(i as int)));
    }
    assert(row@.take(row@.len() as int) =~= row@);
    push_str(&mut v, "\n");
    assert(v@ =~= hexdump_text(off as int, row@));
    v
}

// ── ps ──

/// What is known of a process.
pub struct Process {
    pub pid: u32,
    pub name: Vec<u8>,
    pub prio: u64,
    /// 0 if it can run.
    pub state: u8,
    /// 1 if it waits for a message, 2 if it waits for a reply.
    pub ipc: u8,
    pub ticks: u64,
    pub parent: Option<u32>,
}

/// A text, filled up with blanks to a width.
pub open spec fn padded(s: Seq<u8>, width: int) -> Seq<u8> {
    if s.len() < width {
        s + bytes::filled(32, (width - s.len()) as nat)
    } else {
        s
    }
}

fn push_padded(v: &mut Vec<u8>, s: &[u8], width: usize)
    ensures
        final(v)@ == old(v)@ + padded(s@, width as int),
{
    let ghost v0 = v@;
    append_bytes(v, s);
    if s.len() < width {
        let fill: Vec<u8> = bytes::repeat_byte(32, width - s.len());
        append_bytes(v, &fill);
    }
    assert(v@ =~= v0 + padded(s@, width as int));
}

pub open spec fn process_state(p: Process, me: u32) -> Seq<u8> {
    if p.pid == me {
        bytes::lit("run")
    } else if p.state == 0 {
        bytes::lit("ready")
    } else if p.ipc == 1 {
        bytes::lit("recv")
    } else if p.ipc == 2 {
        bytes::lit("reply")
    } else {
        bytes::lit("blocked")
    }
}

pub open spec fn process_row(p: Process, me: u32) -> Seq<u8> {
    padded(bytes::decimal(p.pid as nat), 5) + padded(p.name@, 15) + padded(
        bytes::decimal(p.prio as nat),
        5,
    ) + padded(process_state(p, me), 6) + bytes::decimal(p.ticks as nat) + bytes::lit(" ")
        + parent_text(p.parent) + bytes::lit("\n")
}

pub open spec fn parent_text(parent: Option<u32>) -> Seq<u8> {
    match parent {
        Some(q) => bytes::decimal(q as nat),
        None => bytes::lit("-"),
    }
}

pub open spec fn process_rows(list: Seq<Process>, me: u32) -> Seq<u8>
    decreases list.len(),
{
    if list.len() == 0 {
        Seq::empty()
    } else {
        process_rows(list.drop_last(), me) + process_row(list.last(), me)
    }
}

fn print_state(p: &Process, me: u32) -> (r: Vec<u8>)
    ensures
        r@ == process_state(*p, me),
{
    let mut state: Vec<u8> = Vec::new();
    if p.pid == me {
        push_str(&mut state, "run");
    } else if p.state == 0 {
        push_str(&mut state, "ready");
    } else if p.ipc == 1 {
        push_str(&mut state, "recv");
    } else if p.ipc == 2 {
        push_str(&mut state, "reply");
    } else {
        push_str(&mut state, "blocked");
    }
    assert(state@ =~= process_state(*p, me));
    state
}

fn print_process(p: &Process, me: u32) -> (r: Vec<u8>)
    ensures
        r@ == process_row(*p, me),
{
    let mut v: Vec<u8> = Vec::new();
    push_padded(&mut v, &bytes::fmt_u64(p.pid as u64), 5);
    assert(v@ =~= padded(bytes::decimal(p.pid as nat), 5));
    push_padded(&mut v, &p.name, 15);
    push_padded(&mut v, &bytes::fmt_u64(p.prio), 5);
    let state: Vec<u8> = print_state(p, me);
    push_padded(&mut v, &state, 6);
    push_u64(&mut v, p.ticks);
    push_str(&mut v, " ");
    match p.parent {
        Some(q) => push_u64(&mut v, q as u64),
        None => push_str(&mut v, "-"),
    }
    push_str(&mut v, "\n");
    v
}

/// What `ps` prints: a table of the processes, as seen by the process `me`.
pub fn cmd_ps(list: &Vec<Process>, me: u32) -> (r: Vec<u8>)
    ensures
        r@ == bytes::lit("PID  NAME           PRIO STATE TIME PARENT\n") + process_rows(list@, me),
{
    let mut v: Vec<u8> = Vec::new();
    push_str(&mut v, "PID  NAME           PRIO STATE TIME PARENT\n");
    let ghost v0 = v@;
    assert(v0 =~= bytes::lit("PID  NAME           PRIO STATE TIME PARENT\n"));
    let mut i: usize = 0;
    assert(list@.take(0) =~= Seq::empty());
    assert(v0 + process_rows(list@.take(0), me) =~= v0);
    while i < list.len()
        invariant
            i <= list@.len(),
            v@ == v0 + process_rows(list@.take(i as int), me),
        decreases list.len() - i,
    {
        assert(list@.take(i + 1).drop_last() =~= list@.take(i as int));
        assert(list@.take(i + 1).last() == list@[i as int]);
        let row: Vec<u8> = print_process(&list[i], me);
        append_bytes(&mut v, &row);
        i = i + 1;
        assert(v@ =~= v0 + process_rows(list@.take(i as int), me));
    }
    assert(list@.take(list@.len() as int) =~= list@);
    v
}

// ── kill ──

/// A server that has a name.
#[derive(Clone, Copy, PartialEq, Eq, Debug, Structural)]
pub enum Service {
    Console,
    Fs,
    Devfs,
    Init,
    Kbd,
    Tty,
    Disk,
}

pub open spec fn service_name(s: Service) -> Seq<u8> {
    match s {
        Service::Console => bytes::lit("console"),
        Service::Fs => bytes::lit("fs"),
        Service::Devfs => bytes::lit("devfs"),
        Service::Init => bytes::lit("init"),
        Service::Kbd => bytes::lit("kbd"),
        Service::Tty => bytes::lit("tty"),
        Service::Disk => bytes::lit("disk"),
    }
}

pub fn service_by_name(name: &[u8]) -> (r: Option<Service>)
    ensures
        match r {
            Some(s) => name@ == service_name(s),
            None => forall|s: Service| name@ != #[trigger] service_name(s),
        },
{
    if is_str(name, "console") {
        return Some(Service::Console);
    }
    if is_str(name, "fs") {
        return Some(Service::Fs);
    }
    if is_str(name, "devfs") {
        return Some(Service::Devfs);
    }
    if is_str(name, "init") {
        return Some(Service::Init);
    }
    if is_str(name, "kbd") {
        return Some(Service::Kbd);
    }
    if is_str(name, "tty") {
        return Some(Service::Tty);
    }
    if is_str(name, "disk") {
        return Some(Service::Disk);
    }
    assert forall|s: Service| name@ != #[trigger] service_name(s) by {
        match s {
            Service::Console => {},
            _ => {},
        }
    }
    None
}

/// What `kill` is to kill.
#[derive(Clone, Copy, PartialEq, Eq, Debug, Structural)]
pub enum Victim {
    /// Nothing: no argument was given.
    Usage,
    Pid(i64),
    /// The process of a server.
    Server(Service),
    Unknown,
}

/// Whether an argument of `kill` means this. The first process is `init`, and
/// it has no other name.
pub open spec fn victim_is(args: Seq<Seq<u8>>, v: Victim) -> bool {
    if args.len() < 2 {
        v is Usage
    } else {
        match jobs::parsed_signed(args[1]) {
            Some(p) => v matches Victim::Pid(q) && q == p,
            None => if args[1] == bytes::lit("init") {
                v == Victim::Pid(1)
            } else {
                match v {
                    Victim::Server(s) => args[1] == service_name(s),
                    Victim::Unknown => forall|s: Service| args[1] != #[trigger] service_name(s),
                    _ => false,
                }
            },
        }
    }
}

pub fn cmd_kill(args: &Vec<Vec<u8>>) -> (r: Victim)
    ensures
        victim_is(bytes::views(args@), r),
{
    if args.len() < 2 {
        return Victim::Usage;
    }
    assert(bytes::views(args@)[1] == args@[1]@);
    match parse_i64(&args[1]) {
        Some(p) => Victim::Pid(p),
        None => {
            if is_str(&args[1], "init") {
                return Victim::Pid(1);
            }
            match service_by_name(&args[1]) {
                Some(s) => Victim::Server(s),
                None => Victim::Unknown,
            }
        },
    }
}

/// Why `kill` killed nothing.
#[derive(Clone, Copy, PartialEq, Eq, Debug, Structural)]
pub enum KillError {
    Usage,
    Unknown,
    /// The server is not there.
    NotRunning,
    /// The kernel refused.
    Refused,
}

pub open spec fn kill_text(e: KillError) -> Seq<u8> {
    match e {
        KillError::Usage => bytes::lit("kill: usage: kill <pid|service>\n"),
        KillError::Unknown => bytes::lit("kill: unknown pid/service\n"),
        KillError::NotRunning => bytes::lit("kill: service not running\n"),
        KillError::Refused => bytes::lit(
            "kill: failed (parent/init only, or init/self/unknown?)\n",
        ),
    }
}

pub fn report_kill(e: KillError) -> (r: Vec<u8>)
    ensures
        r@ == kill_text(e),
{
    match e {
        KillError::Usage => copy_of("kill: usage: kill <pid|service>\n".as_bytes()),
        KillError::Unknown => copy_of("kill: unknown pid/service\n".as_bytes()),
        KillError::NotRunning => copy_of("kill: service not running\n".as_bytes()),
        KillError::Refused => copy_of(
            "kill: failed (parent/init only, or init/self/unknown?)\n".as_bytes(),
        ),
    }
}

// ── help, clear ──

pub open spec fn help_text() -> Seq<u8> {
    bytes::lit(
        "Commands: ls [-l] [path], cat <file>, touch <file>, mkdir <dir>, mount <src> <tgt>, umount <tgt>, echo [args], clear, wc <file>, hexdump <file>, kill <pid|service>, cd [dir], pwd, cp <src> <dst>, mv <src> <dst>, rm <file>, rmdir <dir>, ps, run <path> [args...] [&], jobs, wait [pid], exit, help\n",
    )
}

/// What `help` prints.
pub fn cmd_help() -> (r: Vec<u8>)
    ensures
        r@ == help_text(),
{
    copy_of(
        "Commands: ls [-l] [path], cat <file>, touch <file>, mkdir <dir>, mount <src> <tgt>, umount <tgt>, echo [args], clear, wc <file>, hexdump <file>, kill <pid|service>, cd [dir], pwd, cp <src> <dst>, mv <src> <dst>, rm <file>, rmdir <dir>, ps, run <path> [args...] [&], jobs, wait [pid], exit, help\n".as_bytes(),
    )
}

/// What `clear` prints: the byte at which the console empties the screen.
pub fn cmd_clear() -> (r: Vec<u8>)
    ensures
        r@ == seq![12u8],
{
    vec![12u8]
}

// ── ls ──

/// What is known of an entry of a directory.
#[derive(Clone, Copy, PartialEq, Eq, Debug, Structural)]
pub struct EntryFact {
    pub is_dir: bool,
    pub is_device: bool,
    pub size: u64,
    pub readonly: bool,
}

/// What `ls` was asked for: whether the long form, and of which directory.
pub fn ls_args(args: &Vec<Vec<u8>>) -> (r: (bool, Vec<u8>))
    ensures
        ({
            let a = bytes::views(args@);
            let long = a.len() > 1 && a[1] == bytes::lit("-l");
            let at = if long {
                2int
            } else {
                1
            };
            &&& r.0 == long
            &&& r.1@ == (if at < a.len() {
                a[at]
            } else {
                bytes::lit(".")
            })
        }),
{
    let long: bool = if args.len() > 1 {
        assert(bytes::views(args@)[1] == args@[1]@);
        is_str(&args[1], "-l")
    } else {
        false
    };
    let at: usize = if long {
        2
    } else {
        1
    };
    if at < args.len() {
        assert(bytes::views(args@)[at as int] == args@[at as int]@);
        (long, copy_of(&args[at]))
    } else {
        (long, copy_of(".".as_bytes()))
    }
}

/// The names of a listing that are text.
pub open spec fn shown_names(names: Seq<Seq<u8>>) -> Seq<Seq<u8>>
    decreases names.len(),
{
    if names.len() == 0 {
        Seq::empty()
    } else if vstd::utf8::valid_utf8(names.last()) {
        shown_names(names.drop_last()).push(names.last())
    } else {
        shown_names(names.drop_last())
    }
}

/// The names that `ls` shows of a listing.
pub fn ls_names(listing: &[u8]) -> (r: Vec<Vec<u8>>)
    ensures
        bytes::views(r@) == shown_names(glob::listing_names(listing@, 0)),
{
    let names: Vec<Vec<u8>> = split_listing(listing);
    let ghost nv = bytes::views(names@);
    let mut out: Vec<Vec<u8>> = Vec::new();
    let mut i: usize = 0;
    assert(nv.take(0) =~= Seq::empty());
    assert(bytes::views(out@) =~= Seq::empty());
    while i < names.len()
        invariant
            i <= names@.len(),
            nv == bytes::views(names@),
            bytes::views(out@) == shown_names(nv.take(i as int)),
        decreases names.len() - i,
    {
        broadcast use bytes::lemma_views_push;

        assert(nv.take(i + 1).drop_last() =~= nv.take(i as int));
        assert(nv.take(i + 1).last() == names@[i as int]@);
        if is_utf8(&names[i]) {
            out.push(copy_of(&names[i]));
        }
        i = i + 1;
    }
    assert(nv.take(nv.len() as int) =~= nv);
    out
}

/// The short form: the names, each followed by two blanks, in one row.
pub open spec fn names_row(names: Seq<Seq<u8>>) -> Seq<u8>
    decreases names.len(),
{
    if names.len() == 0 {
        Seq::empty()
    } else {
        names_row(names.drop_last()) + names.last() + bytes::lit("  ")
    }
}

pub fn ls_short(names: &Vec<Vec<u8>>) -> (r: Vec<u8>)
    ensures
        r@ == names_row(bytes::views(names@)) + if names@.len() > 0 {
            bytes::lit("\n")
        } else {
            Seq::empty()
        },
{
    let ghost nv = bytes::views(names@);
    let mut v: Vec<u8> = Vec::new();
    let mut i: usize = 0;
    assert(nv.take(0) =~= Seq::empty());
    while i < names.len()
        invariant
            i <= names@.len(),
            nv == bytes::views(names@),
            v@ == names_row(nv.take(i as int)),
        decreases names.len() - i,
    {
        let ghost v0 = v@;
        assert(nv.take(i + 1).drop_last() =~= nv.take(i as int));
        assert(nv.take(i + 1).last() == names@[i as int]@);
        append_bytes(&mut v, &names[i]);
        push_str(&mut v, "  ");
        i = i + 1;
        assert(v@ =~= names_row(nv.take(i as int)));
    }
    assert(nv.take(nv.len() as int) =~= nv);
    let ghost v1 = v@;
    if names.len() > 0 {
        push_str(&mut v, "\n");
    }
    assert(v@ =~= v1 + if names@.len() > 0 {
        bytes::lit("\n")
    } else {
        Seq::empty()
    });
    v
}

/// The row of the long form.
pub open spec fn long_row(name: Seq<u8>, fact: Option<EntryFact>) -> Seq<u8> {
    match fact {
        Some(f) => bytes::lit(
            if f.is_dir {
                "d "
            } else if f.is_device {
                "v "
            } else {
                "- "
            },
        ) + bytes::decimal(f.size as nat) + bytes::lit(" ") + name + bytes::lit(
            if f.readonly {
                " (ro)\n"
            } else {
                "\n"
            },
        ),
        None => bytes::lit("? ") + name + bytes::lit("\n"),
    }
}

/// The row of an entry in the long form. An entry that is gone by now is shown
/// all the same.
pub fn ls_long(name: &[u8], fact: Option<EntryFact>) -> (r: Vec<u8>)
    ensures
        r@ == long_row(name@, fact),
{
    let mut v: Vec<u8> = Vec::new();
    match fact {
        Some(f) => {
            if f.is_dir {
                push_str(&mut v, "d ");
            } else if f.is_device {
                push_str(&mut v, "v ");
            } else {
                push_str(&mut v, "- ");
            }
            push_u64(&mut v, f.size);
            push_str(&mut v, " ");
            append_bytes(&mut v, name);
            if f.readonly {
                push_str(&mut v, " (ro)\n");
            } else {
                push_str(&mut v, "\n");
            }
        },
        None => {
            push_str(&mut v, "? ");
            append_bytes(&mut v, name);
            push_str(&mut v, "\n");
        },
    }
    assert(v@ =~= long_row(name@, fact));
    v
}

/// The path of an entry of a directory.
pub fn entry_path(dir: &[u8], name: &[u8]) -> (r: Vec<u8>)
    ensures
        r@ == load::in_dir(dir@, name@),
{
    let mut v: Vec<u8> = copy_of(dir);
    if !(v.len() > 0 && v[v.len() - 1] == 47) {
        v.push(47);
    }
    append_bytes(&mut v, name);
    assert(v@ =~= load::in_dir(dir@, name@));
    v
}

// ── Commands on files ──

/// What a command on files asks of the file system.
pub enum FileAsk {
    /// Nothing: it fails, and this is said.
    Failed(Vec<u8>),
    /// That the file be created and closed again.
    Create(Vec<u8>),
    MakeDir(Vec<u8>),
    Mount { source: Vec<u8>, target: Vec<u8> },
    Umount(Vec<u8>),
    Remove(Vec<u8>),
    /// That the directory be listed, to see whether it is one.
    Probe(Vec<u8>),
    /// That the file be copied.
    Copy { from: Vec<u8>, to: Vec<u8> },
    /// That the file be shown.
    Show(Vec<u8>),
    /// That what the input was turned to be shown.
    ShowInput,
    /// Nothing: the shell goes to the root.
    Home,
}

/// What a command on files asks of the file system, as a value.
#[verifier::ext_equal]
pub enum FileAskView {
    Failed(Seq<u8>),
    Create(Seq<u8>),
    MakeDir(Seq<u8>),
    Mount { source: Seq<u8>, target: Seq<u8> },
    Umount(Seq<u8>),
    Remove(Seq<u8>),
    Probe(Seq<u8>),
    Copy { from: Seq<u8>, to: Seq<u8> },
    Show(Seq<u8>),
    ShowInput,
    Home,
}

impl View for FileAsk {
    type V = FileAskView;

    open spec fn view(&self) -> FileAskView {
        match *self {
            FileAsk::Failed(t) => FileAskView::Failed(t@),
            FileAsk::Create(p) => FileAskView::Create(p@),
            FileAsk::MakeDir(p) => FileAskView::MakeDir(p@),
            FileAsk::Mount { source, target } => FileAskView::Mount {
                source: source@,
                target: target@,
            },
            FileAsk::Umount(p) => FileAskView::Umount(p@),
            FileAsk::Remove(p) => FileAskView::Remove(p@),
            FileAsk::Probe(p) => FileAskView::Probe(p@),
            FileAsk::Copy { from, to } => FileAskView::Copy { from: from@, to: to@ },
            FileAsk::Show(p) => FileAskView::Show(p@),
            FileAsk::ShowInput => FileAskView::ShowInput,
            FileAsk::Home => FileAskView::Home,
        }
    }
}

/// The commands that take one path, or two.
pub open spec fn is_file_command(b: Builtin) -> bool {
    match b {
        Builtin::Cat | Builtin::Touch | Builtin::Mkdir | Builtin::Mount | Builtin::Umount | Builtin::Cd
        | Builtin::Cp | Builtin::Mv | Builtin::Rm | Builtin::Rmdir | Builtin::Wc
        | Builtin::Hexdump => true,
        _ => false,
    }
}

/// What is said when an argument is missing.
pub open spec fn missing_text(b: Builtin) -> Seq<u8> {
    match b {
        Builtin::Cat => bytes::lit("cat: missing file\n"),
        Builtin::Touch => bytes::lit("touch: missing file\n"),
        Builtin::Mkdir => bytes::lit("mkdir: missing directory\n"),
        Builtin::Mount => bytes::lit("mount: usage: mount <source> <target>\n"),
        Builtin::Umount => bytes::lit("umount: usage: umount <target>\n"),
        Builtin::Cp => bytes::lit("cp: usage: cp <src> <dst>\n"),
        Builtin::Mv => bytes::lit("mv: usage: mv <src> <dst>\n"),
        Builtin::Rm => bytes::lit("rm: missing file\n"),
        Builtin::Rmdir => bytes::lit("rmdir: missing directory\n"),
        Builtin::Wc => bytes::lit("wc: missing file\n"),
        Builtin::Hexdump => bytes::lit("hexdump: missing file\n"),
        _ => Seq::empty(),
    }
}

/// How many arguments a command takes.
pub open spec fn wants_args(b: Builtin) -> int {
    match b {
        Builtin::Mount | Builtin::Cp | Builtin::Mv => 2,
        _ => 1,
    }
}

/// What a command on files asks of the file system. Without an argument, `cd`
/// goes to the root, and `cat` shows the input, if it was turned to a file; it
/// never takes keys. The source of a mount need not be a path.
pub open spec fn file_ask(
    b: Builtin,
    args: Seq<Seq<u8>>,
    dir: Seq<u8>,
    has_input: bool,
) -> FileAskView {
    if args.len() <= wants_args(b) {
        if b is Cd {
            FileAskView::Home
        } else if b is Cat && has_input {
            FileAskView::ShowInput
        } else {
            FileAskView::Failed(missing_text(b))
        }
    } else {
        let one = cwd::resolved(dir, args[1]);
        match b {
            Builtin::Touch => FileAskView::Create(one),
            Builtin::Mkdir => FileAskView::MakeDir(one),
            Builtin::Mount => FileAskView::Mount {
                source: args[1],
                target: cwd::resolved(dir, args[2]),
            },
            Builtin::Umount => FileAskView::Umount(one),
            Builtin::Cd => FileAskView::Probe(one),
            Builtin::Cp | Builtin::Mv => FileAskView::Copy {
                from: one,
                to: cwd::resolved(dir, args[2]),
            },
            Builtin::Rm | Builtin::Rmdir => FileAskView::Remove(one),
            _ => FileAskView::Show(one),
        }
    }
}

fn missing(b: Builtin) -> (r: Vec<u8>)
    ensures
        r@ == missing_text(b),
{
    let mut v: Vec<u8> = Vec::new();
    match b {
        Builtin::Cat => push_str(&mut v, "cat: missing file\n"),
        Builtin::Touch => push_str(&mut v, "touch: missing file\n"),
        Builtin::Mkdir => push_str(&mut v, "mkdir: missing directory\n"),
        Builtin::Mount => push_str(&mut v, "mount: usage: mount <source> <target>\n"),
        Builtin::Umount => push_str(&mut v, "umount: usage: umount <target>\n"),
        Builtin::Cp => push_str(&mut v, "cp: usage: cp <src> <dst>\n"),
        Builtin::Mv => push_str(&mut v, "mv: usage: mv <src> <dst>\n"),
        Builtin::Rm => push_str(&mut v, "rm: missing file\n"),
        Builtin::Rmdir => push_str(&mut v, "rmdir: missing directory\n"),
        Builtin::Wc => push_str(&mut v, "wc: missing file\n"),
        Builtin::Hexdump => push_str(&mut v, "hexdump: missing file\n"),
        _ => {},
    }
    assert(v@ =~= missing_text(b));
    v
}

/// What a command on files asks of the file system. `has_input` tells whether
/// the input was turned to a file.
pub fn plan_file(b: Builtin, args: &Vec<Vec<u8>>, dir: &Cwd, has_input: bool) -> (r: FileAsk)
    requires
        is_file_command(b),
    ensures
        r@ == file_ask(b, bytes::views(args@), dir@, has_input),
{
    let ghost av = bytes::views(args@);
    let wants: usize = match b {
        Builtin::Mount => 2,
        Builtin::Cp => 2,
        Builtin::Mv => 2,
        _ => 1,
    };
    if args.len() <= wants {
        return match b {
            Builtin::Cd => FileAsk::Home,
            Builtin::Cat => {
                if has_input {
                    FileAsk::ShowInput
                } else {
                    FileAsk::Failed(missing(b))
                }
            },
            _ => FileAsk::Failed(missing(b)),
        };
    }
    assert(av[1] == args@[1]@);
    let one: Vec<u8> = dir.resolve(&args[1]);
    match b {
        Builtin::Touch => FileAsk::Create(one),
        Builtin::Mkdir => FileAsk::MakeDir(one),
        Builtin::Mount => {
            assert(av[2] == args@[2]@);
            FileAsk::Mount { source: copy_of(&args[1]), target: dir.resolve(&args[2]) }
        },
        Builtin::Umount => FileAsk::Umount(one),
        Builtin::Cd => FileAsk::Probe(one),
        Builtin::Cp => {
            assert(av[2] == args@[2]@);
            FileAsk::Copy { from: one, to: dir.resolve(&args[2]) }
        },
        Builtin::Mv => {
            assert(av[2] == args@[2]@);
            FileAsk::Copy { from: one, to: dir.resolve(&args[2]) }
        },
        Builtin::Rm => FileAsk::Remove(one),
        Builtin::Rmdir => FileAsk::Remove(one),
        _ => FileAsk::Show(one),
    }
}

/// What is said when the file system refuses.
pub open spec fn refused_text(b: Builtin, arg: Seq<u8>) -> Seq<u8> {
    match b {
        Builtin::Ls => bytes::lit("ls: error\n"),
        Builtin::Cat => bytes::lit("cat: cannot open ") + arg + bytes::lit("\n"),
        Builtin::Wc => bytes::lit("wc: cannot open ") + arg + bytes::lit("\n"),
        Builtin::Hexdump => bytes::lit("hexdump: cannot open ") + arg + bytes::lit("\n"),
        Builtin::Touch => bytes::lit("touch: failed\n"),
        Builtin::Mkdir => bytes::lit("mkdir: failed\n"),
        Builtin::Mount => bytes::lit("mount: failed\n"),
        Builtin::Umount => bytes::lit("umount: failed (busy or not mounted?)\n"),
        Builtin::Cd => bytes::lit("cd: no such directory: ") + arg + bytes::lit("\n"),
        Builtin::Rm => bytes::lit("rm: cannot remove ") + arg + bytes::lit("\n"),
        Builtin::Rmdir => bytes::lit("rmdir: failed (not empty or missing?)\n"),
        Builtin::Mv => bytes::lit("mv: copied but cannot remove source\n"),
        _ => Seq::empty(),
    }
}

pub fn report_refused(b: Builtin, arg: &[u8]) -> (r: Vec<u8>)
    ensures
        r@ == refused_text(b, arg@),
{
    let mut v: Vec<u8> = Vec::new();
    let mut named: bool = true;
    match b {
        Builtin::Cat => push_str(&mut v, "cat: cannot open "),
        Builtin::Wc => push_str(&mut v, "wc: cannot open "),
        Builtin::Hexdump => push_str(&mut v, "hexdump: cannot open "),
        Builtin::Cd => push_str(&mut v, "cd: no such directory: "),
        Builtin::Rm => push_str(&mut v, "rm: cannot remove "),
        Builtin::Ls => {
            push_str(&mut v, "ls: error\n");
            named = false;
        },
        Builtin::Touch => {
            push_str(&mut v, "touch: failed\n");
            named = false;
        },
        Builtin::Mkdir => {
            push_str(&mut v, "mkdir: failed\n");
            named = false;
        },
        Builtin::Mount => {
            push_str(&mut v, "mount: failed\n");
            named = false;
        },
        Builtin::Umount => {
            push_str(&mut v, "umount: failed (busy or not mounted?)\n");
            named = false;
        },
        Builtin::Rmdir => {
            push_str(&mut v, "rmdir: failed (not empty or missing?)\n");
            named = false;
        },
        Builtin::Mv => {
            push_str(&mut v, "mv: copied but cannot remove source\n");
            named = false;
        },
        _ => {
            named = false;
        },
    }
    if named {
        append_bytes(&mut v, arg);
        push_str(&mut v, "\n");
    }
    assert(v@ =~= refused_text(b, arg@));
    v
}

// ── Copying ──

/// What came of copying a file.
#[derive(Clone, Copy, PartialEq, Eq, Debug, Structural)]
pub enum Copied {
    Done,
    /// The source could not be opened.
    NoSource,
    /// The target could not be created.
    NoTarget,
    /// Not all that was read could be written.
    Failed,
}

/// What a copy does next.
#[derive(Clone, Copy, PartialEq, Eq, Debug, Structural)]
pub enum CopyStep {
    OpenSource,
    OpenTarget,
    Read,
    /// Write the bytes that were read, this many.
    Write(usize),
    /// Close what was opened.
    Finish(Copied),
}

/// What comes after a step. `n` is what came of it: how many bytes were read or
/// written, or nothing if it failed. The source ends at the first read that
/// fails or brings nothing.
pub open spec fn copy_next(at: CopyStep, n: Option<usize>) -> CopyStep {
    match (at, n) {
        (CopyStep::OpenSource, Some(_)) => CopyStep::OpenTarget,
        (CopyStep::OpenSource, None) => CopyStep::Finish(Copied::NoSource),
        (CopyStep::OpenTarget, Some(_)) => CopyStep::Read,
        (CopyStep::OpenTarget, None) => CopyStep::Finish(Copied::NoTarget),
        (CopyStep::Read, Some(k)) => if k > 0 {
            CopyStep::Write(k)
        } else {
            CopyStep::Finish(Copied::Done)
        },
        (CopyStep::Read, None) => CopyStep::Finish(Copied::Done),
        (CopyStep::Write(k), _) => if n == Some(k) {
            CopyStep::Read
        } else {
            CopyStep::Finish(Copied::Failed)
        },
        (CopyStep::Finish(_), _) => at,
    }
}

pub fn copy_file(at: CopyStep, n: Option<usize>) -> (r: CopyStep)
    ensures
        r == copy_next(at, n),
{
    match (at, n) {
        (CopyStep::OpenSource, Some(_)) => CopyStep::OpenTarget,
        (CopyStep::OpenSource, None) => CopyStep::Finish(Copied::NoSource),
        (CopyStep::OpenTarget, Some(_)) => CopyStep::Read,
        (CopyStep::OpenTarget, None) => CopyStep::Finish(Copied::NoTarget),
        (CopyStep::Read, Some(k)) => {
            if k > 0 {
                CopyStep::Write(k)
            } else {
                CopyStep::Finish(Copied::Done)
            }
        },
        (CopyStep::Read, None) => CopyStep::Finish(Copied::Done),
        (CopyStep::Write(k), Some(m)) => {
            if m == k {
                CopyStep::Read
            } else {
                CopyStep::Finish(Copied::Failed)
            }
        },
        (CopyStep::Write(_), None) => CopyStep::Finish(Copied::Failed),
        (CopyStep::Finish(_), _) => at,
    }
}

/// What is said of a copy.
pub open spec fn copied_text(c: Copied, src: Seq<u8>, dst: Seq<u8>) -> Seq<u8> {
    match c {
        Copied::Done => Seq::empty(),
        Copied::NoSource => bytes::lit("cp: cannot open ") + src + bytes::lit("\n"),
        Copied::NoTarget => bytes::lit("cp: cannot create ") + dst + bytes::lit("\n"),
        Copied::Failed => bytes::lit("cp: I/O error\n"),
    }
}

pub fn report_copied(c: Copied, src: &[u8], dst: &[u8]) -> (r: Vec<u8>)
    ensures
        r@ == copied_text(c, src@, dst@),
{
    let mut v: Vec<u8> = Vec::new();
    match c {
        Copied::Done => {},
        Copied::NoSource => {
            push_str(&mut v, "cp: cannot open ");
            append_bytes(&mut v, src);
            push_str(&mut v, "\n");
        },
        Copied::NoTarget => {
            push_str(&mut v, "cp: cannot create ");
            append_bytes(&mut v, dst);
            push_str(&mut v, "\n");
        },
        Copied::Failed => push_str(&mut v, "cp: I/O error\n"),
    }
    assert(v@ =~= copied_text(c, src@, dst@));
    v
}

/// `mv` removes the source only if the copy succeeded.
pub fn mv_removes(c: Copied) -> (r: bool)
    ensures
        r == (c == Copied::Done),
{
    match c {
        Copied::Done => true,
        _ => false,
    }
}

/// A copy succeeds only after all that was read was written: it ends well only
/// where a read brings nothing more.
pub proof fn law_copy_ends_at_end(at: CopyStep, n: Option<usize>)
    requires
        copy_next(at, n) == CopyStep::Finish(Copied::Done),
        !(at is Finish),
    ensures
        at is Read,
        n is None || n == Some(0usize),
{
}

} // verus!
