//! Small programs: the clock, the program that greets, and the server that only
//! answers.
use vstd::prelude::*;

use crate::bytes;
use crate::bytes::{append_bytes, is_str, is_utf8, push_str, push_u64};

verus! {

// ── The clock ──

/// How often the clock prints, in ticks.
pub const PERIOD_TICKS: i64 = 500;

/// What the clock prints: seconds and hundredths.
pub open spec fn uptime_text(now: int) -> Seq<u8> {
    bytes::lit("[uptime] ") + bytes::decimal((now / 100) as nat) + bytes::lit(
        if now % 100 < 10 {
            ".0"
        } else {
            "."
        },
    ) + bytes::decimal((now % 100) as nat) + bytes::lit(" s\n")
}

/// What the clock prints now, if it is time, and when it prints next.
pub fn uptime(now: i64, deadline: i64) -> (r: (Option<Vec<u8>>, i64))
    requires
        0 <= now <= i64::MAX - PERIOD_TICKS,
    ensures
        if now >= deadline {
            &&& r.0 matches Some(t) && t@ == uptime_text(now as int)
            &&& r.1 == now + PERIOD_TICKS
        } else {
            r.0 is None && r.1 == deadline
        },
{
    if now < deadline {
        return (None, deadline);
    }
    let secs: u64 = (now / 100) as u64;
    let cents: u64 = (now % 100) as u64;
    let mut v: Vec<u8> = Vec::new();
    push_str(&mut v, "[uptime] ");
    push_u64(&mut v, secs);
    if cents < 10 {
        push_str(&mut v, ".0");
    } else {
        push_str(&mut v, ".");
    }
    push_u64(&mut v, cents);
    push_str(&mut v, " s\n");
    assert(v@ =~= uptime_text(now as int));
    (Some(v), now + PERIOD_TICKS)
}

// ── The program that greets ──

/// The line that an argument is shown in.
pub open spec fn hello_line(arg: Seq<u8>) -> Seq<u8> {
    if vstd::utf8::valid_utf8(arg) {
        bytes::lit("runhello: ") + arg + bytes::lit("\n")
    } else {
        bytes::lit("runhello: <non utf8>\n")
    }
}

pub open spec fn hello_lines(args: Seq<Seq<u8>>) -> Seq<u8>
    decreases args.len(),
{
    if args.len() == 0 {
        Seq::empty()
    } else {
        hello_lines(args.drop_last()) + hello_line(args.last())
    }
}

fn print_arg(arg: &[u8]) -> (r: Vec<u8>)
    ensures
        r@ == hello_line(arg@),
{
    let mut v: Vec<u8> = Vec::new();
    if is_utf8(arg) {
        push_str(&mut v, "runhello: ");
        append_bytes(&mut v, arg);
        push_str(&mut v, "\n");
    } else {
        push_str(&mut v, "runhello: <non utf8>\n");
    }
    assert(v@ =~= hello_line(arg@));
    v
}

/// What is shown of what can be read: nothing if that is nothing.
pub open spec fn hello_input(input: Seq<u8>) -> Seq<u8> {
    if input.len() == 0 {
        Seq::empty()
    } else if vstd::utf8::valid_utf8(input) {
        bytes::lit("runhello: stdin:") + input + bytes::lit("\n")
    } else {
        bytes::lit("runhello: stdin:<non utf8>\n")
    }
}

/// The arguments behind the name of the program.
pub open spec fn behind_name(argv: Seq<Seq<u8>>) -> Seq<Seq<u8>> {
    if argv.len() > 0 {
        argv.skip(1)
    } else {
        argv
    }
}

/// What the program prints of its arguments, and its exit code: 3 if one of
/// them is `fail`. They may be unreadable. The first is the program's name.
pub fn runhello(argv: &Option<Vec<Vec<u8>>>) -> (r: (Vec<u8>, i64))
    ensures
        match *argv {
            None => r.0@ == bytes::lit("runhello: argv illeggibili\n") && r.1 == 0,
            Some(v) => {
                let args = behind_name(bytes::views(v@));
                &&& r.0@ == hello_lines(args)
                &&& r.1 == (if args.contains(bytes::lit("fail")) {
                    3i64
                } else {
                    0
                })
            },
        },
{
    let mut v: Vec<u8> = Vec::new();
    let list: &Vec<Vec<u8>> = match argv {
        Some(l) => l,
        None => {
            push_str(&mut v, "runhello: argv illeggibili\n");
            assert(v@ =~= bytes::lit("runhello: argv illeggibili\n"));
            return (v, 0);
        },
    };
    let ghost args = behind_name(bytes::views(list@));
    let mut fail: bool = false;
    let mut i: usize = 1;
    assert(args.take(0) =~= Seq::empty());
    while i < list.len()
        invariant
            1 <= i,
            i <= list@.len() || list@.len() == 0 && i == 1,
            args == behind_name(bytes::views(list@)),
            v@ == hello_lines(args.take(i - 1)),
            fail == args.take(i - 1).contains(bytes::lit("fail")),
        decreases list.len() - i,
    {
        let ghost k = i - 1;
        assert(args[k] == list@[i as int]@);
        assert(args.take(k + 1).drop_last() =~= args.take(k));
        assert(args.take(k + 1).last() == args[k]);
        let l: Vec<u8> = print_arg(&list[i]);
        append_bytes(&mut v, &l);
        if is_str(&list[i], "fail") {
            fail = true;
        }
        proof {
            let f = bytes::lit("fail");
            let more = args.take(k + 1);
            assert(more =~= args.take(k).push(args[k]));
            if args.take(k).contains(f) {
                let w = choose|w: int| 0 <= w < k && args.take(k)[w] == f;
                assert(more[w] == f);
            }
            if args[k] == f {
                assert(more[k] == f);
            }
            if more.contains(f) {
                let w = choose|w: int| 0 <= w < more.len() && more[w] == f;
                if w < k {
                    assert(args.take(k)[w] == f);
                }
            }
        }
        i = i + 1;
    }
    assert(args.take(i - 1) =~= args);
    (
        v,
        if fail {
            3
        } else {
            0
        },
    )
}

/// What the program prints of what it can read.
pub fn runhello_input(input: &[u8]) -> (r: Vec<u8>)
    ensures
        r@ == hello_input(input@),
{
    let mut v: Vec<u8> = Vec::new();
    if input.len() > 0 {
        if is_utf8(input) {
            push_str(&mut v, "runhello: stdin:");
            append_bytes(&mut v, input);
            push_str(&mut v, "\n");
        } else {
            push_str(&mut v, "runhello: stdin:<non utf8>\n");
        }
    }
    assert(v@ =~= hello_input(input@));
    v
}

// ── The server that only answers ──

/// Whether a message is answered: all are, but not that someone ended.
pub fn posix_replies(exit: bool) -> (r: bool)
    ensures
        r == !exit,
{
    !exit
}

/// The clock shows whole seconds, a point, and the hundredths by two digits.
pub proof fn law_clock_shows_seconds_and_hundredths(now: int)
    requires
        now >= 0,
    ensures
        exists|secs: Seq<u8>, a: u8, b: u8|
            {
                &&& bytes::decimal_value(secs) * 100 + (a - 48) * 10 + (b - 48) == now
                &&& 48 <= a <= 57 && 48 <= b <= 57
                &&& #[trigger] clock_text(secs, a, b) == uptime_text(now)
            },
{
    let secs = bytes::decimal((now / 100) as nat);
    bytes::lemma_decimal_round_trip((now / 100) as nat);
    let h = now % 100;
    let a = (48 + h / 10) as u8;
    let b = (48 + h % 10) as u8;
    reveal_strlit(".0");
    reveal_strlit(".");
    vstd::utf8::is_ascii_chars_encode_utf8(".0"@);
    vstd::utf8::is_ascii_chars_encode_utf8("."@);
    reveal_with_fuel(bytes::decimal, 2);
    assert(clock_text(secs, a, b) =~= uptime_text(now));
}

/// What the clock prints, from its digits.
pub open spec fn clock_text(secs: Seq<u8>, a: u8, b: u8) -> Seq<u8> {
    bytes::lit("[uptime] ") + secs + seq![46u8, a, b] + bytes::lit(" s\n")
}

/// Every argument gets a line of its own, in order.
pub proof fn law_arguments_are_shown_in_order(a: Seq<Seq<u8>>, b: Seq<Seq<u8>>)
    ensures
        hello_lines(a + b) == hello_lines(a) + hello_lines(b),
    decreases b.len(),
{
    if b.len() == 0 {
        assert(a + b =~= a);
        assert(hello_lines(a) + hello_lines(b) =~= hello_lines(a));
    } else {
        let c = a + b;
        assert(c.drop_last() =~= a + b.drop_last());
        law_arguments_are_shown_in_order(a, b.drop_last());
        assert(hello_lines(c) =~= hello_lines(a) + hello_lines(b));
    }
}

} // verus!
