//! What the commands of the shell act on and what they show.
use vstd::prelude::*;

use super::builtins;
use super::builtins::Builtin;
use super::cwd;
use super::exec;
use super::exec::Single;
use super::glob;
use super::info;
use super::info::{Copied, CopyStep, EntryFact, FileAskView, Process, Victim, WcView};
use super::jobs;
use super::jobs::JobView;
use super::laws_paths;
use super::load;
use super::load::Load;
use super::parser;
use super::parser::{Ch, CommandView, Op};
use super::pipeline;
use super::pipeline::{Entry, StageView};
use super::redirect::RedirectView;
use super::show;
use super::show::ShowView;
use crate::bytes;
use crate::text;

verus! {

// ── Commands on files ──

/// A command acts on the path that its argument stands for in the current
/// directory: with that path in place of the argument it does the same from any
/// other directory.
pub proof fn law_argument_stands_for_its_path(
    b: Builtin,
    name: Seq<u8>,
    arg: Seq<u8>,
    dir: Seq<u8>,
    other: Seq<u8>,
    has_input: bool,
    parts: Seq<Seq<u8>>,
)
    requires
        info::is_file_command(b),
        !(b is Mount || b is Cp || b is Mv),
        laws_paths::real_parts(parts),
        cwd::resolved(dir, arg) == cwd::path_of(parts),
    ensures
        info::file_ask(b, seq![name, arg], dir, has_input) == info::file_ask(
            b,
            seq![name, cwd::path_of(parts)],
            other,
            has_input,
        ),
{
    laws_paths::law_absolute_stands_for_itself(other, parts);
    assert(seq![name, arg][1] == arg);
    assert(seq![name, cwd::path_of(parts)][1] == cwd::path_of(parts));
}

/// What each command does to the file that it is given.
pub proof fn law_command_does_its_work(
    name: Seq<u8>,
    parts: Seq<Seq<u8>>,
    dir: Seq<u8>,
    has_input: bool,
)
    requires
        laws_paths::real_parts(parts),
    ensures
        ({
            let p = cwd::path_of(parts);
            let ask = |b: Builtin| info::file_ask(b, seq![name, p], dir, has_input);
            &&& ask(Builtin::Touch) == FileAskView::Create(p)
            &&& ask(Builtin::Mkdir) == FileAskView::MakeDir(p)
            &&& ask(Builtin::Rm) == FileAskView::Remove(p)
            &&& ask(Builtin::Rmdir) == FileAskView::Remove(p)
            &&& ask(Builtin::Umount) == FileAskView::Umount(p)
            &&& ask(Builtin::Cd) == FileAskView::Probe(p)
            &&& ask(Builtin::Cat) == FileAskView::Show(p)
            &&& ask(Builtin::Wc) == FileAskView::Show(p)
            &&& ask(Builtin::Hexdump) == FileAskView::Show(p)
        }),
{
    laws_paths::law_absolute_stands_for_itself(dir, parts);
    assert(seq![name, cwd::path_of(parts)][1] == cwd::path_of(parts));
}

/// A copy goes from its first argument to its second, and so does the copy that
/// a move begins with; a mount puts its first argument on its second.
pub proof fn law_copy_goes_from_first_to_second(
    name: Seq<u8>,
    source: Seq<u8>,
    from: Seq<Seq<u8>>,
    to: Seq<Seq<u8>>,
    dir: Seq<u8>,
    has_input: bool,
)
    requires
        laws_paths::real_parts(from),
        laws_paths::real_parts(to),
    ensures
        ({
            let p = cwd::path_of(from);
            let q = cwd::path_of(to);
            &&& info::file_ask(Builtin::Cp, seq![name, p, q], dir, has_input)
                == FileAskView::Copy { from: p, to: q }
            &&& info::file_ask(Builtin::Mv, seq![name, p, q], dir, has_input)
                == FileAskView::Copy { from: p, to: q }
            &&& info::file_ask(Builtin::Mount, seq![name, source, q], dir, has_input)
                == FileAskView::Mount { source, target: q }
        }),
{
    laws_paths::law_absolute_stands_for_itself(dir, from);
    laws_paths::law_absolute_stands_for_itself(dir, to);
    let p = cwd::path_of(from);
    let q = cwd::path_of(to);
    assert(seq![name, p, q][1] == p && seq![name, p, q][2] == q);
    assert(seq![name, source, q][1] == source && seq![name, source, q][2] == q);
}

/// A command whose argument is missing does nothing; only a change of directory
/// goes to the root, and a file is shown from the input if there is one.
pub proof fn law_missing_argument_does_nothing(
    b: Builtin,
    name: Seq<u8>,
    dir: Seq<u8>,
    has_input: bool,
)
    requires
        info::is_file_command(b),
    ensures
        ({
            let ask = info::file_ask(b, seq![name], dir, has_input);
            &&& b is Cd ==> ask is Home
            &&& b is Cat && has_input ==> ask is ShowInput
            &&& !(b is Cd) && !(b is Cat && has_input) ==> ask is Failed
        }),
{
}

/// How a copy goes on: the source is opened, the target only if that worked;
/// what was read is written before anything more is read; and the copy is done
/// only where the source has nothing more to give.
pub proof fn law_copy_goes_in_turn(at: CopyStep, n: Option<usize>)
    ensures
        info::copy_next(at, n) == CopyStep::OpenTarget ==> at is OpenSource && n is Some,
        info::copy_next(at, n) == CopyStep::Read ==> n is Some && (at is OpenTarget || at
            == CopyStep::Write(n->0)),
        info::copy_next(at, n) matches CopyStep::Write(k) ==> at is Read && n == Some(k) && k > 0,
        info::copy_next(at, n) == CopyStep::Finish(Copied::Done) && !(at is Finish) ==> at is Read
            && (n is None || n == Some(0usize)),
        (at matches CopyStep::Write(k) && n != Some(k)) ==> info::copy_next(at, n)
            == CopyStep::Finish(Copied::Failed),
        at is OpenSource && n is None ==> info::copy_next(at, n) == CopyStep::Finish(
            Copied::NoSource,
        ),
        at is OpenTarget && n is None ==> info::copy_next(at, n) == CopyStep::Finish(
            Copied::NoTarget,
        ),
{
}

// ── Counting ──

/// Every byte counts as one, and every line feed as a line.
pub proof fn law_bytes_and_lines_are_counted(w: WcView, s: Seq<u8>)
    ensures
        info::wc_all(w, s).bytes == w.bytes + s.len(),
        info::wc_all(w, s).lines == w.lines + s.filter(|b: u8| b == 10).len(),
    decreases s.len(),
{
    reveal(Seq::filter);
    if s.len() > 0 {
        law_bytes_and_lines_are_counted(w, s.drop_last());
    }
}

/// A run of bytes without white space behind white space, or at the start, is
/// one word more; white space is none.
pub proof fn law_words_are_runs(w: WcView, s: Seq<u8>)
    ensures
        s.len() > 0 && !w.in_word && (forall|i: int| 0 <= i < s.len() ==> !info::wc_blank(#[trigger] s[i]))
            ==> info::wc_all(w, s).words == w.words + 1 && info::wc_all(w, s).in_word,
        w.in_word && (forall|i: int| 0 <= i < s.len() ==> !info::wc_blank(#[trigger] s[i]))
            ==> info::wc_all(w, s).words == w.words && info::wc_all(w, s).in_word,
        s.len() > 0 && (forall|i: int| 0 <= i < s.len() ==> info::wc_blank(#[trigger] s[i]))
            ==> info::wc_all(w, s).words == w.words && !info::wc_all(w, s).in_word,
    decreases s.len(),
{
    if s.len() > 0 {
        let d = s.drop_last();
        law_words_are_runs(w, d);
        assert(forall|i: int| 0 <= i < d.len() ==> d[i] == s[i]);
        if forall|i: int| 0 <= i < s.len() ==> !info::wc_blank(#[trigger] s[i]) {
            assert(forall|i: int| 0 <= i < d.len() ==> !info::wc_blank(#[trigger] d[i]));
            assert(!info::wc_blank(s[s.len() - 1]));
        }
        if forall|i: int| 0 <= i < s.len() ==> info::wc_blank(#[trigger] s[i]) {
            assert(forall|i: int| 0 <= i < d.len() ==> info::wc_blank(#[trigger] d[i]));
            assert(info::wc_blank(s[s.len() - 1]));
        }
        assert(d.len() == 0 ==> info::wc_all(w, d) == w);
    }
}

// ── Hexadecimal ──

/// The value of a hexadecimal digit in lower case.
pub open spec fn digit_value(c: u8) -> int {
    if c < 97 {
        c - 48
    } else {
        c - 87
    }
}

/// The number that hexadecimal digits denote.
pub open spec fn hex_value(s: Seq<u8>) -> int
    decreases s.len(),
{
    if s.len() == 0 {
        0
    } else {
        hex_value(s.drop_last()) * 16 + digit_value(s.last())
    }
}

/// A row of a dump shows each byte by two digits and a blank, in the order of
/// the file.
pub proof fn law_dumped_bytes_read_back(row: Seq<u8>, i: int)
    requires
        0 <= i < row.len(),
    ensures
        info::hex_bytes(row).len() == 3 * row.len(),
        digit_value(info::hex_bytes(row)[3 * i]) * 16 + digit_value(
            info::hex_bytes(row)[3 * i + 1],
        ) == row[i],
        info::hex_bytes(row)[3 * i + 2] == 32,
    decreases row.len(),
{
    lemma_hex_bytes_len(row);
    let d = row.drop_last();
    lemma_hex_bytes_len(d);
    if i < d.len() {
        law_dumped_bytes_read_back(d, i);
        assert(d[i] == row[i]);
    }
}

proof fn lemma_hex_bytes_len(row: Seq<u8>)
    ensures
        info::hex_bytes(row).len() == 3 * row.len(),
    decreases row.len(),
{
    if row.len() > 0 {
        lemma_hex_bytes_len(row.drop_last());
    }
}

/// The row begins with eight digits, which give the place of its first byte.
pub proof fn law_dumped_place_reads_back(off: int)
    requires
        0 <= off < 0x1_0000_0000,
    ensures
        info::hex_digits(off, 8).len() == 8,
        hex_value(info::hex_digits(off, 8)) == off,
{
    lemma_hex_digits(off, 8);
    reveal_with_fuel(remainder, 9);
    assert(remainder(off, 8) == off) by {
        let a = off / 16;
        let b = a / 16;
        let c = b / 16;
        let d = c / 16;
        let e = d / 16;
        let f = e / 16;
        let g = f / 16;
        assert(g < 16);
    }
}

/// What the last digits of a number denote.
spec fn remainder(x: int, n: nat) -> int
    decreases n,
{
    if n == 0 {
        0
    } else {
        remainder(x / 16, (n - 1) as nat) * 16 + x % 16
    }
}

proof fn lemma_hex_digits(x: int, n: nat)
    requires
        x >= 0,
    ensures
        info::hex_digits(x, n).len() == n,
        hex_value(info::hex_digits(x, n)) == remainder(x, n),
    decreases n,
{
    if n > 0 {
        lemma_hex_digits(x / 16, (n - 1) as nat);
        let s = info::hex_digits(x, n);
        assert(s.drop_last() =~= info::hex_digits(x / 16, (n - 1) as nat));
    }
}

/// A column is as wide as asked for, begins with its text and goes on with
/// blanks; a text that is longer is shown whole.
pub proof fn law_columns_line_up(s: Seq<u8>, width: int)
    ensures
        s.len() <= width ==> info::padded(s, width).len() == width,
        s.len() >= width ==> info::padded(s, width) == s,
        info::padded(s, width).take(s.len() as int) == s,
        forall|i: int|
            s.len() <= i < info::padded(s, width).len() ==> #[trigger] info::padded(s, width)[i]
                == 32,
{
    assert(info::padded(s, width).take(s.len() as int) =~= s);
}

// ── Programs ──

/// A program is looked for in the directories in their order: in each first
/// under its name, then under its name with `.bin`.
pub proof fn law_directories_are_searched_in_order(dirs: Seq<Seq<u8>>, name: Seq<u8>, i: int)
    requires
        forall|k: int| 0 <= k < dirs.len() ==> (#[trigger] dirs[k]).len() > 0,
        0 <= i < dirs.len(),
        dirs[i].last() != 47,
    ensures
        load::candidates_in(dirs, name).len() == 2 * dirs.len(),
        load::candidates_in(dirs, name)[2 * i] == dirs[i] + seq![47u8] + name,
        load::candidates_in(dirs, name)[2 * i + 1] == dirs[i] + seq![47u8] + name + bytes::lit(
            ".bin",
        ),
    decreases dirs.len(),
{
    lemma_candidates_len(dirs, name);
    let d = dirs.drop_last();
    assert forall|k: int| 0 <= k < d.len() implies (#[trigger] d[k]).len() > 0 by {
        assert(d[k] == dirs[k]);
    }
    lemma_candidates_len(d, name);
    assert(dirs.last() == dirs[dirs.len() - 1]);
    if i < d.len() {
        assert(d[i] == dirs[i]);
        law_directories_are_searched_in_order(d, name, i);
    }
}

proof fn lemma_candidates_len(dirs: Seq<Seq<u8>>, name: Seq<u8>)
    requires
        forall|k: int| 0 <= k < dirs.len() ==> (#[trigger] dirs[k]).len() > 0,
    ensures
        load::candidates_in(dirs, name).len() == 2 * dirs.len(),
    decreases dirs.len(),
{
    if dirs.len() > 0 {
        let d = dirs.drop_last();
        assert forall|k: int| 0 <= k < d.len() implies (#[trigger] d[k]).len() > 0 by {
            assert(d[k] == dirs[k]);
        }
        lemma_candidates_len(d, name);
        assert(dirs.last() == dirs[dirs.len() - 1]);
    }
}

/// The directories of a search path stand between colons. A slash at the end of
/// one makes no difference.
pub proof fn law_search_path_is_split_at_colons(a: Seq<u8>, b: Seq<u8>, name: Seq<u8>)
    requires
        !a.contains(58u8),
        a.len() > 0,
        a.last() != 47,
    ensures
        load::search_dirs(Some(a + seq![58u8] + b)) == seq![a] + load::search_dirs(Some(b)),
        load::search_dirs(Some(a)) == seq![a],
        load::in_dir(a + seq![47u8], name) == load::in_dir(a, name),
{
    let s = a + seq![58u8] + b;
    assert forall|k: int| 0 <= k < a.len() implies s[k] != 58 && a[k] != 58 by {
        assert(a.contains(a[k]));
    }
    bytes::lemma_index_from_unique(s, 0, 58, a.len() as int);
    assert(s.take(a.len() as int) =~= a);
    assert(s.skip(a.len() as int + 1) =~= b);
    bytes::lemma_index_from_unique(a, 0, 58, a.len() as int);
    assert(a + seq![47u8] + name =~= load::in_dir(a, name));
}

/// The first candidate that is there is taken.
pub proof fn law_first_that_is_there(v: Seq<bool>, i: int, k: int)
    requires
        0 <= i <= v.len(),
    ensures
        i <= load::first_true(v, i) <= v.len(),
        load::first_true(v, i) < v.len() ==> v[load::first_true(v, i)],
        i <= k < load::first_true(v, i) ==> !v[k],
    decreases v.len() - i,
{
    if i < v.len() && !v[i] {
        law_first_that_is_there(v, i + 1, k);
    }
}

/// A text that begins and ends with something else than white space.
pub open spec fn trim_text(s: Seq<u8>) -> bool {
    s.len() > 0 && text::all_ascii(s) && !text::ascii_blank(s[0]) && !text::ascii_blank(s.last())
}

/// A script is run by the program that its first line names, with the argument
/// that stands there in front of the script's own path and arguments.
pub proof fn law_script_names_its_program(
    prog: Seq<u8>,
    arg: Seq<u8>,
    body: Seq<u8>,
    asked: Seq<u8>,
    rest: Seq<Seq<u8>>,
    depth: u8,
    path: Seq<u8>,
    r: Load,
)
    requires
        trim_text(prog),
        trim_text(arg),
        forall|i: int| 0 <= i < prog.len() ==> #[trigger] prog[i] != 32 && prog[i] != 9 && prog[i] != 10,
        !arg.contains(10u8),
        depth < load::SHEBANG_MAX_DEPTH,
        load::load_done(
            asked,
            rest,
            depth,
            Some(path),
            Some(seq![35u8, 33] + prog + seq![32u8] + arg + seq![10u8] + body),
            r,
        ),
    ensures
        r matches Load::Script { prog: p, rest: a, depth: d } && p@ == prog && bytes::views(a@)
            == seq![arg, path] + rest && d == depth + 1,
{
    let img = seq![35u8, 33] + prog + seq![32u8] + arg + seq![10u8] + body;
    let line = prog + seq![32u8] + arg;
    let end = line.len() + 2;
    assert forall|k: int| 2 <= k < end implies img[k] != 10 by {
        if k < prog.len() + 2 {
            assert(img[k] == prog[k - 2]);
        } else if k > prog.len() + 2 {
            assert(img[k] == arg[k - 3 - prog.len()]);
            assert(arg.contains(arg[k - 3 - prog.len()]));
        }
    }
    assert(img[end as int] == 10);
    bytes::lemma_index_from_unique(img, 2, 10, end as int);
    assert(img.subrange(2, end as int) =~= line);
    assert(text::all_ascii(line));
    lemma_ascii_is_text(line);
    assert(line[0] == prog[0] && line.last() == arg.last());
    assert(text::trimmed_form(line) == line);
    lemma_blank_index(line, 0, prog.len() as int);
    assert(line.take(prog.len() as int) =~= prog);
    assert(line.skip(prog.len() as int + 1) =~= arg);
    assert(load::interpreter_arg(line) + seq![path] =~= seq![arg, path]);
}

proof fn lemma_ascii_is_text(s: Seq<u8>)
    requires
        text::all_ascii(s),
    ensures
        vstd::utf8::valid_utf8(s),
    decreases s.len(),
{
    if s.len() > 0 {
        assert(s[0] < 128);
        let t = s.skip(1);
        assert forall|i: int| 0 <= i < t.len() implies #[trigger] t[i] < 128 by {
            assert(t[i] == s[i + 1]);
        }
        lemma_ascii_is_text(t);
    }
}

proof fn lemma_blank_index(s: Seq<u8>, i: int, at: int)
    requires
        0 <= i <= at < s.len(),
        s[at] == 32,
        forall|k: int| i <= k < at ==> #[trigger] s[k] != 32 && s[k] != 9,
    ensures
        load::blank_index(s, i) == at,
    decreases at - i,
{
    if i < at {
        lemma_blank_index(s, i + 1, at);
    }
}

/// The words of a command line can be told apart again where none of them holds
/// a blank.
pub proof fn law_command_line_holds_the_words(words: Seq<Seq<u8>>)
    requires
        words.len() > 0,
        forall|i: int| 0 <= i < words.len() ==> !(#[trigger] words[i]).contains(32u8),
    ensures
        cwd::split_on(load::spaced(words), 32) == words,
    decreases words.len(),
{
    let last = words.last();
    assert(last == words[words.len() - 1]);
    lemma_whole(last);
    if words.len() == 1 {
        assert(words =~= seq![last]);
    } else {
        let d = words.drop_last();
        assert forall|i: int| 0 <= i < d.len() implies !(#[trigger] d[i]).contains(32u8) by {
            assert(d[i] == words[i]);
        }
        law_command_line_holds_the_words(d);
        lemma_split_blank(load::spaced(d), last);
        assert(d + seq![last] =~= words);
    }
}

proof fn lemma_whole(s: Seq<u8>)
    requires
        !s.contains(32u8),
    ensures
        cwd::split_on(s, 32) == seq![s],
{
    bytes::lemma_index_from(s, 0, 32);
    let j = bytes::index_from(s, 0, 32);
    if j < s.len() {
        assert(s.contains(s[j]));
    }
}

proof fn lemma_split_blank(a: Seq<u8>, b: Seq<u8>)
    ensures
        cwd::split_on(a + seq![32u8] + b, 32) == cwd::split_on(a, 32) + cwd::split_on(b, 32),
    decreases a.len(),
{
    let s = a + seq![32u8] + b;
    bytes::lemma_index_from(a, 0, 32);
    let j = bytes::index_from(a, 0, 32);
    assert forall|k: int| 0 <= k < j implies s[k] != 32 by {
        assert(s[k] == a[k]);
    }
    if j < a.len() {
        assert(s[j] == a[j]);
        bytes::lemma_index_from_unique(s, 0, 32, j);
        assert(s.take(j) =~= a.take(j));
        assert(s.skip(j + 1) =~= a.skip(j + 1) + seq![32u8] + b);
        lemma_split_blank(a.skip(j + 1), b);
        assert(cwd::split_on(s, 32) =~= cwd::split_on(a, 32) + cwd::split_on(b, 32));
    } else {
        bytes::lemma_index_from_unique(s, 0, 32, a.len() as int);
        assert(s.take(a.len() as int) =~= a);
        assert(s.skip(a.len() as int + 1) =~= b);
        assert(cwd::split_on(s, 32) =~= seq![a] + cwd::split_on(b, 32));
    }
}

// ── From words to programs ──

/// What a parsed command asks for is what is run: its words, the variable that
/// is set in front of it, its redirections in order, and whether it is waited
/// for.
pub proof fn law_command_is_run_as_parsed(c: CommandView, argv: Seq<Seq<u8>>, i: int)
    requires
        0 <= i < c.redirs.len(),
    ensures
        ({
            let s = exec::stage_from(c, argv);
            &&& s.argv == argv
            &&& s.bg == c.bg
            &&& c.assign matches Some(kv) ==> s.env == seq![kv]
            &&& c.assign is None ==> s.env.len() == 0
            &&& s.redirs.len() == c.redirs.len()
            &&& s.redirs[i].slot == c.redirs[i].slot
            &&& s.redirs[i].target == c.redirs[i].target
            &&& s.redirs[i].append == c.redirs[i].append
            &&& s.redirs[i].dup_to_1 == c.redirs[i].dup_to_1
        }),
{
}

/// The first word says what runs: `run` and names that are not the shell's are
/// programs, the others are commands of the shell by that very name, and in a
/// script `exit` ends it with the code that it is given.
pub proof fn law_first_word_says_what_runs(argv: Seq<Seq<u8>>, s: Single, n: nat)
    requires
        argv.len() > 0,
        n <= i64::MAX,
    ensures
        exec::single_is(argv, false, s) && argv[0] == bytes::lit("run") ==> s is Run,
        exec::single_is(argv, false, s) && argv[0] != bytes::lit("run") ==> (s is Program
            <==> !builtins::is_builtin_name(argv[0])),
        exec::single_is(argv, false, s) && s is Builtin ==> argv[0] == builtins::builtin_name(
            s->Builtin_0,
        ),
        argv == seq![bytes::lit("exit"), bytes::decimal(n)] && exec::single_is(argv, true, s) ==> s
            == Single::ExitScript(n as i64, false),
        argv == seq![bytes::lit("exit")] && exec::single_is(argv, true, s) ==> s
            == Single::ExitScript(0, false),
{
    lemma_number(n);
}

proof fn lemma_number(n: nat)
    requires
        n <= i64::MAX,
    ensures
        jobs::parsed_signed(bytes::decimal(n)) == Some(n as int),
{
    let d = bytes::decimal(n);
    bytes::lemma_decimal_round_trip(n);
    assert(bytes::digit_byte(d[0]));
    assert(bytes::all_digits(d));
}

/// A number that is to be killed is a pid, whatever it is.
pub proof fn law_number_is_killed_as_pid(name: Seq<u8>, n: nat, v: Victim)
    requires
        n <= i64::MAX,
        info::victim_is(seq![name, bytes::decimal(n)], v),
    ensures
        v == Victim::Pid(n as i64),
{
    lemma_number(n);
    assert(seq![name, bytes::decimal(n)][1] == bytes::decimal(n));
}

/// Words without patterns stand for themselves, one argument each, in order.
pub proof fn law_words_become_arguments(args: Seq<Seq<Ch>>, listings: Seq<Option<Vec<u8>>>, i: int)
    requires
        forall|k: int| 0 <= k < args.len() ==> !glob::has_pattern(#[trigger] args[k]),
        0 <= i < args.len(),
    ensures
        glob::all_globbed(args, listings).len() == args.len(),
        glob::all_globbed(args, listings)[i] == bytes::text_of(parser::plain_bytes(args[i])),
    decreases args.len(),
{
    let d = args.drop_last();
    assert(!glob::has_pattern(args[args.len() - 1]));
    lemma_globbed_len(args, listings);
    if d.len() > 0 {
        assert forall|k: int| 0 <= k < d.len() implies !glob::has_pattern(#[trigger] d[k]) by {
            assert(d[k] == args[k]);
        }
        lemma_globbed_len(d, listings);
        if i < d.len() {
            law_words_become_arguments(d, listings, i);
            assert(d[i] == args[i]);
        }
    }
}

proof fn lemma_globbed_len(args: Seq<Seq<Ch>>, listings: Seq<Option<Vec<u8>>>)
    requires
        forall|k: int| 0 <= k < args.len() ==> !glob::has_pattern(#[trigger] args[k]),
    ensures
        glob::all_globbed(args, listings).len() == args.len(),
    decreases args.len(),
{
    if args.len() > 0 {
        let d = args.drop_last();
        assert(!glob::has_pattern(args[args.len() - 1]));
        assert forall|k: int| 0 <= k < d.len() implies !glob::has_pattern(#[trigger] d[k]) by {
            assert(d[k] == args[k]);
        }
        lemma_globbed_len(d, listings);
    }
}

/// Redirections to files are left as they are, and the lines behind the command
/// are not touched; a here-document takes its lines, and the one of the next
/// command begins where it ended.
pub proof fn law_heredocs_are_read_in_turn(
    files: Seq<RedirectView>,
    r: RedirectView,
    lines: Seq<Seq<u8>>,
    pos: int,
)
    requires
        forall|k: int| 0 <= k < files.len() ==> !(#[trigger] files[k]).heredoc,
        r.heredoc,
        r.body is None,
    ensures
        exec::filled_redirs(files, lines, pos) == Some((files, pos)),
        match exec::heredoc(lines, pos, r.target) {
            Some((body, end)) => exec::filled_redirs(files.push(r), lines, pos) == Some(
                (files.push(RedirectView { body: Some(body), ..r }), end),
            ),
            None => exec::filled_redirs(files.push(r), lines, pos) is None,
        },
    decreases files.len(),
{
    assert(files.push(r).drop_last() =~= files);
    if files.len() > 0 {
        let d = files.drop_last();
        assert forall|k: int| 0 <= k < d.len() implies !(#[trigger] d[k]).heredoc by {
            assert(d[k] == files[k]);
        }
        assert(!files[files.len() - 1].heredoc);
        law_heredocs_are_read_in_turn(d, r, lines, pos);
        assert(d.push(files.last()) =~= files);
    } else {
        assert(files =~= Seq::<RedirectView>::empty());
    }
}

/// The commands of a pipeline read their here-documents one after the other.
pub proof fn law_next_command_reads_on(
    stages: Seq<StageView>,
    s: StageView,
    lines: Seq<Seq<u8>>,
    pos: int,
)
    ensures
        match exec::filled_stages(stages, lines, pos) {
            Some((front, at)) => match exec::filled_redirs(s.redirs, lines, at) {
                Some((redirs, end)) => exec::filled_stages(stages.push(s), lines, pos) == Some(
                    (front.push(StageView { redirs, ..s }), end),
                ),
                None => exec::filled_stages(stages.push(s), lines, pos) is None,
            },
            None => exec::filled_stages(stages.push(s), lines, pos) is None,
        },
{
    assert(stages.push(s).drop_last() =~= stages);
}

/// A stream is turned to what was claimed for it, or to what another stream is;
/// the other streams stay.
pub proof fn law_one_stream_is_turned(
    fds: Seq<i64>,
    vfd: u8,
    target: u8,
    nonce: u64,
    claimed: i64,
    other: int,
)
    requires
        vfd < fds.len(),
        target < fds.len(),
        0 <= other < fds.len(),
        other != vfd,
    ensures
        ({
            let a = pipeline::stream_after(fds, Entry::Grant { vfd, nonce }, claimed);
            let b = pipeline::stream_after(fds, Entry::Alias { vfd, target }, claimed);
            &&& a[vfd as int] == claimed && a[other] == fds[other]
            &&& b[vfd as int] == fds[target as int] && b[other] == fds[other]
        }),
{
}

/// A short listing shows each name with two blanks behind it; in a long one the
/// first byte of a row tells what the entry is.
pub proof fn law_rows_tell_the_entries(
    a: Seq<Seq<u8>>,
    b: Seq<Seq<u8>>,
    name: Seq<u8>,
    f: EntryFact,
)
    ensures
        info::names_row(a + b) == info::names_row(a) + info::names_row(b),
        info::names_row(seq![name]) == name + seq![32u8, 32u8],
        info::long_row(name, Some(f))[0] == (if f.is_dir {
            100u8
        } else if f.is_device {
            118u8
        } else {
            45u8
        }),
        info::long_row(name, None)[0] == 63,
{
    reveal_strlit("  ");
    reveal_strlit("d ");
    reveal_strlit("v ");
    reveal_strlit("- ");
    reveal_strlit("? ");
    vstd::utf8::is_ascii_chars_encode_utf8("  "@);
    vstd::utf8::is_ascii_chars_encode_utf8("d "@);
    vstd::utf8::is_ascii_chars_encode_utf8("v "@);
    vstd::utf8::is_ascii_chars_encode_utf8("- "@);
    vstd::utf8::is_ascii_chars_encode_utf8("? "@);
    reveal_with_fuel(info::names_row, 2);
    assert(seq![name].drop_last() =~= Seq::<Seq<u8>>::empty());
    assert(info::names_row(seq![name]) =~= name + seq![32u8, 32u8]);
    lemma_names_row(a, b);
}

proof fn lemma_names_row(a: Seq<Seq<u8>>, b: Seq<Seq<u8>>)
    ensures
        info::names_row(a + b) == info::names_row(a) + info::names_row(b),
    decreases b.len(),
{
    if b.len() == 0 {
        assert(a + b =~= a);
        assert(info::names_row(a) + info::names_row(b) =~= info::names_row(a));
    } else {
        assert((a + b).drop_last() =~= a + b.drop_last());
        lemma_names_row(a, b.drop_last());
        assert(info::names_row(a + b) =~= info::names_row(a) + info::names_row(b));
    }
}

// ── Dumps ──

/// A dump goes on from row to row: each row begins at the place that the bytes
/// before it end at.
pub proof fn law_dump_goes_on_from_row_to_row(rows: Seq<Seq<u8>>, row: Seq<u8>)
    ensures
        show::show_after(show::show_start(Builtin::Hexdump), rows) == ShowView::Hexdump(
            show::whole(rows).len() as int,
        ),
        show::show_all(show::show_start(Builtin::Hexdump), rows.push(row)) == show::show_all(
            show::show_start(Builtin::Hexdump),
            rows,
        ) + info::hexdump_text(show::whole(rows).len() as int, row),
    decreases rows.len(),
{
    assert(rows.push(row).drop_last() =~= rows);
    if rows.len() > 0 {
        law_dump_goes_on_from_row_to_row(rows.drop_last(), row);
    }
}

// ── Lists ──

/// A command behind `&&` runs on success and one behind `||` on failure: the
/// operator that was typed decides, and no other does.
pub proof fn law_typed_operator_decides(op: Op, status: i64)
    ensures
        ({
            let link = exec::link_of(parser::conn_kind(op).0);
            &&& link is And <==> op == Op::And
            &&& link is Or <==> op == Op::Or
            &&& exec::goes(seq![link], 1, status) == (if op == Op::And {
                status == 0
            } else if op == Op::Or {
                status != 0
            } else {
                true
            })
        }),
{
}

/// Jobs are shown in the order of the table, each with its place in it, and
/// processes in the order in which they are told.
pub proof fn law_lists_are_shown_in_order(
    list: Seq<JobView>,
    j: JobView,
    procs: Seq<Process>,
    p: Process,
    me: u32,
)
    ensures
        jobs::job_lines(list.push(j)) == jobs::job_lines(list) + jobs::job_line(
            list.len() as int,
            j,
        ),
        info::process_rows(procs.push(p), me) == info::process_rows(procs, me) + info::process_row(
            p,
            me,
        ),
        p.pid == me ==> info::process_state(p, me) == bytes::lit("run"),
        p.pid != me && p.state == 0 ==> info::process_state(p, me) == bytes::lit("ready"),
{
    assert(list.push(j).drop_last() =~= list);
    assert(procs.push(p).drop_last() =~= procs);
}

} // verus!
