//! The order in which the commands of a line run, what becomes of each, and
//! scripts.
use vstd::prelude::*;

use super::builtins;
use super::builtins::{builtin, Builtin};
use super::cwd;
use super::cwd::{split_bytes, Cwd};
use super::jobs;
use super::jobs::parse_i64;
use super::load;
use super::parser;
use super::parser::{op_text, Command, Conn, ParseError, Redir, Vars};
use super::pipeline;
use super::pipeline::Stage;
use super::redirect;
use super::redirect::{Redirect, RedirectView};
use crate::bytes;
use crate::bytes::{append_bytes, bytes_eq, copy_of, is_str, is_utf8, push_str};

verus! {

// ── Scripts ──

/// A line without the carriage return at its end.
pub open spec fn chomped(line: Seq<u8>) -> Seq<u8> {
    if line.len() > 0 && line.last() == 13 {
        line.drop_last()
    } else {
        line
    }
}

/// The lines of a text.
pub open spec fn script_lines(text: Seq<u8>) -> Seq<Seq<u8>> {
    let parts = cwd::split_on(text, 10);
    Seq::new(parts.len(), |i: int| chomped(parts[i]))
}

/// Lines that commands and here-documents are read from, in turn.
pub struct ScriptSrc {
    pub lines: Vec<Vec<u8>>,
    pub pos: usize,
}

impl ScriptSrc {
    pub open spec fn wf(&self) -> bool {
        self.pos <= self.lines@.len()
    }

    pub fn new(text: &[u8]) -> (r: ScriptSrc)
        ensures
            r.wf(),
            r.pos == 0,
            bytes::views(r.lines@) == script_lines(text@),
    {
        broadcast use bytes::lemma_views_push;

        let parts: Vec<Vec<u8>> = split_bytes(text, 10);
        let ghost pv = bytes::views(parts@);
        let mut lines: Vec<Vec<u8>> = Vec::new();
        let mut i: usize = 0;
        while i < parts.len()
            invariant
                i <= parts@.len(),
                pv == bytes::views(parts@),
                lines@.len() == i,
                forall|k: int| 0 <= k < i ==> (#[trigger] lines@[k])@ == chomped(pv[k]),
            decreases parts.len() - i,
        {
            let mut l: Vec<u8> = copy_of(&parts[i]);
            assert(l@ == pv[i as int]);
            if l.len() > 0 && l[l.len() - 1] == 13 {
                l.pop();
                assert(l@ =~= chomped(pv[i as int]));
            }
            lines.push(l);
            i = i + 1;
        }
        assert(bytes::views(lines@) =~= script_lines(text@));
        ScriptSrc { lines, pos: 0 }
    }

    /// Lines that were typed.
    pub fn of_lines(lines: Vec<Vec<u8>>) -> (r: ScriptSrc)
        ensures
            r.wf(),
            r == (ScriptSrc { lines, pos: 0 }),
    {
        ScriptSrc { lines, pos: 0 }
    }

    pub fn next_line(&mut self) -> (r: Option<Vec<u8>>)
        requires
            old(self).wf(),
        ensures
            final(self).wf(),
            final(self).lines == old(self).lines,
            if old(self).pos < old(self).lines@.len() {
                &&& r matches Some(l) && l@ == old(self).lines@[old(self).pos as int]@
                &&& final(self).pos == old(self).pos + 1
            } else {
                r is None && final(self).pos == old(self).pos
            },
    {
        if self.pos < self.lines.len() {
            let l: Vec<u8> = copy_of(&self.lines[self.pos]);
            self.pos = self.pos + 1;
            Some(l)
        } else {
            None
        }
    }
}

// ── Here-documents ──

/// The here-document that ends with the line `delim`: the lines up to it, and
/// where the lines go on; nothing if there is no such line.
pub open spec fn heredoc(lines: Seq<Seq<u8>>, pos: int, delim: Seq<u8>) -> Option<(Seq<u8>, int)>
    decreases lines.len() - pos,
{
    if pos < 0 || pos >= lines.len() {
        None
    } else if lines[pos] == delim {
        Some((Seq::empty(), pos + 1))
    } else {
        match heredoc(lines, pos + 1, delim) {
            Some((rest, end)) => Some((lines[pos] + seq![10u8] + rest, end)),
            None => None,
        }
    }
}

/// Reads a here-document. Nothing in it is expanded.
pub fn read_heredoc(src: &mut ScriptSrc, delim: &[u8]) -> (r: Option<Vec<u8>>)
    requires
        old(src).wf(),
    ensures
        final(src).wf(),
        final(src).lines == old(src).lines,
        match heredoc(bytes::views(old(src).lines@), old(src).pos as int, delim@) {
            Some((body, end)) => r matches Some(b) && b@ == body && final(src).pos == end,
            None => r is None,
        },
{
    let ghost lv = bytes::views(src.lines@);
    let ghost p0 = src.pos as int;
    let mut body: Vec<u8> = Vec::new();
    loop
        invariant
            src.wf(),
            src.lines == old(src).lines,
            lv == bytes::views(src.lines@),
            p0 == old(src).pos,
            p0 <= src.pos,
            match heredoc(lv, src.pos as int, delim@) {
                Some((rest, end)) => heredoc(lv, p0, delim@) == Some((body@ + rest, end)),
                None => heredoc(lv, p0, delim@) is None,
            },
        decreases src.lines@.len() - src.pos,
    {
        let ghost at = src.pos as int;
        let ghost b0 = body@;
        match src.next_line() {
            Some(l) => {
                assert(l@ == lv[at]);
                if bytes_eq(&l, delim) {
                    assert(b0 + Seq::<u8>::empty() =~= b0);
                    return Some(body);
                }
                append_bytes(&mut body, &l);
                body.push(10);
                proof {
                    if let Some((rest, end)) = heredoc(lv, at + 1, delim@) {
                        assert(b0 + (lv[at] + seq![10u8] + rest) =~= body@ + rest);
                    }
                }
            },
            None => {
                return None;
            },
        }
    }
}

/// Redirections with their here-documents read, and where the lines go on.
pub open spec fn filled_redirs(
    redirs: Seq<RedirectView>,
    lines: Seq<Seq<u8>>,
    pos: int,
) -> Option<(Seq<RedirectView>, int)>
    decreases redirs.len(),
{
    if redirs.len() == 0 {
        Some((Seq::empty(), pos))
    } else {
        match filled_redirs(redirs.drop_last(), lines, pos) {
            None => None,
            Some((front, at)) => {
                let r = redirs.last();
                if r.heredoc && r.body is None {
                    match heredoc(lines, at, r.target) {
                        Some((body, end)) => Some(
                            (front.push(RedirectView { body: Some(body), ..r }), end),
                        ),
                        None => None,
                    }
                } else {
                    Some((front.push(r), at))
                }
            },
        }
    }
}

fn fill_redirs(redirs: &mut Vec<Redirect>, src: &mut ScriptSrc) -> (r: bool)
    requires
        old(src).wf(),
    ensures
        final(src).wf(),
        final(src).lines == old(src).lines,
        match filled_redirs(
            redirect::redirect_views(old(redirs)@),
            bytes::views(old(src).lines@),
            old(src).pos as int,
        ) {
            Some((v, end)) => {
                &&& r
                &&& redirect::redirect_views(final(redirs)@) == v
                &&& final(src).pos == end
            },
            None => !r,
        },
{
    let ghost r0 = redirect::redirect_views(redirs@);
    let ghost lv = bytes::views(src.lines@);
    let ghost p0 = src.pos as int;
    let mut i: usize = 0;
    assert(r0.take(0) =~= Seq::empty());
    assert(redirect::redirect_views(redirs@).take(0) =~= Seq::empty());
    while i < redirs.len()
        invariant
            i <= redirs@.len(),
            src.wf(),
            src.lines == old(src).lines,
            lv == bytes::views(src.lines@),
            redirs@.len() == r0.len(),
            r0 == redirect::redirect_views(old(redirs)@),
            p0 == old(src).pos,
            forall|k: int| i <= k < redirs@.len() ==> (#[trigger] redirs@[k])@ == r0[k],
            filled_redirs(r0.take(i as int), lv, p0) == Some(
                (redirect::redirect_views(redirs@).take(i as int), src.pos as int),
            ),
        decreases redirs.len() - i,
    {
        let ghost before = redirect::redirect_views(redirs@);
        assert(r0.take(i + 1).drop_last() =~= r0.take(i as int));
        assert(r0.take(i + 1).last() == redirs@[i as int]@);
        if redirs[i].heredoc && redirs[i].body.is_none() {
            let delim: Vec<u8> = copy_of(&redirs[i].target);
            match read_heredoc(src, &delim) {
                Some(b) => {
                    let ghost bv = b@;
                    redirs[i].body = Some(b);
                    assert(redirs@[i as int]@ =~= RedirectView {
                        body: Some(bv),
                        ..r0[i as int]
                    });
                },
                None => {
                    proof {
                        lemma_fill_fails(r0, lv, p0, i + 1);
                    }
                    return false;
                },
            }
        }
        let ghost after = redirect::redirect_views(redirs@);
        assert(after.take(i as int) =~= before.take(i as int));
        assert(after.take(i + 1) =~= after.take(i as int).push(redirs@[i as int]@));
        i = i + 1;
    }
    assert(r0.take(r0.len() as int) =~= r0);
    let ghost all = redirect::redirect_views(redirs@);
    assert(all.take(all.len() as int) =~= all);
    true
}

proof fn lemma_fill_fails(redirs: Seq<RedirectView>, lines: Seq<Seq<u8>>, pos: int, i: int)
    requires
        0 <= i <= redirs.len(),
        filled_redirs(redirs.take(i), lines, pos) is None,
    ensures
        filled_redirs(redirs, lines, pos) is None,
    decreases redirs.len() - i,
{
    if i == redirs.len() {
        assert(redirs.take(i) =~= redirs);
    } else {
        assert(redirs.take(i + 1).drop_last() =~= redirs.take(i));
        lemma_fill_fails(redirs, lines, pos, i + 1);
    }
}

/// Commands with their here-documents read, and where the lines go on.
pub open spec fn filled_stages(
    stages: Seq<pipeline::StageView>,
    lines: Seq<Seq<u8>>,
    pos: int,
) -> Option<(Seq<pipeline::StageView>, int)>
    decreases stages.len(),
{
    if stages.len() == 0 {
        Some((Seq::empty(), pos))
    } else {
        match filled_stages(stages.drop_last(), lines, pos) {
            None => None,
            Some((front, at)) => match filled_redirs(stages.last().redirs, lines, at) {
                Some((redirs, end)) => Some(
                    (front.push(pipeline::StageView { redirs, ..stages.last() }), end),
                ),
                None => None,
            },
        }
    }
}

proof fn lemma_fill_stages_fails(
    stages: Seq<pipeline::StageView>,
    lines: Seq<Seq<u8>>,
    pos: int,
    i: int,
)
    requires
        0 <= i <= stages.len(),
        filled_stages(stages.take(i), lines, pos) is None,
    ensures
        filled_stages(stages, lines, pos) is None,
    decreases stages.len() - i,
{
    if i == stages.len() {
        assert(stages.take(i) =~= stages);
    } else {
        assert(stages.take(i + 1).drop_last() =~= stages.take(i));
        lemma_fill_stages_fails(stages, lines, pos, i + 1);
    }
}

/// Reads all here-documents of a line, before anything runs. False if the lines
/// end before a here-document does.
pub fn fill_heredocs(stages: &mut Vec<Stage>, src: &mut ScriptSrc) -> (r: bool)
    requires
        old(src).wf(),
    ensures
        final(src).wf(),
        final(src).lines == old(src).lines,
        match filled_stages(
            pipeline::stage_views(old(stages)@),
            bytes::views(old(src).lines@),
            old(src).pos as int,
        ) {
            Some((v, end)) => {
                &&& r
                &&& pipeline::stage_views(final(stages)@) == v
                &&& final(src).pos == end
            },
            None => !r,
        },
{
    let ghost s0 = pipeline::stage_views(stages@);
    let ghost lv = bytes::views(src.lines@);
    let ghost p0 = src.pos as int;
    let mut i: usize = 0;
    assert(s0.take(0) =~= Seq::empty());
    assert(pipeline::stage_views(stages@).take(0) =~= Seq::empty());
    while i < stages.len()
        invariant
            i <= stages@.len(),
            src.wf(),
            src.lines == old(src).lines,
            lv == bytes::views(src.lines@),
            stages@.len() == s0.len(),
            s0 == pipeline::stage_views(old(stages)@),
            p0 == old(src).pos,
            forall|k: int| i <= k < stages@.len() ==> (#[trigger] stages@[k])@ == s0[k],
            filled_stages(s0.take(i as int), lv, p0) == Some(
                (pipeline::stage_views(stages@).take(i as int), src.pos as int),
            ),
        decreases stages.len() - i,
    {
        let ghost before = pipeline::stage_views(stages@);
        assert(s0.take(i + 1).drop_last() =~= s0.take(i as int));
        assert(s0.take(i + 1).last() == stages@[i as int]@);
        let ok: bool = fill_redirs(&mut stages[i].redirs, src);
        if !ok {
            proof {
                lemma_fill_stages_fails(s0, lv, p0, i + 1);
            }
            return false;
        }
        let ghost after = pipeline::stage_views(stages@);
        assert(stages@[i as int]@ =~= pipeline::StageView {
            redirs: redirect::redirect_views(stages@[i as int].redirs@),
            ..s0[i as int]
        });
        assert(after.take(i as int) =~= before.take(i as int));
        assert(after.take(i + 1) =~= after.take(i as int).push(stages@[i as int]@));
        i = i + 1;
    }
    assert(s0.take(s0.len() as int) =~= s0);
    let ghost all = pipeline::stage_views(stages@);
    assert(all.take(all.len() as int) =~= all);
    true
}

/// The line that ends the first here-document that is still to be read.
pub fn next_delim(stages: &Vec<Stage>) -> (r: Option<Vec<u8>>)
    ensures
        load::maybe(r) == first_delim(pipeline::stage_views(stages@), 0, 0),
{
    let ghost sv = pipeline::stage_views(stages@);
    let mut i: usize = 0;
    while i < stages.len()
        invariant
            i <= stages@.len(),
            sv == pipeline::stage_views(stages@),
            first_delim(sv, i as int, 0) == first_delim(sv, 0, 0),
        decreases stages.len() - i,
    {
        let mut j: usize = 0;
        assert(sv[i as int].redirs == redirect::redirect_views(stages@[i as int].redirs@));
        while j < stages[i].redirs.len()
            invariant
                i < stages@.len(),
                sv == pipeline::stage_views(stages@),
                sv[i as int].redirs == redirect::redirect_views(stages@[i as int].redirs@),
                j <= stages@[i as int].redirs@.len(),
                first_delim(sv, i as int, j as int) == first_delim(sv, 0, 0),
            decreases stages@[i as int].redirs@.len() - j,
        {
            let r: &Redirect = &stages[i].redirs[j];
            assert(sv[i as int].redirs[j as int] == r@);
            if r.heredoc && r.body.is_none() {
                return Some(copy_of(&r.target));
            }
            j = j + 1;
        }
        i = i + 1;
    }
    None
}

/// The line that ends the first unread here-document from the redirection `j`
/// of the command `i` on.
pub open spec fn first_delim(stages: Seq<pipeline::StageView>, i: int, j: int) -> Option<Seq<u8>>
    decreases stages.len() - i, if 0 <= i < stages.len() { stages[i].redirs.len() - j } else { 0 },
{
    if i < 0 || i >= stages.len() || j < 0 {
        None
    } else if j >= stages[i].redirs.len() {
        first_delim(stages, i + 1, 0)
    } else if stages[i].redirs[j].heredoc && stages[i].redirs[j].body is None {
        Some(stages[i].redirs[j].target)
    } else {
        first_delim(stages, i, j + 1)
    }
}

// ── The order of commands ──

/// What stands between two commands.
#[derive(Clone, Copy, PartialEq, Eq, Debug, Structural)]
pub enum Link {
    /// `;` or `&`.
    Always,
    /// `&&`.
    And,
    /// `||`.
    Or,
    /// `|`.
    Pipe,
}

/// The last command of the pipeline that starts at `i`.
pub open spec fn group_end(links: Seq<Link>, n: int, i: int) -> int
    decreases n - i,
{
    if 0 <= i && i + 1 < n && i < links.len() && links[i] == Link::Pipe {
        group_end(links, n, i + 1)
    } else {
        i
    }
}

/// Whether the command `i` runs after the status `st`.
pub open spec fn goes(links: Seq<Link>, i: int, st: i64) -> bool {
    if i > 0 && i - 1 < links.len() {
        match links[i - 1] {
            Link::And => st == 0,
            Link::Or => st != 0,
            _ => true,
        }
    } else {
        true
    }
}

/// The first command from `i` on that starts a pipeline that runs.
pub open spec fn next_run(links: Seq<Link>, n: int, i: int, st: i64) -> int
    decreases n - i,
    when 0 <= i
    via next_run_decreases
{
    if i >= n || goes(links, i, st) {
        i
    } else {
        next_run(links, n, group_end(links, n, i) + 1, st)
    }
}

#[via_fn]
proof fn next_run_decreases(links: Seq<Link>, n: int, i: int, st: i64) {
    lemma_group_end(links, n, i);
}

proof fn lemma_group_end(links: Seq<Link>, n: int, i: int)
    ensures
        i <= group_end(links, n, i),
        0 <= i < n ==> group_end(links, n, i) < n,
        forall|k: int| i <= k < group_end(links, n, i) ==> #[trigger] links[k] == Link::Pipe,
    decreases n - i,
{
    if 0 <= i && i + 1 < n && i < links.len() && links[i] == Link::Pipe {
        lemma_group_end(links, n, i + 1);
    }
}

/// What runs next.
#[derive(Clone, Copy, PartialEq, Eq, Debug, Structural)]
pub enum Next {
    /// The commands from the first to the last, side by side.
    Pipeline { from: usize, to: usize },
    /// One command.
    Single(usize),
    /// All have run.
    Done,
}

/// The run of a line's commands.
pub struct Order {
    /// The next command.
    pub at: usize,
    /// The status of the last one that ran.
    pub status: i64,
}

/// Whether a command has a here-document: then it runs as a pipeline.
pub open spec fn has_heredoc(s: pipeline::StageView) -> bool {
    exists|k: int| 0 <= k < s.redirs.len() && (#[trigger] s.redirs[k]).heredoc
}

pub open spec fn next_of(
    stages: Seq<pipeline::StageView>,
    links: Seq<Link>,
    at: int,
    status: i64,
) -> Next {
    let n = stages.len() as int;
    let i = next_run(links, n, at, status);
    let j = group_end(links, n, i);
    if i >= n {
        Next::Done
    } else if j > i || has_heredoc(stages[i]) {
        Next::Pipeline { from: i as usize, to: j as usize }
    } else {
        Next::Single(i as usize)
    }
}

fn any_heredoc(s: &Stage) -> (r: bool)
    ensures
        r == has_heredoc(s@),
{
    let ghost rv = redirect::redirect_views(s.redirs@);
    let mut k: usize = 0;
    while k < s.redirs.len()
        invariant
            k <= s.redirs@.len(),
            rv == redirect::redirect_views(s.redirs@),
            forall|m: int| 0 <= m < k ==> !(#[trigger] rv[m]).heredoc,
        decreases s.redirs.len() - k,
    {
        assert(rv[k as int] == s.redirs@[k as int]@);
        if s.redirs[k].heredoc {
            assert(s@.redirs[k as int].heredoc);
            return true;
        }
        k = k + 1;
    }
    false
}

impl Order {
    pub fn new(status: i64) -> (r: Order)
        ensures
            r == (Order { at: 0, status }),
    {
        Order { at: 0, status }
    }

    fn group(links: &Vec<Link>, n: usize, i: usize) -> (r: usize)
        requires
            i < n,
        ensures
            r == group_end(links@, n as int, i as int),
            i <= r < n,
    {
        let mut j: usize = i;
        while j + 1 < n && j < links.len() && links[j] == Link::Pipe
            invariant
                i <= j < n,
                group_end(links@, n as int, j as int) == group_end(links@, n as int, i as int),
            decreases n - j,
        {
            j = j + 1;
        }
        j
    }

    /// What runs next. A command after `&&` runs only if the status is 0, one
    /// after `||` only if it is not; one that does not run leaves the status.
    pub fn exec_seq(&mut self, stages: &Vec<Stage>, links: &Vec<Link>) -> (r: Next)
        ensures
            r == next_of(
                pipeline::stage_views(stages@),
                links@,
                old(self).at as int,
                old(self).status,
            ),
            final(self).status == old(self).status,
            match r {
                Next::Pipeline { from, to } => from <= to < stages@.len() && final(self).at == to
                    + 1,
                Next::Single(i) => i < stages@.len() && final(self).at == i + 1,
                Next::Done => final(self).at >= stages@.len(),
            },
    {
        let ghost sv = pipeline::stage_views(stages@);
        let n: usize = stages.len();
        let ghost at0 = self.at as int;
        let mut i: usize = self.at;
        while i < n
            invariant
                n == stages@.len(),
                sv == pipeline::stage_views(stages@),
                self.status == old(self).status,
                at0 == old(self).at,
                i >= self.at,
                self.at == old(self).at,
                next_run(links@, n as int, i as int, self.status) == next_run(
                    links@,
                    n as int,
                    at0,
                    self.status,
                ),
            decreases n - i,
        {
            let go: bool = if i > 0 && i - 1 < links.len() {
                match links[i - 1] {
                    Link::And => self.status == 0,
                    Link::Or => self.status != 0,
                    _ => true,
                }
            } else {
                true
            };
            let j: usize = Order::group(links, n, i);
            if go {
                self.at = j + 1;
                assert(sv[i as int] == stages@[i as int]@);
                if j > i || any_heredoc(&stages[i]) {
                    return Next::Pipeline { from: i, to: j };
                }
                return Next::Single(i);
            }
            i = j + 1;
        }
        self.at = i;
        Next::Done
    }

    /// Takes in the status of what ran.
    pub fn ran(&mut self, status: i64)
        ensures
            *final(self) == (Order { status, ..*old(self) }),
    {
        self.status = status;
    }
}

/// What runs is let run by the connector in front of it: after `&&` only on
/// success, after `||` only on failure. Within what runs as one pipeline there
/// are only pipes.
pub proof fn law_short_circuit(
    stages: Seq<pipeline::StageView>,
    links: Seq<Link>,
    at: int,
    status: i64,
)
    requires
        0 <= at,
        stages.len() <= usize::MAX,
    ensures
        match next_of(stages, links, at, status) {
            Next::Single(i) => at <= i && goes(links, i as int, status),
            Next::Pipeline { from, to } => {
                &&& at <= from
                &&& goes(links, from as int, status)
                &&& forall|k: int| from <= k < to ==> #[trigger] links[k] == Link::Pipe
            },
            Next::Done => true,
        },
    decreases stages.len() - at,
{
    let n = stages.len() as int;
    lemma_next_run(links, n, at, status);
    lemma_group_end(links, n, next_run(links, n, at, status));
}

proof fn lemma_next_run(links: Seq<Link>, n: int, i: int, st: i64)
    requires
        0 <= i,
    ensures
        i <= next_run(links, n, i, st),
        next_run(links, n, i, st) < n ==> goes(links, next_run(links, n, i, st), st),
    decreases n - i,
{
    if i < n && !goes(links, i, st) {
        lemma_group_end(links, n, i);
        lemma_next_run(links, n, group_end(links, n, i) + 1, st);
    }
}

// ── One command ──

/// What becomes of a command.
#[derive(Clone, Copy, PartialEq, Eq, Debug, Structural)]
pub enum Single {
    /// Its redirections are opened and closed again; then its variables are
    /// set, for good.
    Assign,
    /// The script ends with this code. True if the code is no number.
    ExitScript(i64, bool),
    /// It is a `run`.
    Run,
    /// It is a program, looked up by its name.
    Program,
    /// It is a command of the shell. Its redirections are opened before and
    /// closed after it, its variables are set for as long as it runs.
    Builtin(Builtin),
}

/// Whether a command becomes this.
pub open spec fn single_is(argv: Seq<Seq<u8>>, script: bool, s: Single) -> bool {
    if argv.len() == 0 {
        s is Assign
    } else if script && argv[0] == bytes::lit("exit") {
        if argv.len() == 1 {
            s == Single::ExitScript(0, false)
        } else {
            match jobs::parsed_signed(argv[1]) {
                Some(n) => s == Single::ExitScript(n as i64, false),
                None => s == Single::ExitScript(1, true),
            }
        }
    } else if argv[0] == bytes::lit("run") {
        s is Run
    } else if !builtins::is_builtin_name(argv[0]) {
        s is Program
    } else {
        s matches Single::Builtin(b) && argv[0] == builtins::builtin_name(b)
    }
}

/// What becomes of a command. In a script `exit` ends the script, not the
/// shell.
pub fn exec_single(argv: &Vec<Vec<u8>>, script: bool) -> (r: Single)
    ensures
        single_is(bytes::views(argv@), script, r),
{
    if argv.len() == 0 {
        return Single::Assign;
    }
    assert(bytes::views(argv@)[0] == argv@[0]@);
    if script && is_str(&argv[0], "exit") {
        if argv.len() == 1 {
            return Single::ExitScript(0, false);
        }
        assert(bytes::views(argv@)[1] == argv@[1]@);
        return match parse_i64(&argv[1]) {
            Some(n) => Single::ExitScript(n, false),
            None => Single::ExitScript(1, true),
        };
    }
    if is_str(&argv[0], "run") {
        return Single::Run;
    }
    match builtin(&argv[0]) {
        Some(b) => Single::Builtin(b),
        None => Single::Program,
    }
}

/// What has come of what was asked while a command is run.
#[derive(Clone, Copy, PartialEq, Eq, Debug, Structural)]
pub enum SingleEvent {
    /// Nothing has been asked yet.
    Started,
    /// All redirections are open.
    Opened,
    /// A redirection could not be opened; nothing is open.
    OpenFailed,
    /// The program was looked for: true if it was found.
    Looked(bool),
    /// What ran has ended with this status.
    Ended(i64),
}

/// What the shell says where a command cannot be run.
#[derive(Clone, Copy, PartialEq, Eq, Debug, Structural)]
pub enum SingleSay {
    /// A redirection could not be opened.
    OpenError,
    Line(LineError),
}

/// How a command ends. First it is said what is wrong, then variables and streams
/// are restored, then what was opened is closed, then variables are set for good.
#[derive(Clone, Copy, PartialEq, Eq, Debug, Structural)]
pub struct SingleEnd {
    pub say: Option<SingleSay>,
    pub restore: bool,
    pub close: bool,
    pub set: bool,
    pub outcome: LineOutcome,
}

/// What is to be done next for a command.
#[derive(Clone, Copy, PartialEq, Eq, Debug, Structural)]
pub enum SingleAsk {
    /// Its redirections are to be opened.
    OpenRedirs,
    /// The program of its name is to be looked for.
    Look,
    /// It is to be run as a `run`.
    RunWords,
    /// The program that was found is to be run.
    RunFound,
    /// The streams are to be turned and its variables set, then the command of
    /// the shell is to be carried out.
    Carry(Builtin),
    /// It is over.
    Finish(SingleEnd),
}

/// An event that can come in the course of a command.
pub open spec fn may_come(kind: Single, ev: SingleEvent) -> bool {
    match ev {
        SingleEvent::Started => true,
        SingleEvent::Opened => kind is Assign || kind is Builtin,
        SingleEvent::OpenFailed => kind is Assign || kind is Builtin,
        SingleEvent::Looked(_) => kind is Program,
        SingleEvent::Ended(_) => kind is Run || kind is Program || kind is Builtin,
    }
}

/// A command that is over, with nothing left to be undone.
pub open spec fn over(say: Option<SingleSay>, outcome: LineOutcome) -> SingleAsk {
    SingleAsk::Finish(SingleEnd { say, restore: false, close: false, set: false, outcome })
}

/// What is to be done next for a command. Redirections are opened before
/// variables are set; where one cannot be opened, no variable is set and nothing
/// runs. A command that there is none of has the status 127.
pub open spec fn single_next(kind: Single, ev: SingleEvent) -> SingleAsk {
    match (kind, ev) {
        (Single::ExitScript(code, bad), _) => over(
            if bad {
                Some(SingleSay::Line(LineError::BadCode))
            } else {
                None
            },
            LineOutcome::Exit(code),
        ),
        (Single::Run, SingleEvent::Started) => SingleAsk::RunWords,
        (Single::Program, SingleEvent::Started) => SingleAsk::Look,
        (_, SingleEvent::Started) => SingleAsk::OpenRedirs,
        (_, SingleEvent::OpenFailed) => over(
            Some(SingleSay::OpenError),
            LineOutcome::Continue(1),
        ),
        (Single::Builtin(b), SingleEvent::Opened) => SingleAsk::Carry(b),
        (_, SingleEvent::Opened) => SingleAsk::Finish(
            SingleEnd {
                say: None,
                restore: false,
                close: true,
                set: true,
                outcome: LineOutcome::Continue(0),
            },
        ),
        (_, SingleEvent::Looked(found)) => if found {
            SingleAsk::RunFound
        } else {
            over(Some(SingleSay::Line(LineError::Unknown)), LineOutcome::Continue(127))
        },
        (Single::Builtin(_), SingleEvent::Ended(code)) => SingleAsk::Finish(
            SingleEnd {
                say: None,
                restore: true,
                close: true,
                set: false,
                outcome: LineOutcome::Continue(code),
            },
        ),
        (_, SingleEvent::Ended(code)) => over(None, LineOutcome::Continue(code)),
    }
}

fn ended(say: Option<SingleSay>, outcome: LineOutcome) -> (r: SingleAsk)
    ensures
        r == over(say, outcome),
{
    SingleAsk::Finish(SingleEnd { say, restore: false, close: false, set: false, outcome })
}

/// What is to be done next for a command.
pub fn single_step(kind: &Single, ev: SingleEvent) -> (r: SingleAsk)
    requires
        may_come(*kind, ev),
    ensures
        r == single_next(*kind, ev),
{
    if let Single::ExitScript(code, bad) = *kind {
        let say: Option<SingleSay> = if bad {
            Some(SingleSay::Line(LineError::BadCode))
        } else {
            None
        };
        return ended(say, LineOutcome::Exit(code));
    }
    match ev {
        SingleEvent::Started => match *kind {
            Single::Run => SingleAsk::RunWords,
            Single::Program => SingleAsk::Look,
            _ => SingleAsk::OpenRedirs,
        },
        SingleEvent::OpenFailed => ended(Some(SingleSay::OpenError), LineOutcome::Continue(1)),
        SingleEvent::Opened => match *kind {
            Single::Builtin(b) => SingleAsk::Carry(b),
            _ => SingleAsk::Finish(
                SingleEnd {
                    say: None,
                    restore: false,
                    close: true,
                    set: true,
                    outcome: LineOutcome::Continue(0),
                },
            ),
        },
        SingleEvent::Looked(found) => if found {
            SingleAsk::RunFound
        } else {
            ended(Some(SingleSay::Line(LineError::Unknown)), LineOutcome::Continue(127))
        },
        SingleEvent::Ended(code) => match *kind {
            Single::Builtin(_) => SingleAsk::Finish(
                SingleEnd {
                    say: None,
                    restore: true,
                    close: true,
                    set: false,
                    outcome: LineOutcome::Continue(code),
                },
            ),
            _ => ended(None, LineOutcome::Continue(code)),
        },
    }
}

/// A command whose redirections cannot be opened leaves no trace: nothing is set
/// and nothing runs, and its status is 1. What a command opened is closed at its
/// end, and variables and streams that it had for itself are restored then.
pub proof fn law_single_cleans_up(kind: Single, code: i64)
    requires
        kind is Assign || kind is Builtin,
    ensures
        single_next(kind, SingleEvent::OpenFailed) matches SingleAsk::Finish(e) && !e.set
            && e.outcome == LineOutcome::Continue(1),
        kind is Builtin ==> (single_next(kind, SingleEvent::Ended(code)) matches SingleAsk::Finish(
            e,
        ) && e.close && e.restore && !e.set && e.outcome == LineOutcome::Continue(code)),
        kind is Assign ==> (single_next(kind, SingleEvent::Opened) matches SingleAsk::Finish(e)
            && e.close && e.set),
{
}

/// The code that the shell exits with at `exit`; nothing if the argument is no
/// number: the shell then says so, and stays.
pub fn cmd_exit(argv: &Vec<Vec<u8>>) -> (r: Option<i64>)
    ensures
        if argv@.len() <= 1 {
            r == Some(0i64)
        } else {
            match jobs::parsed_signed(argv@[1]@) {
                Some(n) => r matches Some(c) && c == n,
                None => r is None,
            }
        },
{
    if argv.len() <= 1 {
        return Some(0);
    }
    parse_i64(&argv[1])
}

/// What the shell says of a line that it cannot run.
#[derive(Clone, Copy, PartialEq, Eq, Debug, Structural)]
pub enum LineError {
    /// There is no such command. Its status is 127.
    Unknown,
    /// The argument of `exit` is no number.
    BadCode,
    /// A script ends within a heredoc.
    NoDelim,
}

pub open spec fn line_error_text(e: LineError, name: Seq<u8>) -> Seq<u8> {
    match e {
        LineError::Unknown => bytes::lit("unknown command: ") + name + bytes::lit("\n"),
        LineError::BadCode => bytes::lit("exit: bad code\n"),
        LineError::NoDelim => bytes::lit("source: unexpected EOF in heredoc\n"),
    }
}

pub fn report_line_error(e: LineError, name: &[u8]) -> (r: Vec<u8>)
    ensures
        r@ == line_error_text(e, name@),
{
    let mut v: Vec<u8> = Vec::new();
    match e {
        LineError::Unknown => {
            push_str(&mut v, "unknown command: ");
            append_bytes(&mut v, name);
            push_str(&mut v, "\n");
        },
        LineError::BadCode => push_str(&mut v, "exit: bad code\n"),
        LineError::NoDelim => push_str(&mut v, "source: unexpected EOF in heredoc\n"),
    }
    assert(v@ =~= line_error_text(e, name@));
    v
}

/// The command line of a program that was named without `run`.
pub fn implicit_run(path: &[u8], argv: &Vec<Vec<u8>>) -> (r: Vec<Vec<u8>>)
    requires
        argv@.len() > 0,
    ensures
        bytes::views(r@) == seq![bytes::lit("run"), path@] + bytes::views(argv@).skip(1),
{
    broadcast use bytes::lemma_views_push;

    let ghost av = bytes::views(argv@);
    let mut r: Vec<Vec<u8>> = Vec::new();
    r.push(copy_of("run".as_bytes()));
    r.push(copy_of(path));
    let mut i: usize = 1;
    assert(bytes::views(r@) =~= seq![bytes::lit("run"), path@] + av.subrange(1, 1));
    while i < argv.len()
        invariant
            1 <= i <= argv@.len(),
            av == bytes::views(argv@),
            bytes::views(r@) == seq![bytes::lit("run"), path@] + av.subrange(1, i as int),
        decreases argv.len() - i,
    {
        broadcast use bytes::lemma_views_push;

        r.push(copy_of(&argv[i]));
        i = i + 1;
        assert(bytes::views(r@) =~= seq![bytes::lit("run"), path@] + av.subrange(1, i as int));
    }
    assert(av.subrange(1, av.len() as int) =~= av.skip(1));
    r
}

// ── Variables of one command ──

/// The variables once some have been set, in order.
pub open spec fn vars_with_all(
    vars: Seq<(Seq<u8>, Seq<u8>)>,
    env: Seq<(Seq<u8>, Seq<u8>)>,
) -> Seq<(Seq<u8>, Seq<u8>)>
    decreases env.len(),
{
    if env.len() == 0 {
        vars
    } else {
        parser::vars_with(vars_with_all(vars, env.drop_last()), env.last().0, env.last().1)
    }
}

/// Sets variables, in order.
pub fn set_all(vars: &mut Vars, env: &Vec<(Vec<u8>, Vec<u8>)>)
    requires
        old(vars).wf(),
    ensures
        final(vars).wf(),
        final(vars)@ == vars_with_all(old(vars)@, load::pair_views(env@)),
{
    let ghost v0 = vars@;
    let ghost ev = load::pair_views(env@);
    let mut i: usize = 0;
    assert(ev.take(0) =~= Seq::empty());
    while i < env.len()
        invariant
            i <= env@.len(),
            ev == load::pair_views(env@),
            vars.wf(),
            vars@ == vars_with_all(v0, ev.take(i as int)),
        decreases env.len() - i,
    {
        assert(ev.take(i + 1).drop_last() =~= ev.take(i as int));
        assert(ev.take(i + 1).last() == (env@[i as int].0@, env@[i as int].1@));
        vars.vars_set(&env[i].0, &env[i].1);
        i = i + 1;
    }
    assert(ev.take(ev.len() as int) =~= ev);
}

/// What variables were before a command.
pub struct Saved {
    pub entries: Vec<(Vec<u8>, Option<Vec<u8>>)>,
}

pub open spec fn saved_views(v: Seq<(Vec<u8>, Option<Vec<u8>>)>) -> Seq<
    (Seq<u8>, Option<Seq<u8>>),
> {
    Seq::new(v.len(), |i: int| (v[i].0@, load::maybe(v[i].1)))
}

/// What is kept of the variables that a command sets.
pub open spec fn saved_of(
    vars: Seq<(Seq<u8>, Seq<u8>)>,
    env: Seq<(Seq<u8>, Seq<u8>)>,
) -> Seq<(Seq<u8>, Option<Seq<u8>>)>
    decreases env.len(),
{
    if env.len() == 0 {
        Seq::empty()
    } else {
        let front = saved_of(vars, env.drop_last());
        let name = env.last().0;
        if is_saved(front, name) {
            front
        } else {
            front.push((name, parser::var_value(vars, name)))
        }
    }
}

pub open spec fn is_saved(saved: Seq<(Seq<u8>, Option<Seq<u8>>)>, name: Seq<u8>) -> bool {
    exists|i: int| 0 <= i < saved.len() && (#[trigger] saved[i]).0 == name
}

/// The variables once what was kept has been put back.
pub open spec fn vars_back(
    vars: Seq<(Seq<u8>, Seq<u8>)>,
    saved: Seq<(Seq<u8>, Option<Seq<u8>>)>,
) -> Seq<(Seq<u8>, Seq<u8>)>
    decreases saved.len(),
{
    if saved.len() == 0 {
        vars
    } else {
        let v = vars_back(vars, saved.drop_last());
        match saved.last().1 {
            Some(x) => parser::vars_with(v, saved.last().0, x),
            None => parser::vars_without(v, saved.last().0),
        }
    }
}

/// Sets the variables of a command of the shell, and keeps what they were.
pub fn enter_env(vars: &mut Vars, env: &Vec<(Vec<u8>, Vec<u8>)>) -> (r: Saved)
    requires
        old(vars).wf(),
    ensures
        final(vars).wf(),
        final(vars)@ == vars_with_all(old(vars)@, load::pair_views(env@)),
        saved_views(r.entries@) == saved_of(old(vars)@, load::pair_views(env@)),
{
    let ghost v0 = vars@;
    let ghost ev = load::pair_views(env@);
    let mut out: Vec<(Vec<u8>, Option<Vec<u8>>)> = Vec::new();
    let mut i: usize = 0;
    assert(ev.take(0) =~= Seq::empty());
    assert(saved_views(out@) =~= Seq::empty());
    while i < env.len()
        invariant
            i <= env@.len(),
            ev == load::pair_views(env@),
            vars@ == v0,
            vars.wf(),
            *vars == *old(vars),
            saved_views(out@) == saved_of(v0, ev.take(i as int)),
        decreases env.len() - i,
    {
        let ghost o0 = saved_views(out@);
        assert(ev.take(i + 1).drop_last() =~= ev.take(i as int));
        assert(ev.take(i + 1).last() == (env@[i as int].0@, env@[i as int].1@));
        let name: &Vec<u8> = &env[i].0;
        let mut there: bool = false;
        let mut k: usize = 0;
        while k < out.len()
            invariant
                k <= out@.len(),
                o0 == saved_views(out@),
                there == exists|m: int| 0 <= m < k && (#[trigger] o0[m]).0 == name@,
            decreases out.len() - k,
        {
            assert(o0[k as int].0 == out@[k as int].0@);
            if bytes_eq(&out[k].0, name) {
                there = true;
            }
            k = k + 1;
        }
        assert(there == is_saved(o0, name@));
        if !there {
            let old_value: Option<Vec<u8>> = vars.vars_get(name);
            assert(load::maybe(old_value) == parser::var_value(v0, name@));
            let ghost kept = (name@, load::maybe(old_value));
            out.push((copy_of(name), old_value));
            assert(saved_views(out@) =~= o0.push(kept));
        }
        i = i + 1;
    }
    assert(ev.take(ev.len() as int) =~= ev);
    set_all(vars, env);
    Saved { entries: out }
}

/// Puts back what the variables were.
pub fn leave_env(vars: &mut Vars, saved: &Saved)
    requires
        old(vars).wf(),
    ensures
        final(vars).wf(),
        final(vars)@ == vars_back(old(vars)@, saved_views(saved.entries@)),
{
    let ghost v0 = vars@;
    let ghost sv = saved_views(saved.entries@);
    let mut i: usize = 0;
    assert(sv.take(0) =~= Seq::empty());
    while i < saved.entries.len()
        invariant
            i <= saved.entries@.len(),
            sv == saved_views(saved.entries@),
            vars.wf(),
            vars@ == vars_back(v0, sv.take(i as int)),
        decreases saved.entries.len() - i,
    {
        assert(sv.take(i + 1).drop_last() =~= sv.take(i as int));
        assert(sv.take(i + 1).last() == (
            saved.entries@[i as int].0@,
            load::maybe(saved.entries@[i as int].1),
        ));
        match &saved.entries[i].1 {
            Some(v) => vars.vars_set(&saved.entries[i].0, v),
            None => vars.vars_unset(&saved.entries[i].0),
        }
        i = i + 1;
    }
    assert(sv.take(sv.len() as int) =~= sv);
}

proof fn lemma_value_set(
    vars: Seq<(Seq<u8>, Seq<u8>)>,
    env: Seq<(Seq<u8>, Seq<u8>)>,
    name: Seq<u8>,
)
    requires
        forall|i: int| 0 <= i < env.len() ==> (#[trigger] env[i]).0 != name,
    ensures
        parser::var_value(vars_with_all(vars, env), name) == parser::var_value(vars, name),
    decreases env.len(),
{
    if env.len() > 0 {
        assert(env[env.len() - 1].0 != name);
        assert forall|i: int| 0 <= i < env.len() - 1 implies (#[trigger] env.drop_last()[i]).0
            != name by {
            assert(env[i].0 != name);
        }
        lemma_value_set(vars, env.drop_last(), name);
        parser::law_vars_set_get(
            vars_with_all(vars, env.drop_last()),
            env.last().0,
            env.last().1,
            name,
        );
    }
}

proof fn lemma_saved_of(
    vars: Seq<(Seq<u8>, Seq<u8>)>,
    env: Seq<(Seq<u8>, Seq<u8>)>,
    name: Seq<u8>,
)
    ensures
        is_saved(saved_of(vars, env), name) == exists|i: int|
            0 <= i < env.len() && (#[trigger] env[i]).0 == name,
        forall|i: int|
            0 <= i < saved_of(vars, env).len() ==> (#[trigger] saved_of(vars, env)[i]).1
                == parser::var_value(vars, saved_of(vars, env)[i].0),
    decreases env.len(),
{
    if env.len() > 0 {
        let most = env.drop_last();
        let front = saved_of(vars, most);
        let all = saved_of(vars, env);
        lemma_saved_of(vars, most, name);
        lemma_saved_of(vars, most, env.last().0);
        if exists|i: int| 0 <= i < env.len() && (#[trigger] env[i]).0 == name {
            let i = choose|i: int| 0 <= i < env.len() && (#[trigger] env[i]).0 == name;
            if i < most.len() {
                assert(most[i].0 == name);
                let k = choose|k: int| 0 <= k < front.len() && (#[trigger] front[k]).0 == name;
                assert(all[k] == front[k]);
            } else if is_saved(front, name) {
                assert(all == front);
            } else {
                assert(all[front.len() as int].0 == name);
            }
        }
        if is_saved(all, name) {
            let k = choose|k: int| 0 <= k < all.len() && (#[trigger] all[k]).0 == name;
            if k < front.len() {
                assert(front[k].0 == name);
                let i = choose|i: int| 0 <= i < most.len() && (#[trigger] most[i]).0 == name;
                assert(env[i].0 == name);
            } else {
                assert(env[env.len() - 1].0 == name);
            }
        }
    }
}

proof fn lemma_back(
    now: Seq<(Seq<u8>, Seq<u8>)>,
    vars: Seq<(Seq<u8>, Seq<u8>)>,
    saved: Seq<(Seq<u8>, Option<Seq<u8>>)>,
    name: Seq<u8>,
)
    requires
        parser::vars_distinct(now),
        forall|i: int|
            0 <= i < saved.len() ==> (#[trigger] saved[i]).1 == parser::var_value(
                vars,
                saved[i].0,
            ),
    ensures
        parser::vars_distinct(vars_back(now, saved)),
        parser::var_value(vars_back(now, saved), name) == (if is_saved(saved, name) {
            parser::var_value(vars, name)
        } else {
            parser::var_value(now, name)
        }),
    decreases saved.len(),
{
    if saved.len() > 0 {
        let most = saved.drop_last();
        let v = vars_back(now, most);
        assert forall|i: int| 0 <= i < most.len() implies (#[trigger] most[i]).1
            == parser::var_value(vars, most[i].0) by {
            assert(saved[i] == most[i]);
        }
        lemma_back(now, vars, most, name);
        let (key, kept) = saved.last();
        assert(saved[saved.len() - 1].1 == parser::var_value(vars, key));
        parser::lemma_distinct_with(v, key, kept);
        match kept {
            Some(x) => {
                parser::law_vars_set_get(v, key, x, name);
            },
            None => {
                parser::law_vars_unset_get(v, key, name);
            },
        }
        if key == name {
            assert(saved[saved.len() - 1].0 == name);
        }
        if is_saved(most, name) {
            let k = choose|k: int| 0 <= k < most.len() && (#[trigger] most[k]).0 == name;
            assert(saved[k].0 == name);
        } else if is_saved(saved, name) {
            let k = choose|k: int| 0 <= k < saved.len() && (#[trigger] saved[k]).0 == name;
            if k < most.len() {
                assert(most[k].0 == name);
            }
        }
    }
}

/// What is set in front of a command of the shell is gone after it: every
/// variable is what it was before.
pub proof fn law_env_is_restored(
    vars: Seq<(Seq<u8>, Seq<u8>)>,
    env: Seq<(Seq<u8>, Seq<u8>)>,
    name: Seq<u8>,
)
    requires
        parser::vars_distinct(vars),
    ensures
        parser::var_value(vars_back(vars_with_all(vars, env), saved_of(vars, env)), name)
            == parser::var_value(vars, name),
{
    lemma_saved_of(vars, env, name);
    lemma_distinct_with_all(vars, env);
    lemma_back(vars_with_all(vars, env), vars, saved_of(vars, env), name);
    if !is_saved(saved_of(vars, env), name) {
        lemma_value_set(vars, env, name);
    }
}

proof fn lemma_distinct_with_all(vars: Seq<(Seq<u8>, Seq<u8>)>, env: Seq<(Seq<u8>, Seq<u8>)>)
    requires
        parser::vars_distinct(vars),
    ensures
        parser::vars_distinct(vars_with_all(vars, env)),
    decreases env.len(),
{
    if env.len() > 0 {
        lemma_distinct_with_all(vars, env.drop_last());
        parser::lemma_distinct_with(
            vars_with_all(vars, env.drop_last()),
            env.last().0,
            Some(env.last().1),
        );
    }
}

// ── From a line to commands ──

/// What is said of a line that cannot be parsed. The status is then 2.
pub open spec fn parse_complaint(e: ParseError) -> Seq<u8> {
    match e {
        ParseError::MissingTarget(op) => bytes::lit("redirect: missing target after ")
            + parser::op_text_spec(op) + bytes::lit("\n"),
        ParseError::BadSubst => bytes::lit("sostituzione errata\n"),
        ParseError::PipeUnsupported => bytes::lit("pipe non supportata\n"),
        ParseError::EnvPrefix => bytes::lit("prefisso di variabile non supportato\n"),
    }
}

pub fn report_parse_error(e: ParseError) -> (r: Vec<u8>)
    ensures
        r@ == parse_complaint(e),
{
    let mut v: Vec<u8> = Vec::new();
    match e {
        ParseError::MissingTarget(op) => {
            push_str(&mut v, "redirect: missing target after ");
            let t: Vec<u8> = op_text(op);
            append_bytes(&mut v, &t);
            push_str(&mut v, "\n");
        },
        ParseError::BadSubst => push_str(&mut v, "sostituzione errata\n"),
        ParseError::PipeUnsupported => push_str(&mut v, "pipe non supportata\n"),
        ParseError::EnvPrefix => push_str(&mut v, "prefisso di variabile non supportato\n"),
    }
    assert(v@ =~= parse_complaint(e));
    v
}

/// A redirection of a parsed command, ready to be opened.
pub open spec fn redirect_from(r: parser::RedirView) -> RedirectView {
    RedirectView {
        slot: r.slot,
        append: r.append,
        dup_to_1: r.dup_to_1,
        target: r.target,
        heredoc: false,
        body: None,
    }
}

/// A parsed command whose words stand, ready to run.
pub open spec fn stage_from(c: parser::CommandView, argv: Seq<Seq<u8>>) -> pipeline::StageView {
    pipeline::StageView {
        argv,
        env: match c.assign {
            Some(kv) => seq![kv],
            None => Seq::empty(),
        },
        redirs: Seq::new(c.redirs.len(), |i: int| redirect_from(c.redirs[i])),
        bg: c.bg,
    }
}

fn to_redirect(r: &Redir) -> (q: Redirect)
    ensures
        q@ == redirect_from(r@),
{
    Redirect {
        slot: r.slot,
        append: r.append,
        dup_to_1: r.dup_to_1,
        target: copy_of(&r.target),
        heredoc: false,
        body: None,
    }
}

/// A parsed command with its arguments, ready to run.
pub fn to_stage(c: &Command, argv: Vec<Vec<u8>>) -> (r: Stage)
    ensures
        r@ == stage_from(c@, bytes::views(argv@)),
{
    let ghost cv = c@;
    let mut redirs: Vec<Redirect> = Vec::new();
    let mut i: usize = 0;
    while i < c.redirs.len()
        invariant
            i <= c.redirs@.len(),
            cv == c@,
            redirs@.len() == i,
            forall|k: int| 0 <= k < i ==> (#[trigger] redirs@[k])@ == redirect_from(cv.redirs[k]),
        decreases c.redirs.len() - i,
    {
        assert(cv.redirs[i as int] == c.redirs@[i as int]@);
        redirs.push(to_redirect(&c.redirs[i]));
        i = i + 1;
    }
    let mut env: Vec<(Vec<u8>, Vec<u8>)> = Vec::new();
    if let Some((n, v)) = &c.assign {
        env.push((copy_of(n), copy_of(v)));
        assert(load::pair_views(env@) =~= seq![(n@, v@)]);
    } else {
        assert(load::pair_views(env@) =~= Seq::empty());
    }
    let ghost av = bytes::views(argv@);
    let r = Stage { argv, env, redirs, bg: c.bg };
    assert(r@ =~= stage_from(cv, av));
    r
}

pub open spec fn link_of(c: Conn) -> Link {
    match c {
        Conn::Always => Link::Always,
        Conn::And => Link::And,
        Conn::Or => Link::Or,
    }
}

pub fn to_links(cons: &Vec<Conn>) -> (r: Vec<Link>)
    ensures
        r@ == Seq::new(cons@.len(), |i: int| link_of(cons@[i])),
{
    let mut r: Vec<Link> = Vec::new();
    let mut i: usize = 0;
    while i < cons.len()
        invariant
            i <= cons@.len(),
            r@.len() == i,
            forall|k: int| 0 <= k < i ==> #[trigger] r@[k] == link_of(cons@[k]),
        decreases cons.len() - i,
    {
        r.push(
            match cons[i] {
                Conn::Always => Link::Always,
                Conn::And => Link::And,
                Conn::Or => Link::Or,
            },
        );
        i = i + 1;
    }
    assert(r@ =~= Seq::new(cons@.len(), |i: int| link_of(cons@[i])));
    r
}

// ── source ──

/// How deep scripts may be read by one another.
pub const SOURCE_MAX_DEPTH: u8 = 4;

/// What is known of the file of a script.
#[derive(Clone, Copy, PartialEq, Eq, Debug, Structural)]
pub struct FileFact {
    pub is_file: bool,
    pub size: u64,
}

/// What `source` does.
pub enum Source {
    /// It fails with the code 1, and this is said.
    Failed(Vec<u8>),
    /// The file is to be asked about.
    Ask(Vec<u8>),
    /// There is nothing in the file: it succeeds.
    Nothing,
    /// The file is to be read.
    Read,
    /// These lines are run.
    Run(ScriptSrc),
}

pub open spec fn cannot_source(name: Seq<u8>) -> Seq<u8> {
    bytes::lit("source: cannot load ") + name + bytes::lit("\n")
}

fn report_source(name: &[u8]) -> (r: Vec<u8>)
    ensures
        r@ == cannot_source(name@),
{
    let mut v: Vec<u8> = Vec::new();
    push_str(&mut v, "source: cannot load ");
    append_bytes(&mut v, name);
    push_str(&mut v, "\n");
    assert(v@ =~= cannot_source(name@));
    v
}

/// Starts `source`: scripts may be read by one another four deep.
pub fn cmd_source(args: &Vec<Vec<u8>>, depth: u8, dir: &Cwd) -> (r: Source)
    ensures
        if args@.len() < 2 {
            r matches Source::Failed(t) && t@ == bytes::lit("source: usage: source <file>\n")
        } else if depth >= SOURCE_MAX_DEPTH {
            r matches Source::Failed(t) && t@ == bytes::lit("source: nesting too deep\n")
        } else {
            r matches Source::Ask(p) && p@ == cwd::resolved(dir@, args@[1]@)
        },
{
    let mut v: Vec<u8> = Vec::new();
    if args.len() < 2 {
        push_str(&mut v, "source: usage: source <file>\n");
        assert(v@ =~= bytes::lit("source: usage: source <file>\n"));
        return Source::Failed(v);
    }
    if depth >= SOURCE_MAX_DEPTH {
        push_str(&mut v, "source: nesting too deep\n");
        assert(v@ =~= bytes::lit("source: nesting too deep\n"));
        return Source::Failed(v);
    }
    Source::Ask(dir.resolve(&args[1]))
}

/// Goes on with what is known of the file. Only a file is run.
pub fn source_asked(name: &[u8], fact: Option<FileFact>) -> (r: Source)
    ensures
        match fact {
            Some(f) => if !f.is_file {
                r matches Source::Failed(t) && t@ == cannot_source(name@)
            } else if f.size == 0 {
                r is Nothing
            } else {
                r is Read
            },
            None => r matches Source::Failed(t) && t@ == cannot_source(name@),
        },
{
    match fact {
        Some(f) => {
            if !f.is_file {
                Source::Failed(report_source(name))
            } else if f.size == 0 {
                Source::Nothing
            } else {
                Source::Read
            }
        },
        None => Source::Failed(report_source(name)),
    }
}

/// Goes on with what was read from the file: the lines to run, if it is text.
pub fn source_read(name: &[u8], data: &Option<Vec<u8>>) -> (r: Source)
    ensures
        match *data {
            None => r matches Source::Failed(t) && t@ == cannot_source(name@),
            Some(d) => if vstd::utf8::valid_utf8(d@) {
                &&& r matches Source::Run(s)
                &&& s.wf()
                &&& s.pos == 0
                &&& bytes::views(s.lines@) == script_lines(d@)
            } else {
                r matches Source::Failed(t) && t@ == bytes::lit("source: not text\n")
            },
        },
{
    match data {
        None => Source::Failed(report_source(name)),
        Some(d) => {
            if !is_utf8(d) {
                let mut v: Vec<u8> = Vec::new();
                push_str(&mut v, "source: not text\n");
                assert(v@ =~= bytes::lit("source: not text\n"));
                return Source::Failed(v);
            }
            Source::Run(ScriptSrc::new(d))
        },
    }
}

/// What a line came to: a status, or the end of the script.
#[derive(Clone, Copy, PartialEq, Eq, Debug, Structural)]
pub enum LineOutcome {
    Continue(i64),
    Exit(i64),
}

/// The status after a line, and whether the script goes on. A line without
/// commands leaves the status.
pub fn after_line(status: i64, o: Option<LineOutcome>) -> (r: (i64, bool))
    ensures
        r == (match o {
            None => (status, true),
            Some(LineOutcome::Continue(s)) => (s, true),
            Some(LineOutcome::Exit(s)) => (s, false),
        }),
{
    match o {
        None => (status, true),
        Some(LineOutcome::Continue(s)) => (s, true),
        Some(LineOutcome::Exit(s)) => (s, false),
    }
}

/// The prompt: the current directory, except at the root.
pub fn prompt(dir: &Cwd) -> (r: Vec<u8>)
    ensures
        r@ == (if dir@ == seq![47u8] {
            bytes::lit("$ ")
        } else {
            dir@ + bytes::lit("$ ")
        }),
{
    let d: Vec<u8> = dir.cwd_get();
    let root: [u8; 1] = [47];
    assert(root@ =~= seq![47u8]);
    let mut v: Vec<u8> = Vec::new();
    if !bytes_eq(&d, &root) {
        append_bytes(&mut v, &d);
    }
    push_str(&mut v, "$ ");
    assert(v@ =~= if dir@ == seq![47u8] {
        bytes::lit("$ ")
    } else {
        dir@ + bytes::lit("$ ")
    });
    v
}

} // verus!
