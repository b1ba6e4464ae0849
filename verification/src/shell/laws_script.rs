//! Lines of scripts, the order in which commands run, and what redirections do.
use vstd::prelude::*;

use super::cwd;
use super::exec;
use super::exec::{Link, Next};
use super::pipeline;
use super::redirect;
use super::redirect::{NeedView, RedirectView};
use crate::bytes;
use crate::fs::codes::{O_APPEND, O_CREAT, O_TRUNC};

verus! {

// ── Lines ──

/// Lines put together, each but the last ended by a line feed, with a carriage
/// return before it or not.
pub open spec fn put_together(lines: Seq<Seq<u8>>, crs: Seq<bool>) -> Seq<u8>
    decreases lines.len(),
{
    if lines.len() == 0 {
        Seq::empty()
    } else if lines.len() == 1 {
        with_return(lines[0], crs[0])
    } else {
        with_return(lines[0], crs[0]) + seq![10u8] + put_together(
            lines.skip(1),
            crs.skip(1),
        )
    }
}

/// A line, with a carriage return at its end or not.
pub open spec fn with_return(line: Seq<u8>, ret: bool) -> Seq<u8> {
    if ret {
        line.push(13)
    } else {
        line
    }
}

/// A line as a text can have it.
pub open spec fn one_line(line: Seq<u8>) -> bool {
    !line.contains(10) && (line.len() > 0 ==> line.last() != 13)
}

proof fn lemma_with_return(line: Seq<u8>, ret: bool)
    requires
        one_line(line),
    ensures
        !with_return(line, ret).contains(10),
        exec::chomped(with_return(line, ret)) == line,
{
    let w = with_return(line, ret);
    if w.contains(10) {
        let k = choose|k: int| 0 <= k < w.len() && w[k] == 10;
        if k < line.len() {
            assert(line[k] == 10);
        }
    }
    if ret {
        assert(w.drop_last() =~= line);
    }
}

/// A script gives back the lines that it was put together of, whichever of the
/// two line ends was used.
pub proof fn law_script_gives_its_lines(lines: Seq<Seq<u8>>, crs: Seq<bool>)
    requires
        lines.len() > 0,
        crs.len() == lines.len(),
        forall|i: int| 0 <= i < lines.len() ==> one_line(#[trigger] lines[i]),
    ensures
        exec::script_lines(put_together(lines, crs)) == lines,
    decreases lines.len(),
{
    let first = with_return(lines[0], crs[0]);
    assert(one_line(lines[0]));
    lemma_with_return(lines[0], crs[0]);
    let s = put_together(lines, crs);
    assert forall|k: int| 0 <= k < first.len() implies s[k] != 10 by {
        assert(s[k] == first[k]);
        assert(first.contains(first[k]));
    }
    bytes::lemma_index_from_unique(s, 0, 10, first.len() as int);
    if lines.len() == 1 {
        assert(cwd::split_on(s, 10) =~= seq![first]);
        assert(exec::script_lines(s) =~= lines);
    } else {
        let rest = lines.skip(1);
        let rets = crs.skip(1);
        assert forall|i: int| 0 <= i < rest.len() implies one_line(#[trigger] rest[i]) by {
            assert(rest[i] == lines[i + 1]);
        }
        law_script_gives_its_lines(rest, rets);
        assert(s.take(first.len() as int) =~= first);
        assert(s.skip(first.len() as int + 1) =~= put_together(rest, rets));
        let parts = cwd::split_on(s, 10);
        let tail = cwd::split_on(put_together(rest, rets), 10);
        assert(parts =~= seq![first] + tail);
        let r = exec::script_lines(s);
        let t = exec::script_lines(put_together(rest, rets));
        assert(t == rest);
        assert forall|i: int| 0 <= i < lines.len() implies #[trigger] r[i] == lines[i] by {
            if i > 0 {
                assert(parts[i] == tail[i - 1]);
                assert(t[i - 1] == exec::chomped(tail[i - 1]));
                assert(rest[i - 1] == lines[i]);
            }
        }
        assert(r =~= lines);
    }
}

/// Lines, each ended by a line feed.
pub open spec fn line_by_line(lines: Seq<Seq<u8>>) -> Seq<u8>
    decreases lines.len(),
{
    if lines.len() == 0 {
        Seq::empty()
    } else {
        lines[0].push(10) + line_by_line(lines.skip(1))
    }
}

/// A here-document is all the lines up to the first one that is its end, and the
/// lines go on behind that one.
pub proof fn law_heredoc_is_what_stands_before_its_end(
    front: Seq<Seq<u8>>,
    body: Seq<Seq<u8>>,
    delim: Seq<u8>,
    rest: Seq<Seq<u8>>,
)
    requires
        forall|i: int| 0 <= i < body.len() ==> #[trigger] body[i] != delim,
    ensures
        exec::heredoc(front + body + seq![delim] + rest, front.len() as int, delim) == Some(
            (line_by_line(body), (front.len() + body.len() + 1) as int),
        ),
        exec::heredoc(front + body, front.len() as int, delim) is None,
    decreases body.len(),
{
    let all = front + body + seq![delim] + rest;
    let pos = front.len() as int;
    if body.len() == 0 {
        assert(all[pos] == delim);
    } else {
        let b = body[0];
        let more = body.skip(1);
        assert forall|i: int| 0 <= i < more.len() implies #[trigger] more[i] != delim by {
            assert(more[i] == body[i + 1]);
        }
        law_heredoc_is_what_stands_before_its_end(front.push(b), more, delim, rest);
        assert(all[pos] == b);
        assert(b != delim);
        assert(front.push(b) + more + seq![delim] + rest =~= all);
        assert(front.push(b) + more =~= front + body);
        assert(b + seq![10u8] + line_by_line(more) =~= line_by_line(body));
    }
}

// ── Order ──

/// Where a command can start to run: at the start of a pipeline.
pub open spec fn starts(links: Seq<Link>, i: int) -> bool {
    i == 0 || links[i - 1] != Link::Pipe
}

proof fn lemma_group_is_whole(links: Seq<Link>, n: int, i: int)
    requires
        0 <= i < n,
        links.len() == n - 1,
    ensures
        i <= exec::group_end(links, n, i) < n,
        forall|k: int| i <= k < exec::group_end(links, n, i) ==> #[trigger] links[k] == Link::Pipe,
        exec::group_end(links, n, i) + 1 < n ==> links[exec::group_end(links, n, i)] != Link::Pipe,
    decreases n - i,
{
    if i + 1 < n && links[i] == Link::Pipe {
        lemma_group_is_whole(links, n, i + 1);
    }
}

/// Whether the connector in front of a command lets it run.
pub open spec fn let_run(links: Seq<Link>, i: int, status: i64) -> bool {
    i == 0 || (links[i - 1] == Link::And ==> status == 0) && (links[i - 1] == Link::Or ==> status
        != 0)
}

proof fn lemma_next_start(links: Seq<Link>, n: int, at: int, status: i64)
    requires
        0 <= at <= n,
        links.len() == n - 1,
        at < n ==> starts(links, at),
    ensures
        ({
            let i = exec::next_run(links, n, at, status);
            &&& at <= i <= n
            &&& i < n ==> starts(links, i) && let_run(links, i, status)
            &&& forall|k: int|
                at <= k < i && #[trigger] starts(links, k) ==> !let_run(links, k, status)
        }),
    decreases n - at,
{
    if at < n && !exec::goes(links, at, status) {
        lemma_group_is_whole(links, n, at);
        let j = exec::group_end(links, n, at) + 1;
        lemma_next_start(links, n, j, status);
        let i = exec::next_run(links, n, at, status);
        assert forall|k: int| at <= k < i && #[trigger] starts(links, k) implies !let_run(
            links,
            k,
            status,
        ) by {
            if at < k < j {
                assert(links[k - 1] == Link::Pipe);
            }
        }
    }
}

/// Pipelines run as a whole or not at all: what runs next is the first pipeline
/// that its connector lets run, from its first command to its last. Those that
/// are passed over were not to run.
pub proof fn law_pipelines_run_whole(
    stages: Seq<pipeline::StageView>,
    links: Seq<Link>,
    at: int,
    status: i64,
)
    requires
        0 <= at <= stages.len(),
        0 < stages.len() <= usize::MAX,
        links.len() == stages.len() - 1,
        at < stages.len() ==> starts(links, at),
    ensures
        ({
            let n = stages.len() as int;
            let next = exec::next_of(stages, links, at, status);
            let (from, to) = match next {
                Next::Pipeline { from, to } => (from as int, to as int),
                Next::Single(i) => (i as int, i as int),
                Next::Done => (n, n),
            };
            &&& forall|k: int|
                at <= k < from && #[trigger] starts(links, k) ==> !let_run(links, k, status)
            &&& next !is Done ==> {
                &&& at <= from <= to < n
                &&& starts(links, from)
                &&& let_run(links, from, status)
                &&& forall|k: int| from <= k < to ==> #[trigger] links[k] == Link::Pipe
                &&& to + 1 < n ==> starts(links, to + 1)
            }
        }),
{
    let n = stages.len() as int;
    lemma_next_start(links, n, at, status);
    let i = exec::next_run(links, n, at, status);
    if i < n {
        lemma_group_is_whole(links, n, i);
    }
}

// ── Redirections ──

/// A file that is read from is not created; one that is written to is, and it is
/// emptied unless it is written on.
pub proof fn law_targets_are_opened_for_their_use(slot: u8, append: bool)
    ensures
        ({
            let f = redirect::open_flags(slot, append);
            &&& (f & O_CREAT != 0) == (slot != 0)
            &&& (f & O_APPEND != 0) == (slot != 0 && append)
            &&& (f & O_TRUNC != 0) == (slot != 0 && !append)
        }),
{
    assert(0u32 & 0x200 == 0 && 0u32 & 0x8 == 0 && 0u32 & 0x400 == 0 && (0x200u32 | 0x8) & 0x200
        != 0 && (0x200u32 | 0x8) & 0x8 != 0 && (0x200u32 | 0x8) & 0x400 == 0 && (0x200u32 | 0x400)
        & 0x200 != 0 && (0x200u32 | 0x400) & 0x8 == 0 && (0x200u32 | 0x400) & 0x400 != 0)
        by (bit_vector);
}

/// A redirection turns its own stream to the file that was opened for it and
/// leaves the others; `2>&1` turns the errors to where the output goes, and
/// opens nothing.
pub proof fn law_redirection_turns_its_stream(
    fds: Seq<i64>,
    r: RedirectView,
    fd: i64,
    redirs: Seq<RedirectView>,
    at: int,
    dir: Seq<u8>,
)
    requires
        fds.len() == 3,
        r.slot < 3,
        !r.heredoc,
        0 <= at < redirs.len(),
        redirs[at] == r,
    ensures
        ({
            let after = redirect::fds_after(fds, r, Some(fd));
            &&& after.len() == 3
            &&& !r.dup_to_1 ==> after[r.slot as int] == fd && forall|k: int|
                0 <= k < 3 && k != r.slot ==> #[trigger] after[k] == fds[k]
            &&& r.dup_to_1 ==> after[2] == fds[1] && after[1] == fds[1] && after[0] == fds[0]
        }),
        r.dup_to_1 ==> redirect::need_of(redirs, at, dir) is Nothing,
        !r.dup_to_1 ==> (redirect::need_of(redirs, at, dir) matches NeedView::Open { path, flags }
            && path == cwd::resolved(dir, r.target)),
{
}

} // verus!
