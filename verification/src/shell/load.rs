//! Starting programs: where a program is looked for, what its environment is,
//! and what a script runs.
use vstd::prelude::*;
use vstd::slice::slice_subrange;

use super::cwd;
use super::cwd::{split_bytes, Cwd};
use super::parser;
use super::parser::Vars;
use crate::bytes;
use crate::bytes::{append_bytes, copy_of, find_byte, has_byte, push_str, text_or_empty};
use crate::text;

verus! {

/// A byte string that may be missing, as a value.
pub open spec fn maybe(b: Option<Vec<u8>>) -> Option<Seq<u8>> {
    match b {
        Some(v) => Some(v@),
        None => None,
    }
}

// ── Where a program is looked for ──

/// Where programs are looked for by default.
pub open spec fn default_path() -> Seq<u8> {
    bytes::lit("/fat/bin")
}

/// A name in a directory.
pub open spec fn in_dir(dir: Seq<u8>, name: Seq<u8>) -> Seq<u8> {
    if dir.len() > 0 && dir.last() == 47 {
        dir + name
    } else {
        dir + seq![47u8] + name
    }
}

/// The files that may be meant by a name: in each directory the name itself,
/// then the name with `.bin`.
pub open spec fn candidates_in(dirs: Seq<Seq<u8>>, name: Seq<u8>) -> Seq<Seq<u8>>
    decreases dirs.len(),
{
    if dirs.len() == 0 {
        Seq::empty()
    } else {
        candidates_in(dirs.drop_last(), name) + if dirs.last().len() == 0 {
            Seq::empty()
        } else {
            seq![in_dir(dirs.last(), name), in_dir(dirs.last(), name) + bytes::lit(".bin")]
        }
    }
}

/// The directories that programs are looked for in.
pub open spec fn search_dirs(path: Option<Seq<u8>>) -> Seq<Seq<u8>> {
    cwd::split_on(
        match path {
            Some(p) => p,
            None => default_path(),
        },
        58,
    )
}

/// Where a program may be.
pub enum Lookup {
    /// The name holds a `/`: it is this file.
    At(Vec<u8>),
    /// The first of these that is a regular file.
    Among(Vec<Vec<u8>>),
}

/// Where the program `name` may be.
pub fn lookup(name: &[u8], vars: &Vars, dir: &Cwd) -> (r: Lookup)
    requires
        vars.wf(),
    ensures
        if name@.contains(47u8) {
            r matches Lookup::At(p) && p@ == cwd::resolved(dir@, name@)
        } else {
            r matches Lookup::Among(c) && bytes::views(c@) == candidates_in(
                search_dirs(parser::var_value(vars@, bytes::lit("PATH"))),
                name@,
            )
        },
{
    broadcast use bytes::lemma_views_push;

    if has_byte(name, 47) {
        return Lookup::At(dir.resolve(name));
    }
    let path: Option<Vec<u8>> = vars.vars_get("PATH".as_bytes());
    let dirs: Vec<Vec<u8>> = match path {
        Some(p) => split_bytes(&p, 58),
        None => split_bytes("/fat/bin".as_bytes(), 58),
    };
    let ghost ds = bytes::views(dirs@);
    let mut out: Vec<Vec<u8>> = Vec::new();
    let mut i: usize = 0;
    assert(ds.take(0) =~= Seq::empty());
    assert(bytes::views(out@) =~= Seq::empty());
    while i < dirs.len()
        invariant
            i <= dirs@.len(),
            ds == bytes::views(dirs@),
            bytes::views(out@) == candidates_in(ds.take(i as int), name@),
        decreases dirs.len() - i,
    {
        broadcast use bytes::lemma_views_push;

        let ghost o0 = bytes::views(out@);
        assert(ds.take(i + 1).drop_last() =~= ds.take(i as int));
        assert(ds.take(i + 1).last() == dirs@[i as int]@);
        let d: &Vec<u8> = &dirs[i];
        if d.len() > 0 {
            let mut cand: Vec<u8> = copy_of(d);
            if cand[cand.len() - 1] != 47 {
                cand.push(47);
            }
            append_bytes(&mut cand, name);
            assert(cand@ =~= in_dir(d@, name@));
            let mut ext: Vec<u8> = copy_of(&cand);
            push_str(&mut ext, ".bin");
            out.push(cand);
            out.push(ext);
            assert(bytes::views(out@) =~= o0 + seq![
                in_dir(d@, name@),
                in_dir(d@, name@) + bytes::lit(".bin"),
            ]);
        } else {
            assert(o0 + Seq::<Seq<u8>>::empty() =~= o0);
        }
        i = i + 1;
    }
    assert(ds.take(ds.len() as int) =~= ds);
    Lookup::Among(out)
}

/// Where the first `true` stands, from `i` on.
pub open spec fn first_true(v: Seq<bool>, i: int) -> int
    decreases v.len() - i,
{
    if i < 0 || i >= v.len() || v[i] {
        i
    } else {
        first_true(v, i + 1)
    }
}

/// The program that a name means: `regular` says which of the candidates, asked
/// in order, are regular files. Those after the first need not be asked.
pub fn resolve_prog(found: Lookup, regular: &Vec<bool>) -> (r: Option<Vec<u8>>)
    ensures
        maybe(r) == (match found {
            Lookup::At(p) => Some(p@),
            Lookup::Among(c) => {
                let k = first_true(regular@, 0);
                if k < regular@.len() && k < c@.len() {
                    Some(c@[k]@)
                } else {
                    None
                }
            },
        }),
{
    match found {
        Lookup::At(p) => Some(p),
        Lookup::Among(c) => {
            let mut i: usize = 0;
            while i < regular.len() && !regular[i]
                invariant
                    i <= regular@.len(),
                    first_true(regular@, i as int) == first_true(regular@, 0),
                decreases regular.len() - i,
            {
                i = i + 1;
            }
            if i < regular.len() && i < c.len() {
                Some(copy_of(&c[i]))
            } else {
                None
            }
        },
    }
}

// ── Environment ──

pub open spec fn pair_views(v: Seq<(Vec<u8>, Vec<u8>)>) -> Seq<(Seq<u8>, Seq<u8>)> {
    Seq::new(v.len(), |i: int| (v[i].0@, v[i].1@))
}

/// An environment with a variable more, unless it has one of that name.
pub open spec fn env_with(env: Seq<(Seq<u8>, Seq<u8>)>, kv: (Seq<u8>, Seq<u8>)) -> Seq<
    (Seq<u8>, Seq<u8>),
> {
    if parser::var_value(env, kv.0) is Some {
        env
    } else {
        env.push(kv)
    }
}

pub open spec fn env_with_all(
    env: Seq<(Seq<u8>, Seq<u8>)>,
    more: Seq<(Seq<u8>, Seq<u8>)>,
) -> Seq<(Seq<u8>, Seq<u8>)>
    decreases more.len(),
{
    if more.len() == 0 {
        env
    } else {
        env_with(env_with_all(env, more.drop_last()), more.last())
    }
}

/// The environment of a program: what is set in front of the command, the last
/// of each name; then the variables of the shell; then the current directory.
pub open spec fn environment(
    extra: Seq<(Seq<u8>, Seq<u8>)>,
    vars: Seq<(Seq<u8>, Seq<u8>)>,
    dir: Seq<u8>,
) -> Seq<(Seq<u8>, Seq<u8>)> {
    env_with(
        env_with_all(env_with_all(Seq::empty(), extra.reverse()), vars),
        (bytes::lit("PWD"), dir),
    )
}

proof fn lemma_index_found(env: Seq<(Seq<u8>, Seq<u8>)>, name: Seq<u8>, i: int)
    requires
        0 <= i < env.len(),
        env[i].0 == name,
        forall|k: int| 0 <= k < i ==> (#[trigger] env[k]).0 != name,
    ensures
        parser::var_index(env, name) == i,
    decreases i,
{
    if i > 0 {
        assert(env[0].0 != name);
        assert forall|k: int| 0 <= k < i - 1 implies (#[trigger] env.skip(1)[k]).0 != name by {
            assert(env[k + 1].0 != name);
        }
        lemma_index_found(env.skip(1), name, i - 1);
    }
}

proof fn lemma_index_none(env: Seq<(Seq<u8>, Seq<u8>)>, name: Seq<u8>)
    requires
        forall|k: int| 0 <= k < env.len() ==> (#[trigger] env[k]).0 != name,
    ensures
        parser::var_index(env, name) == env.len(),
    decreases env.len(),
{
    if env.len() > 0 {
        assert(env[0].0 != name);
        assert forall|k: int| 0 <= k < env.len() - 1 implies (#[trigger] env.skip(1)[k]).0
            != name by {
            assert(env[k + 1].0 != name);
        }
        lemma_index_none(env.skip(1), name);
    }
}

/// Adds a variable, unless there is one of that name.
fn add_var(env: &mut Vec<(Vec<u8>, Vec<u8>)>, name: &[u8], value: &[u8])
    ensures
        pair_views(final(env)@) == env_with(pair_views(old(env)@), (name@, value@)),
{
    let ghost e0 = pair_views(env@);
    let mut i: usize = 0;
    while i < env.len()
        invariant
            i <= env@.len(),
            e0 == pair_views(env@),
            e0 == pair_views(old(env)@),
            forall|k: int| 0 <= k < i ==> (#[trigger] e0[k]).0 != name@,
        decreases env.len() - i,
    {
        assert(e0[i as int].0 == env@[i as int].0@);
        if bytes::bytes_eq(&env[i].0, name) {
            proof {
                lemma_index_found(e0, name@, i as int);
            }
            return ;
        }
        i = i + 1;
    }
    proof {
        lemma_index_none(e0, name@);
    }
    env.push((copy_of(name), copy_of(value)));
    assert(pair_views(env@) =~= e0.push((name@, value@)));
}

/// The environment of a program.
pub fn child_env(extra: &Vec<(Vec<u8>, Vec<u8>)>, vars: &Vars, dir: &Cwd) -> (r: Vec<
    (Vec<u8>, Vec<u8>),
>)
    ensures
        pair_views(r@) == environment(pair_views(extra@), vars@, dir@),
{
    let ghost ex = pair_views(extra@).reverse();
    let mut env: Vec<(Vec<u8>, Vec<u8>)> = Vec::new();
    let mut i: usize = extra.len();
    assert(ex.take(0) =~= Seq::empty());
    assert(pair_views(env@) =~= Seq::empty());
    while i > 0
        invariant
            i <= extra@.len(),
            ex == pair_views(extra@).reverse(),
            pair_views(env@) == env_with_all(Seq::empty(), ex.take(extra@.len() - i)),
        decreases i,
    {
        i = i - 1;
        let n = Ghost(extra@.len() - i);
        assert(ex.take(n@).drop_last() =~= ex.take(n@ - 1));
        assert(ex.take(n@).last() == (extra@[i as int].0@, extra@[i as int].1@));
        add_var(&mut env, &extra[i].0, &extra[i].1);
    }
    assert(ex.take(extra@.len() as int) =~= ex);
    let ghost e1 = pair_views(env@);
    let list: Vec<(Vec<u8>, Vec<u8>)> = vars.vars_list();
    assert(pair_views(list@) =~= vars@);
    let mut j: usize = 0;
    assert(vars@.take(0) =~= Seq::empty());
    while j < list.len()
        invariant
            j <= list@.len(),
            pair_views(list@) == vars@,
            list@.len() == vars@.len(),
            pair_views(env@) == env_with_all(e1, vars@.take(j as int)),
        decreases list.len() - j,
    {
        assert(vars@.take(j + 1).drop_last() =~= vars@.take(j as int));
        assert(vars@.take(j + 1).last() == pair_views(list@)[j as int]);
        add_var(&mut env, &list[j].0, &list[j].1);
        j = j + 1;
    }
    assert(vars@.take(vars@.len() as int) =~= vars@);
    let d: Vec<u8> = dir.cwd_get();
    add_var(&mut env, "PWD".as_bytes(), &d);
    env
}

proof fn lemma_env_with(env: Seq<(Seq<u8>, Seq<u8>)>, kv: (Seq<u8>, Seq<u8>), name: Seq<u8>)
    ensures
        parser::var_value(env_with(env, kv), name) == (if parser::var_value(env, name) is Some {
            parser::var_value(env, name)
        } else if kv.0 == name {
            Some(kv.1)
        } else {
            None
        }),
{
    let n = env_with(env, kv);
    lemma_index_split(env, name);
    let i = parser::var_index(env, name);
    if i < env.len() {
        assert(n[i] == env[i]);
        assert forall|k: int| 0 <= k < i implies (#[trigger] n[k]).0 != name by {
            assert(env[k].0 != name);
        }
        lemma_index_found(n, name, i);
    } else if kv.0 == name {
        assert(n =~= env.push(kv));
        assert forall|k: int| 0 <= k < env.len() implies (#[trigger] n[k]).0 != name by {
            assert(env[k].0 != name);
        }
        lemma_index_found(n, name, env.len() as int);
    } else {
        assert forall|k: int| 0 <= k < n.len() implies (#[trigger] n[k]).0 != name by {
            if k < env.len() {
                assert(env[k].0 != name);
            }
        }
        lemma_index_none(n, name);
    }
}

proof fn lemma_index_split(env: Seq<(Seq<u8>, Seq<u8>)>, name: Seq<u8>)
    ensures
        0 <= parser::var_index(env, name) <= env.len(),
        forall|k: int|
            0 <= k < parser::var_index(env, name) ==> (#[trigger] env[k]).0 != name,
        parser::var_index(env, name) < env.len() ==> env[parser::var_index(env, name)].0 == name,
    decreases env.len(),
{
    if env.len() > 0 && env[0].0 != name {
        lemma_index_split(env.skip(1), name);
        let i = parser::var_index(env, name);
        assert forall|k: int| 0 <= k < i implies (#[trigger] env[k]).0 != name by {
            if k > 0 {
                assert(env.skip(1)[k - 1] == env[k]);
            }
        }
        if i < env.len() {
            assert(env.skip(1)[i - 1] == env[i]);
        }
    }
}

proof fn lemma_env_with_all(
    env: Seq<(Seq<u8>, Seq<u8>)>,
    more: Seq<(Seq<u8>, Seq<u8>)>,
    name: Seq<u8>,
)
    ensures
        parser::var_value(env_with_all(env, more), name) == (if parser::var_value(env, name) is Some {
            parser::var_value(env, name)
        } else {
            parser::var_value(more, name)
        }),
    decreases more.len(),
{
    if more.len() == 0 {
        lemma_index_none(more, name);
    } else {
        let most = more.drop_last();
        lemma_env_with_all(env, most, name);
        lemma_env_with(env_with_all(env, most), more.last(), name);
        lemma_env_with(most, more.last(), name);
        if parser::var_value(most, more.last().0) is None {
            assert(env_with(most, more.last()) =~= more);
        } else {
            // The name of the last is there already: it changes nothing.
            lemma_index_split(most, name);
            let i = parser::var_index(most, name);
            if i < most.len() {
                assert(more[i] == most[i]);
                assert forall|k: int| 0 <= k < i implies (#[trigger] more[k]).0 != name by {
                    assert(most[k].0 != name);
                }
                lemma_index_found(more, name, i);
            } else {
                assert forall|k: int| 0 <= k < more.len() implies (#[trigger] more[k]).0 != name by {
                    if k < most.len() {
                        assert(most[k].0 != name);
                    }
                }
                lemma_index_none(more, name);
            }
        }
    }
}

/// What a program finds in its environment: the value set last in front of the
/// command, else the shell's, else, for `PWD`, the current directory.
pub proof fn law_environment_precedence(
    extra: Seq<(Seq<u8>, Seq<u8>)>,
    vars: Seq<(Seq<u8>, Seq<u8>)>,
    dir: Seq<u8>,
    name: Seq<u8>,
)
    ensures
        ({
            let set = parser::var_value(extra.reverse(), name);
            let kept = parser::var_value(vars, name);
            parser::var_value(environment(extra, vars, dir), name) == (if set is Some {
                set
            } else if kept is Some {
                kept
            } else if name == bytes::lit("PWD") {
                Some(dir)
            } else {
                None
            })
        }),
{
    let none = Seq::<(Seq<u8>, Seq<u8>)>::empty();
    lemma_env_with_all(none, extra.reverse(), name);
    lemma_index_none(none, name);
    let e1 = env_with_all(none, extra.reverse());
    lemma_env_with_all(e1, vars, name);
    lemma_env_with(env_with_all(e1, vars), (bytes::lit("PWD"), dir), name);
}

// ── Scripts ──

/// How many scripts may be run by one another.
pub const SHEBANG_MAX_DEPTH: u8 = 4;

/// The first line of a script, without the `#!`.
pub open spec fn script_line(img: Seq<u8>) -> Option<Seq<u8>> {
    if img.len() > 2 && img[0] == 35 && img[1] == 33 {
        Some(text::trimmed_form(bytes::text_of(img.subrange(2, bytes::index_from(img, 2, 10)))))
    } else {
        None
    }
}

/// Where the first blank of a line stands.
pub open spec fn blank_index(s: Seq<u8>, i: int) -> int
    decreases s.len() - i,
{
    if i < 0 || i >= s.len() || s[i] == 32 || s[i] == 9 {
        i
    } else {
        blank_index(s, i + 1)
    }
}

/// The program that runs a script.
pub open spec fn interpreter(line: Seq<u8>) -> Seq<u8> {
    text::trimmed_form(line.take(blank_index(line, 0)))
}

/// The argument that the first line of a script gives to that program.
pub open spec fn interpreter_arg(line: Seq<u8>) -> Seq<Seq<u8>> {
    let k = blank_index(line, 0);
    if k < line.len() && text::trimmed_form(line.skip(k + 1)).len() > 0 {
        seq![text::trimmed_form(line.skip(k + 1))]
    } else {
        Seq::empty()
    }
}

/// Words, with a blank between each two.
pub open spec fn spaced(words: Seq<Seq<u8>>) -> Seq<u8>
    decreases words.len(),
{
    if words.len() == 0 {
        Seq::empty()
    } else if words.len() == 1 {
        words[0]
    } else {
        spaced(words.drop_last()) + seq![32u8] + words.last()
    }
}

pub fn join_spaced(words: &Vec<Vec<u8>>) -> (r: Vec<u8>)
    ensures
        r@ == spaced(bytes::views(words@)),
{
    let ghost ws = bytes::views(words@);
    let mut r: Vec<u8> = Vec::new();
    let mut i: usize = 0;
    assert(ws.take(0) =~= Seq::empty());
    while i < words.len()
        invariant
            i <= words@.len(),
            ws == bytes::views(words@),
            r@ == spaced(ws.take(i as int)),
        decreases words.len() - i,
    {
        let ghost r0 = r@;
        assert(ws.take(i + 1).drop_last() =~= ws.take(i as int));
        assert(ws.take(i + 1).last() == words@[i as int]@);
        if i > 0 {
            r.push(32);
        }
        append_bytes(&mut r, &words[i]);
        if i > 0 {
            assert(r@ =~= r0 + seq![32u8] + words@[i as int]@);
        } else {
            assert(ws.take(0) =~= Seq::empty());
            assert(r@ =~= words@[0]@);
            assert(ws.take(1)[0] == words@[0]@);
        }
        i = i + 1;
    }
    assert(ws.take(ws.len() as int) =~= ws);
    r
}

/// A program that is about to start.
pub struct Loaded {
    pub argv: Vec<Vec<u8>>,
    pub cmdline: Vec<u8>,
}

/// What came of loading a program.
pub enum Load {
    /// It can start.
    Ready(Loaded),
    /// It is a script: another program is to be loaded, which runs it.
    Script { prog: Vec<u8>, rest: Vec<Vec<u8>>, depth: u8 },
    /// It cannot be run; this is said.
    Failed(Vec<u8>),
}

pub open spec fn cannot_load(prog: Seq<u8>) -> Seq<u8> {
    bytes::lit("run: cannot load ") + prog + bytes::lit("\n")
}

/// What came of loading the program `prog` with the arguments `rest`. `path` is
/// where it was found, `img` what was read from there.
pub open spec fn load_done(
    prog: Seq<u8>,
    rest: Seq<Seq<u8>>,
    depth: u8,
    path: Option<Seq<u8>>,
    img: Option<Seq<u8>>,
    r: Load,
) -> bool {
    if path is None || img is None || img->0.len() == 0 {
        r matches Load::Failed(t) && t@ == cannot_load(prog)
    } else {
        match script_line(img->0) {
            Some(line) => if depth >= SHEBANG_MAX_DEPTH {
                r matches Load::Failed(t) && t@ == bytes::lit("run: shebang too deep\n")
            } else if interpreter(line).len() == 0 {
                r matches Load::Failed(t) && t@ == bytes::lit("run: bad interpreter\n")
            } else {
                &&& r matches Load::Script { prog: p, rest: a, depth: d }
                &&& p@ == interpreter(line)
                &&& bytes::views(a@) == interpreter_arg(line) + seq![path->0] + rest
                &&& d == depth + 1
            },
            None => {
                &&& r matches Load::Ready(l)
                &&& bytes::views(l.argv@) == seq![path->0] + rest
                &&& l.cmdline@ == spaced(seq![path->0] + rest)
            },
        }
    }
}

fn append_words(v: &mut Vec<Vec<u8>>, more: &Vec<Vec<u8>>)
    ensures
        bytes::views(final(v)@) == bytes::views(old(v)@) + bytes::views(more@),
{
    let ghost v0 = bytes::views(v@);
    let mut i: usize = 0;
    assert(v0 + bytes::views(more@).take(0) =~= v0);
    while i < more.len()
        invariant
            i <= more@.len(),
            bytes::views(v@) == v0 + bytes::views(more@).take(i as int),
        decreases more.len() - i,
    {
        broadcast use bytes::lemma_views_push;

        v.push(copy_of(&more[i]));
        i = i + 1;
        assert(bytes::views(v@) =~= v0 + bytes::views(more@).take(i as int));
    }
    assert(bytes::views(more@).take(more@.len() as int) =~= bytes::views(more@));
}

/// Loads a program: an image is run as it is, a script by the program that its
/// first line names. Scripts that run scripts are refused at a depth.
pub fn load_prog(
    prog: &[u8],
    rest: &Vec<Vec<u8>>,
    depth: u8,
    path: Option<Vec<u8>>,
    img: &Option<Vec<u8>>,
) -> (r: Load)
    ensures
        load_done(prog@, bytes::views(rest@), depth, maybe(path), maybe(*img), r),
{
    broadcast use bytes::lemma_views_push;

    let mut none: Vec<u8> = Vec::new();
    push_str(&mut none, "run: cannot load ");
    append_bytes(&mut none, prog);
    push_str(&mut none, "\n");
    assert(none@ =~= cannot_load(prog@));
    let path: Vec<u8> = match path {
        Some(p) => p,
        None => {
            return Load::Failed(none);
        },
    };
    let img: &Vec<u8> = match img {
        Some(b) => b,
        None => {
            return Load::Failed(none);
        },
    };
    if img.len() == 0 {
        return Load::Failed(none);
    }
    let mut argv: Vec<Vec<u8>> = Vec::new();
    assert(bytes::views(argv@) =~= Seq::empty());
    if img.len() > 2 && img[0] == 35 && img[1] == 33 {
        let end: usize = find_byte(img, 2, 10);
        proof {
            bytes::lemma_index_from(img@, 2, 10);
        }
        let raw: Vec<u8> = copy_of(slice_subrange(img, 2, end));
        let line: Vec<u8> = text::trim(&text_or_empty(raw));
        assert(script_line(img@) == Some(line@));
        if depth >= SHEBANG_MAX_DEPTH {
            let mut t: Vec<u8> = Vec::new();
            push_str(&mut t, "run: shebang too deep\n");
            assert(t@ =~= bytes::lit("run: shebang too deep\n"));
            return Load::Failed(t);
        }
        let mut k: usize = 0;
        while k < line.len() && line[k] != 32 && line[k] != 9
            invariant
                k <= line@.len(),
                blank_index(line@, k as int) == blank_index(line@, 0),
            decreases line.len() - k,
        {
            k = k + 1;
        }
        let interp: Vec<u8> = text::trim(slice_subrange(&line, 0, k));
        assert(line@.subrange(0, k as int) =~= line@.take(k as int));
        if interp.len() == 0 {
            let mut t: Vec<u8> = Vec::new();
            push_str(&mut t, "run: bad interpreter\n");
            assert(t@ =~= bytes::lit("run: bad interpreter\n"));
            return Load::Failed(t);
        }
        if k < line.len() {
            let arg: Vec<u8> = text::trim(slice_subrange(&line, k + 1, line.len()));
            assert(line@.subrange(k + 1, line@.len() as int) =~= line@.skip(k + 1));
            if arg.len() > 0 {
                argv.push(arg);
            }
        }
        assert(bytes::views(argv@) =~= interpreter_arg(line@));
        argv.push(path);
        append_words(&mut argv, rest);
        assert(bytes::views(argv@) =~= interpreter_arg(line@) + seq![path@] + bytes::views(rest@));
        return Load::Script { prog: interp, rest: argv, depth: depth + 1 };
    }
    argv.push(path);
    append_words(&mut argv, rest);
    assert(bytes::views(argv@) =~= seq![path@] + bytes::views(rest@));
    let cmdline: Vec<u8> = join_spaced(&argv);
    Load::Ready(Loaded { argv, cmdline })
}

} // verus!
