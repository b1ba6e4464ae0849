use velordor::shell::cwd::{normalize, split_bytes, Cwd};
use velordor::shell::glob::{glob_args, glob_dir, glob_word, is_pattern, pat_match, split_listing};
use velordor::shell::parser::{
    expand_word, finish, op_text, parse_line, split_assign, tokenize, valid_name, word_string, Ch,
    CommandList, Conn, Op, ParseError, Piece, Quote, Vars,
};

fn marked(s: &str, q: Quote) -> Vec<Ch> {
    s.bytes().map(|b| Ch { b, q }).collect()
}

fn words(line: &str) -> Vec<String> {
    tokenize(line.as_bytes())
        .unwrap()
        .iter()
        .map(|p| match p {
            Piece::Word(w) => String::from_utf8(w.iter().map(|c| c.b).collect()).unwrap(),
            Piece::Op(op) => String::from_utf8(op_text(*op)).unwrap(),
        })
        .collect()
}

fn parsed(line: &str, vars: &Vars) -> CommandList {
    match parse_line(line.as_bytes(), vars, 7, 42) {
        Ok(l) => l,
        Err(e) => panic!("refused: {:?}", e),
    }
}

fn argv(l: &CommandList, i: usize) -> Vec<String> {
    l.cmds[i].args.iter().map(|w| String::from_utf8(word_string(w)).unwrap()).collect()
}

fn refused(line: &str) -> ParseError {
    match parse_line(line.as_bytes(), &Vars::new(), 0, 1) {
        Ok(_) => panic!("accepted"),
        Err(e) => e,
    }
}

#[test]
fn words_and_operators() {
    assert_eq!(words("echo a b"), ["echo", "a", "b"]);
    assert_eq!(words("a>b>>c<d"), ["a", ">", "b", ">>", "c", "<", "d"]);
    assert_eq!(words("run x 2>e 2>>f 2>&1"), ["run", "x", "2>", "e", "2>>", "f", "2>&1"]);
    assert_eq!(words("a;b&&c||d&"), ["a", ";", "b", "&&", "c", "||", "d", "&"]);
    assert_eq!(words("12>f"), ["12", ">", "f"]);
    assert!(words("   ").is_empty());
}

#[test]
fn comments_start_at_words_only() {
    assert_eq!(words("echo a # b"), ["echo", "a"]);
    assert_eq!(words("echo a#b"), ["echo", "a#b"]);
    assert!(words("# all of it").is_empty());
}

#[test]
fn single_quotes_are_literal() {
    let t = tokenize(b"'a $b; # > \\ | c'").unwrap();
    assert_eq!(t.len(), 1);
    match &t[0] {
        Piece::Word(w) => assert_eq!(*w, marked("a $b; # > \\ | c", Quote::Single)),
        Piece::Op(_) => panic!("operator"),
    }
    let w = marked("a $b", Quote::Single);
    let out = expand_word(&w, &Vars::new(), 0, 1, true).unwrap();
    assert_eq!(out, vec![w]);
}

#[test]
fn double_quotes_escape_three_bytes() {
    let t = tokenize(b"\"a\\$b\\\"c\\\\d\\n\"").unwrap();
    match &t[0] {
        Piece::Word(w) => {
            let text: Vec<u8> = w.iter().map(|c| c.b).collect();
            assert_eq!(text, b"a$b\"c\\d\\n");
            assert_eq!(w[1].q, Quote::Esc);
            assert_eq!(w[3].q, Quote::Double);
        },
        Piece::Op(_) => panic!("operator"),
    }
    // An open quote runs to the end of the line.
    assert_eq!(words("echo 'a b"), ["echo", "a b"]);
    assert_eq!(words("echo \"a b"), ["echo", "a b"]);
    // A backslash at the end of the line stands for nothing.
    assert_eq!(words("echo \\"), ["echo"]);
}

#[test]
fn variables_expand() {
    let mut vars = Vars::new();
    vars.vars_set(b"A", b"x y");
    let l = parsed("echo $A \"$A\" ${A}z $? $$ '$A' \\$A $ $1 $missing", &vars);
    assert_eq!(argv(&l, 0), ["echo", "x", "y", "x y", "x", "yz", "7", "42", "$A", "$A", "$", "$1"]);
}

#[test]
fn negative_status_reads_as_unsigned() {
    let l = match parse_line(b"echo $?", &Vars::new(), -1, 1) {
        Ok(l) => l,
        Err(_) => panic!("refused"),
    };
    assert_eq!(argv(&l, 0), ["echo", "18446744073709551615"]);
}

#[test]
fn tilde_stands_for_the_root() {
    let l = parsed("cd ~ ~/a a~ '~'", &Vars::new());
    assert_eq!(argv(&l, 0), ["cd", "/", "//a", "a~", "~"]);
    // Only alone or before a slash.
    let l = parsed("cd ~foo ~'x' ~~ ~/", &Vars::new());
    assert_eq!(argv(&l, 0), ["cd", "~foo", "~x", "~~", "//"]);
}

#[test]
fn assignments() {
    let mut vars = Vars::new();
    vars.vars_set(b"B", b"2");
    let l = parsed("A=1$B", &vars);
    assert_eq!(l.cmds[0].assign, Some((b"A".to_vec(), b"12".to_vec())));
    assert!(l.cmds[0].args.is_empty());
    assert_eq!(refused("A=1 echo"), ParseError::EnvPrefix);
    // A name that is none, and a quoted sign, make no assignment.
    assert!(parsed("1A=2", &vars).cmds[0].assign.is_none());
    assert!(parsed("A\\=2", &vars).cmds[0].assign.is_none());
    assert_eq!(
        split_assign(&marked("N=v=w", Quote::Plain)),
        Some((b"N".to_vec(), marked("v=w", Quote::Plain)))
    );
    assert!(split_assign(&marked("=v", Quote::Plain)).is_none());
}

#[test]
fn names_of_variables() {
    assert!(valid_name(b"_a1"));
    assert!(!valid_name(b"1a"));
    assert!(!valid_name(b""));
    assert!(!valid_name(b"a-b"));
}

#[test]
fn redirections() {
    let l = parsed("run p >a 2>>b <c", &Vars::new());
    let r = &l.cmds[0].redirs;
    assert_eq!(r.len(), 3);
    assert_eq!((r[0].slot, r[0].append, r[0].dup_to_1, &r[0].target[..]), (1, false, false, &b"a"[..]));
    assert_eq!((r[1].slot, r[1].append, r[1].dup_to_1, &r[1].target[..]), (2, true, false, &b"b"[..]));
    assert_eq!((r[2].slot, r[2].append, r[2].dup_to_1, &r[2].target[..]), (0, false, false, &b"c"[..]));
    let d = parsed("run p 2>&1", &Vars::new());
    assert_eq!((d.cmds[0].redirs[0].slot, d.cmds[0].redirs[0].dup_to_1), (2, true));
    assert_eq!(argv(&l, 0), ["run", "p"]);
}

#[test]
fn refused_lines() {
    assert_eq!(refused("a | b"), ParseError::PipeUnsupported);
    assert_eq!(refused("echo ${A"), ParseError::BadSubst);
    assert_eq!(refused("echo ${1}"), ParseError::BadSubst);
    assert_eq!(refused("echo >"), ParseError::MissingTarget(Op::Gt));
    assert_eq!(refused("echo 2>> ; ls"), ParseError::MissingTarget(Op::E2GtGt));
    assert_eq!(refused("echo < > a"), ParseError::MissingTarget(Op::Lt));
}

#[test]
fn connectors_stand_between_commands() {
    let l = parsed("a && b || c ; d & e", &Vars::new());
    assert_eq!(l.cmds.len(), 5);
    assert_eq!(l.cons.len(), 4);
    assert_eq!(l.cons, [Conn::And, Conn::Or, Conn::Always, Conn::Always]);
    assert_eq!(l.cmds.iter().map(|c| c.bg).collect::<Vec<bool>>(), [false, false, false, true, false]);
    assert!(parsed("", &Vars::new()).cmds.is_empty());
}

#[test]
fn finishing_nothing_gives_nothing() {
    assert!(matches!(finish(&vec![], &vec![], &Vars::new(), 0, 1, false), Ok(None)));
    assert!(matches!(
        finish(&vec![marked("ls", Quote::Plain)], &vec![], &Vars::new(), 0, 1, true),
        Ok(Some(_))
    ));
}

#[test]
fn variables_set_and_unset() {
    let mut v = Vars::new();
    v.vars_set(b"A", b"1");
    v.vars_set(b"B", b"2");
    v.vars_set(b"A", b"3");
    assert_eq!(v.vars_get(b"A"), Some(b"3".to_vec()));
    assert_eq!(v.vars_list(), [(b"A".to_vec(), b"3".to_vec()), (b"B".to_vec(), b"2".to_vec())]);
    v.vars_unset(b"A");
    assert_eq!(v.vars_get(b"A"), None);
    assert_eq!(v.vars_get(b"B"), Some(b"2".to_vec()));
}

#[test]
fn words_that_are_no_text_are_empty() {
    let w = vec![Ch { b: 0xFF, q: Quote::Plain }];
    assert!(word_string(&w).is_empty());
    let e: Vec<Ch> = "\u{e8}".bytes().map(|b| Ch { b, q: Quote::Plain }).collect();
    assert_eq!(word_string(&e), "\u{e8}".as_bytes());
}

#[test]
fn patterns() {
    assert!(pat_match(b"*", b""));
    assert!(pat_match(b"*.txt", b"a.txt"));
    assert!(!pat_match(b"*.txt", b"a.txt.bak"));
    assert!(pat_match(b"a?c", b"abc"));
    assert!(!pat_match(b"a?c", b"ac"));
    assert!(pat_match(b"*a*b*", b"xxaxxbxx"));
    assert!(pat_match(b"plain", b"plain"));
    assert!(is_pattern(&marked("a*", Quote::Plain)));
    assert!(!is_pattern(&marked("a*", Quote::Single)));
    assert!(is_pattern(&marked("a?", Quote::Exp)));
}

#[test]
fn matched_words() {
    let at = Cwd::new();
    let w = marked("*.c", Quote::Plain);
    assert_eq!(glob_dir(&w, &at), Some(b"/".to_vec()));
    let listing = Some(b"b.c\0a.c\0.h.c\0x.h\0".to_vec());
    assert_eq!(split_listing(b"b.c\0a.c\0"), [b"b.c".to_vec(), b"a.c".to_vec()]);
    assert_eq!(glob_word(&w, &listing), [b"a.c".to_vec(), b"b.c".to_vec()]);
    assert_eq!(glob_word(&marked(".*", Quote::Plain), &listing), [b".h.c".to_vec()]);
    let sub = marked("dir/*.h", Quote::Plain);
    assert_eq!(glob_dir(&sub, &at), Some(b"/dir".to_vec()));
    assert_eq!(glob_word(&sub, &listing), [b"dir/x.h".to_vec()]);
    // Nothing matches: the word stands for itself, quoted or unread too.
    assert_eq!(glob_word(&marked("*.z", Quote::Plain), &listing), [b"*.z".to_vec()]);
    assert_eq!(glob_word(&marked("*.c", Quote::Single), &listing), [b"*.c".to_vec()]);
    assert_eq!(glob_word(&w, &None), [b"*.c".to_vec()]);
    assert_eq!(
        glob_args(&vec![marked("ls", Quote::Plain), w], &vec![None, listing]),
        [b"ls".to_vec(), b"a.c".to_vec(), b"b.c".to_vec()]
    );
}

#[test]
fn normal_paths() {
    assert_eq!(normalize(b"/a/./b/../c//"), b"/a/c");
    assert_eq!(normalize(b"/../.."), b"/");
    assert_eq!(normalize(b""), b"/");
    let once = normalize(b"/x//y/./z");
    assert_eq!(normalize(&once), once);
    assert_eq!(split_bytes(b"a:b::", b':'), [b"a".to_vec(), b"b".to_vec(), b"".to_vec(), b"".to_vec()]);
}

#[test]
fn relative_paths_start_at_the_current_directory() {
    let mut at = Cwd::new();
    assert_eq!(at.cwd_get(), b"/");
    at.cwd_set(b"/fat/dir");
    assert_eq!(at.resolve(b"f"), b"/fat/dir/f");
    assert_eq!(at.resolve(b"../f"), b"/fat/f");
    assert_eq!(at.resolve(b"/f"), b"/f");
    assert_eq!(at.resolve(b"."), b"/fat/dir");
}
