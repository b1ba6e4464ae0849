//! The small programs.
use velordor::programs::{posix_replies, runhello, runhello_input, uptime};

fn args(list: &[&str]) -> Vec<Vec<u8>> {
    list.iter().map(|s| s.as_bytes().to_vec()).collect()
}

#[test]
fn clock_prints_seconds_and_hundredths() {
    let (text, next) = uptime(1205, 500);
    assert_eq!(text.unwrap(), b"[uptime] 12.05 s\n".to_vec());
    assert_eq!(next, 1705);
    let (text, _) = uptime(1234, 500);
    assert_eq!(text.unwrap(), b"[uptime] 12.34 s\n".to_vec());
}

#[test]
fn clock_waits_for_its_deadline() {
    assert_eq!(uptime(499, 500), (None, 500));
}

#[test]
fn runhello_shows_its_arguments() {
    let (out, code) = runhello(&Some(args(&["runhello", "one", "two"])));
    assert_eq!(out, b"runhello: one\nrunhello: two\n".to_vec());
    assert_eq!(code, 0);
}

#[test]
fn runhello_fails_on_request() {
    let (out, code) = runhello(&Some(args(&["runhello", "fail", "x"])));
    assert_eq!(out, b"runhello: fail\nrunhello: x\n".to_vec());
    assert_eq!(code, 3);
}

#[test]
fn runhello_does_not_show_what_is_no_text() {
    let (out, code) = runhello(&Some(vec![b"fail".to_vec(), vec![0xFF, 0xFE]]));
    assert_eq!(out, b"runhello: <non utf8>\n".to_vec());
    assert_eq!(code, 0);
    assert_eq!(runhello_input(b"ab"), b"runhello: stdin:ab\n".to_vec());
    assert_eq!(runhello_input(&[0xFF]), b"runhello: stdin:<non utf8>\n".to_vec());
    assert!(runhello_input(b"").is_empty());
    assert_eq!(runhello(&None), (b"runhello: argv illeggibili\n".to_vec(), 0));
    assert_eq!(runhello(&Some(vec![])), (vec![], 0));
}

#[test]
fn posix_answers_all_but_ends() {
    assert!(posix_replies(false));
    assert!(!posix_replies(true));
}
