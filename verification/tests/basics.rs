use velordor::bytes::{
    bytes_eq, bytes_lt, find_byte, fmt_u64, is_name_byte, is_name_start, is_space, is_str,
    parse_digits, push_bits, push_le, read_le16, read_le32, read_le64, repeat_byte, starts_with,
    text_or_empty, to_upper,
};
use velordor::names::{contains_name, insert_sorted, join_names, sort_names};
use velordor::ring::{request_frame, response_frame, Ring, RING_DATA_CAP};
use velordor::tables::keys64;
use velordor::text::{as_text, trim, upper};

#[test]
fn numbers_in_bytes() {
    let mut v = vec![];
    push_le(&mut v, 0x0102_0304_0506_0708, 8);
    assert_eq!(v, [8, 7, 6, 5, 4, 3, 2, 1]);
    assert_eq!(read_le16(&v, 1), 0x0607);
    assert_eq!(read_le32(&v, 2), 0x0304_0506);
    assert_eq!(read_le64(&v, 0), 0x0102_0304_0506_0708);
    assert_eq!(fmt_u64(0), b"0");
    assert_eq!(fmt_u64(u64::MAX), b"18446744073709551615");
    assert_eq!(parse_digits(b"4294967295", 4294967295), Some(4294967295));
    assert_eq!(parse_digits(b"4294967296", 4294967295), None);
    assert_eq!(parse_digits(b"+1", 9), None);
    assert_eq!(parse_digits(b"", 9), None);
    let mut b = vec![];
    push_bits(&mut b, -1);
    assert_eq!(b, b"18446744073709551615");
}

#[test]
fn bytes_and_their_kinds() {
    assert!(is_space(b'\t') && !is_space(b'x'));
    assert!(is_name_start(b'_') && !is_name_start(b'1') && is_name_byte(b'1'));
    assert_eq!((to_upper(b'a'), to_upper(b'Z'), to_upper(b'-')), (b'A', b'Z', b'-'));
    assert!(starts_with(b"abc", b"ab") && !starts_with(b"a", b"ab"));
    assert!(bytes_eq(b"ab", b"ab") && !bytes_eq(b"ab", b"a"));
    assert!(bytes_lt(b"a", b"ab") && !bytes_lt(b"b", b"ab"));
    assert_eq!(find_byte(b"a=b=c", 2, b'='), 3);
    assert_eq!(repeat_byte(7, 3), [7, 7, 7]);
    assert!(is_str(b"exit", "exit") && !is_str(b"exi", "exit"));
}

#[test]
fn text_and_what_is_none() {
    assert_eq!(text_or_empty("h\u{e9}".as_bytes().to_vec()), "h\u{e9}".as_bytes());
    assert!(text_or_empty(vec![0xC3]).is_empty());
    assert_eq!(as_text(b"plain"), b"plain");
    assert_eq!(as_text(&[b'a', 0xFF, b'b']), "a\u{FFFD}b".as_bytes());
    assert_eq!(upper("stra\u{df}e".as_bytes()), "STRASSE".as_bytes());
    assert_eq!(trim("\u{2003} a b \n".as_bytes()), b"a b");
    assert_eq!(trim("\u{85}\u{a0}\u{3000}x\u{200b}\u{2029}".as_bytes()), "x\u{200b}".as_bytes());
    assert_eq!(trim(" \t\r\n".as_bytes()), b"");
}

#[test]
fn sorted_names() {
    let v = vec![b"b".to_vec(), b"a".to_vec(), b"ab".to_vec()];
    let s = sort_names(&v);
    assert_eq!(s, [b"a".to_vec(), b"ab".to_vec(), b"b".to_vec()]);
    let mut t = s.clone();
    insert_sorted(&mut t, b"aa".to_vec());
    assert_eq!(t[1], b"aa");
    assert!(contains_name(&t, b"b") && !contains_name(&t, b"c"));
    join_names(&mut t, &vec![b"b".to_vec(), b"z".to_vec()]);
    assert!(contains_name(&t, b"z"));
    assert_eq!(t.iter().filter(|n| n[..] == b"b"[..]).count(), 1);
}

#[test]
fn keys_of_a_table() {
    let mut m = std::collections::BTreeMap::new();
    m.insert(9u64, 'a');
    m.insert(3u64, 'b');
    let mut k = keys64(&m);
    k.sort();
    assert_eq!(k, [3, 9]);
}

#[test]
fn frames_read_back() {
    let mut r = Ring::new();
    r.put(&request_frame(7, 1, 2, b"xyz"));
    assert_eq!((r.field32(0), r.available()), (7, 23));
    r.consume(23);
    r.put(&response_frame(5, 6, b"ok"));
    assert_eq!((r.field64(0), r.field64(8)), (5, 6));
    assert_eq!(r.peek(16, 2), b"ok");
}

#[test]
fn a_ring_wraps_around() {
    let mut r = Ring::new();
    for i in 0..100u32 {
        let b = vec![i as u8; 1000];
        r.put(&b);
        assert_eq!(r.available(), 1000);
        assert_eq!(r.peek(0, 1000), b);
        r.consume(1000);
    }
    // Both positions have gone round once.
    assert_eq!((r.head(), r.tail()), (100_000 % RING_DATA_CAP as u32, 100_000 % RING_DATA_CAP as u32));
    let at = r.head();
    r.put(b"abc");
    assert_eq!((r.head(), r.tail()), (at + 3, at));
    r.unput(1);
    assert_eq!((r.head(), r.tail()), (at + 2, at));
    assert_eq!(r.peek(0, 2), b"ab");
    r.discard();
    assert_eq!((r.available(), r.head(), r.tail()), (0, at + 2, at + 2));
    r.reset();
    assert_eq!((r.head(), r.tail()), (0, 0));
    assert!(Ring::from_page(vec![0; RING_DATA_CAP], 3, 1).is_some());
    assert!(Ring::from_page(vec![0; 5], 0, 0).is_none());
    assert_eq!(r.data().len(), RING_DATA_CAP);
}
