//! Text in byte strings: decoding, case and white space, as std defines them
//! for all of Unicode.
use vstd::prelude::*;

use crate::bytes;

verus! {

pub open spec fn all_ascii(b: Seq<u8>) -> bool {
    forall|i: int| 0 <= i < b.len() ==> #[trigger] b[i] < 128
}

/// The UTF-8 text that `String::from_utf8_lossy` makes of a byte string.
pub uninterp spec fn lossy_text(b: Seq<u8>) -> Seq<u8>;

/// `String::from_utf8_lossy`: the result is well-formed, and a byte string
/// that is well-formed already is kept as it is.
#[verifier::external_body]
pub(crate) fn to_text(b: &[u8]) -> (r: Vec<u8>)
    ensures
        r@ == lossy_text(b@),
        vstd::utf8::valid_utf8(r@),
        vstd::utf8::valid_utf8(b@) ==> r@ == b@,
{
    String::from_utf8_lossy(b).into_owned().into_bytes()
}

/// The text that `str::to_uppercase` makes of a text.
pub uninterp spec fn upper_text(b: Seq<u8>) -> Seq<u8>;

/// `str::to_uppercase`.
#[verifier::external_body]
pub(crate) fn to_upper_text(b: &[u8]) -> (r: Vec<u8>)
    requires
        vstd::utf8::valid_utf8(b@),
    ensures
        r@ == upper_text(b@),
{
    core::str::from_utf8(b).unwrap().to_uppercase().into_bytes()
}

/// The characters that are white space: those with the Unicode property
/// `White_Space`.
pub open spec fn white_space(c: char) -> bool {
    let u = c as u32;
    9 <= u <= 13 || u == 32 || u == 0x85 || u == 0xA0 || u == 0x1680 || 0x2000 <= u <= 0x200A || u
        == 0x2028 || u == 0x2029 || u == 0x202F || u == 0x205F || u == 0x3000
}

/// Characters without the white space at both ends.
pub open spec fn trimmed_chars(s: Seq<char>) -> Seq<char>
    decreases s.len(),
{
    if s.len() > 0 && white_space(s[0]) {
        trimmed_chars(s.skip(1))
    } else if s.len() > 0 && white_space(s.last()) {
        trimmed_chars(s.drop_last())
    } else {
        s
    }
}

/// A text without the white space at both ends.
pub open spec fn trimmed_text(b: Seq<u8>) -> Seq<u8> {
    vstd::utf8::encode_utf8(trimmed_chars(vstd::utf8::decode_utf8(b)))
}

/// `str::trim`: the white space at both ends is taken off.
#[verifier::external_body]
pub(crate) fn to_trimmed_text(b: &[u8]) -> (r: Vec<u8>)
    requires
        vstd::utf8::valid_utf8(b@),
    ensures
        r@ == trimmed_text(b@),
{
    core::str::from_utf8(b).unwrap().trim().as_bytes().to_vec()
}

fn is_ascii(b: &[u8]) -> (r: bool)
    ensures
        r == all_ascii(b@),
{
    let mut i: usize = 0;
    while i < b.len()
        invariant
            i <= b.len(),
            forall|k: int| 0 <= k < i ==> #[trigger] b@[k] < 128,
        decreases b.len() - i,
    {
        if b[i] >= 128 {
            return false;
        }
        i += 1;
    }
    true
}

/// A byte string read as text: ASCII as it is, anything else decoded.
pub open spec fn text_form(b: Seq<u8>) -> Seq<u8> {
    if all_ascii(b) {
        b
    } else {
        lossy_text(b)
    }
}

/// A byte string read as text.
pub fn as_text(b: &[u8]) -> (r: Vec<u8>)
    ensures
        r@ == text_form(b@),
{
    if is_ascii(b) {
        bytes::copy_of(b)
    } else {
        to_text(b)
    }
}

/// Upper case of a byte string read as text.
pub open spec fn upper_form(b: Seq<u8>) -> Seq<u8> {
    if all_ascii(b) {
        Seq::new(b.len(), |i: int| bytes::upper_byte(b[i]))
    } else {
        upper_text(lossy_text(b))
    }
}

/// Upper case of a byte string read as text.
pub fn upper(b: &[u8]) -> (r: Vec<u8>)
    ensures
        r@ == upper_form(b@),
{
    if !is_ascii(b) {
        return to_upper_text(&to_text(b));
    }
    let mut r: Vec<u8> = Vec::new();
    let mut i: usize = 0;
    while i < b.len()
        invariant
            i <= b.len(),
            r@.len() == i,
            forall|k: int| 0 <= k < i ==> #[trigger] r@[k] == bytes::upper_byte(b@[k]),
        decreases b.len() - i,
    {
        r.push(bytes::to_upper(b[i]));
        i += 1;
    }
    assert(r@ =~= upper_form(b@));
    r
}

/// The ASCII bytes that are white space.
pub open spec fn ascii_blank(c: u8) -> bool {
    9 <= c <= 13 || c == 32
}

/// An ASCII text without the white space at its ends.
pub open spec fn ascii_trimmed(b: Seq<u8>) -> Seq<u8>
    decreases b.len(),
{
    if b.len() > 0 && ascii_blank(b[0]) {
        ascii_trimmed(b.skip(1))
    } else if b.len() > 0 && ascii_blank(b.last()) {
        ascii_trimmed(b.drop_last())
    } else {
        b
    }
}

/// A byte string read as text, without the white space at its ends.
pub open spec fn trimmed_form(b: Seq<u8>) -> Seq<u8> {
    if all_ascii(b) {
        ascii_trimmed(b)
    } else {
        trimmed_text(lossy_text(b))
    }
}

/// A byte string read as text, without the white space at its ends.
pub fn trim(b: &[u8]) -> (r: Vec<u8>)
    ensures
        r@ == trimmed_form(b@),
{
    if !is_ascii(b) {
        return to_trimmed_text(&to_text(b));
    }
    let mut i: usize = 0;
    let mut j: usize = b.len();
    assert(b@.subrange(0, j as int) =~= b@);
    while i < j && ((9 <= b[i] && b[i] <= 13) || b[i] == 32)
        invariant
            i <= j <= b.len(),
            ascii_trimmed(b@) == ascii_trimmed(b@.subrange(i as int, j as int)),
        decreases j - i,
    {
        assert(b@.subrange(i as int, j as int).skip(1) =~= b@.subrange(i + 1, j as int));
        i += 1;
    }
    while i < j && ((9 <= b[j - 1] && b[j - 1] <= 13) || b[j - 1] == 32)
        invariant
            i <= j <= b.len(),
            i < j ==> !ascii_blank(b@[i as int]),
            ascii_trimmed(b@) == ascii_trimmed(b@.subrange(i as int, j as int)),
        decreases j - i,
    {
        assert(b@.subrange(i as int, j as int).drop_last() =~= b@.subrange(i as int, j - 1));
        j -= 1;
    }
    bytes::copy_of(vstd::slice::slice_subrange(b, i, j))
}

} // verus!
