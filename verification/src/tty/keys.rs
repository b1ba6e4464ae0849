//! Scan codes to keys.
use vstd::prelude::*;

use pc_keyboard::layouts::Us104Key;
use pc_keyboard::{DecodedKey, HandleControl, KeyCode, Keyboard, ScancodeSet1};

verus! {

/// A key that was pressed: a character, or a key without one.
#[derive(Clone, Copy, PartialEq, Eq, Debug, Structural)]
pub enum Key {
    Char(char),
    Return,
    NumpadEnter,
    Backspace,
    Other,
}

/// A `pc_keyboard::Keyboard` for scan code set 1 and the US layout.
#[verifier::external_body]
pub struct Decoder {
    keyboard: Keyboard<Us104Key, ScancodeSet1>,
}

/// The scan codes that a decoder was given since it was made.
pub uninterp spec fn codes_given(decoder: Decoder) -> Seq<u8>;

/// The key that the last of some scan codes completes, by
/// `Keyboard::add_byte` and `Keyboard::process_keyevent`.
pub uninterp spec fn decoded_key(codes: Seq<u8>) -> Option<Key>;

/// `Keyboard::new`: a decoder that was given nothing yet.
#[verifier::external_body]
pub(crate) fn new_decoder() -> (r: Decoder)
    ensures
        codes_given(r) == Seq::<u8>::empty(),
{
    Decoder {
        keyboard: Keyboard::new(
            ScancodeSet1::new(),
            Us104Key,
            HandleControl::MapLettersToUnicode,
        ),
    }
}

/// `Keyboard::add_byte`, and `Keyboard::process_keyevent` on the event that it
/// makes of the scan code, if it makes one. The key depends on the scan codes
/// given so far and on this one, and on nothing else; a scan code that is
/// unknown or completes no key gives none. Which key a scan code stands for is
/// not stated.
#[verifier::external_body]
pub(crate) fn give_code(decoder: &mut Decoder, code: u8) -> (r: Option<Key>)
    ensures
        codes_given(*final(decoder)) == codes_given(*old(decoder)).push(code),
        r == decoded_key(codes_given(*old(decoder)).push(code)),
{
    let event = decoder.keyboard.add_byte(code).ok()??;
    match decoder.keyboard.process_keyevent(event)? {
        DecodedKey::Unicode(c) => Some(Key::Char(c)),
        DecodedKey::RawKey(KeyCode::Return) => Some(Key::Return),
        DecodedKey::RawKey(KeyCode::NumpadEnter) => Some(Key::NumpadEnter),
        DecodedKey::RawKey(KeyCode::Backspace) => Some(Key::Backspace),
        DecodedKey::RawKey(_) => Some(Key::Other),
    }
}

/// `char::encode_utf8`: the UTF-8 encoding of a character, four bytes at most.
#[verifier::external_body]
pub(crate) fn char_bytes(c: char) -> (r: Vec<u8>)
    ensures
        r@ == vstd::utf8::encode_utf8(seq![c]),
        r@.len() <= 4,
{
    c.encode_utf8(&mut [0u8; 4]).as_bytes().to_vec()
}

/// The bytes that a key stands for: a character's encoding, a line end, or a
/// backspace. Other keys stand for nothing.
pub open spec fn key_bytes(key: Option<Key>) -> Seq<u8> {
    match key {
        Some(Key::Char(c)) => vstd::utf8::encode_utf8(seq![c]),
        Some(Key::Return) => seq![10u8],
        Some(Key::NumpadEnter) => seq![10u8],
        Some(Key::Backspace) => seq![8u8],
        _ => Seq::empty(),
    }
}

/// The bytes that a key stands for.
pub fn cooked(key: Option<Key>) -> (r: Vec<u8>)
    ensures
        r@ == key_bytes(key),
        r@.len() <= 4,
{
    let r: Vec<u8> = match key {
        Some(Key::Char(c)) => char_bytes(c),
        Some(Key::Return) => vec![10u8],
        Some(Key::NumpadEnter) => vec![10u8],
        Some(Key::Backspace) => vec![8u8],
        _ => Vec::new(),
    };
    assert(r@ =~= key_bytes(key));
    r
}

} // verus!
