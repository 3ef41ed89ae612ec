//! ASCII characters, bytes and case mapping.

use vstd::prelude::*;

verus! {

/// A character that may appear inside a word: ASCII letters, digits and `'`.
pub open spec fn is_word_char(c: char) -> bool {
    ('0' <= c && c <= '9') || ('a' <= c && c <= 'z') || ('A' <= c && c <= 'Z') || c == '\''
}

pub open spec fn is_upper_char(c: char) -> bool {
    'A' <= c && c <= 'Z'
}

pub open spec fn is_lower_char(c: char) -> bool {
    'a' <= c && c <= 'z'
}

/// Lower case of an ASCII character; every other character is kept.
pub open spec fn lower_char(c: char) -> char {
    if is_upper_char(c) {
        ((c as u32) + 32) as char
    } else {
        c
    }
}

/// Upper case of an ASCII character; every other character is kept.
pub open spec fn upper_char(c: char) -> char {
    if is_lower_char(c) {
        ((c as u32) - 32) as char
    } else {
        c
    }
}

pub open spec fn lower(s: Seq<char>) -> Seq<char> {
    s.map_values(|c: char| lower_char(c))
}

/// The bytes of an ASCII character sequence.
pub open spec fn ascii_bytes(s: Seq<char>) -> Seq<u8> {
    s.map_values(|c: char| c as u8)
}

/// The characters of a byte sequence read as ASCII.
pub open spec fn bytes_text(b: Seq<u8>) -> Seq<char> {
    b.map_values(|x: u8| x as char)
}

pub proof fn lemma_case_chars(c: char)
    ensures
        lower_char(c) as u32 == (if is_upper_char(c) { c as u32 + 32 } else { c as u32 as int }),
        upper_char(c) as u32 == (if is_lower_char(c) { c as u32 - 32 } else { c as u32 as int }),
        (c as u32) < 128 ==> (lower_char(c) as u32) < 128 && (upper_char(c) as u32) < 128,
        (c as u32) < 128 && c == upper_char(c) ==> upper_char(lower_char(c)) == c,
        lower_char(lower_char(c)) == lower_char(c),
{
}

pub proof fn lemma_ascii_roundtrip(c: char)
    requires
        (c as u32) < 128,
    ensures
        ((c as u8) as char) == c,
{
}

/// Appends a character to a `String`.
///
/// Wraps `String::push`, which appends the given `char` to the end of the
/// string; the contract says just that of the string's characters.
#[verifier::external_body]
pub(crate) fn push_char(s: &mut String, c: char)
    ensures
        final(s)@ == old(s)@.push(c),
{
    s.push(c);
}

/// ASCII lower case of a byte.
pub fn lower_byte(b: u8) -> (r: u8)
    requires
        b < 128,
    ensures
        r as char == lower_char(b as char),
        r < 128,
{
    if b >= 65 && b <= 90 {
        b + 32
    } else {
        b
    }
}

/// ASCII upper case of a byte.
pub fn upper_byte(b: u8) -> (r: u8)
    requires
        b < 128,
    ensures
        r as char == upper_char(b as char),
        r < 128,
{
    if b >= 97 && b <= 122 {
        b - 32
    } else {
        b
    }
}

} // verus!
