//! The compressed format, stated over sequences: how a text is cut into
//! tokens, which code each token gets, and what a byte string decodes to.
//!
//! A byte below 128 is a plain ASCII character. A byte with the high bit set
//! starts a code whose length is held in bits 5 and 6:
//! - one byte: `101iiiii`, a space and then word `i` of the one-byte list;
//! - two bytes: `110nciii iiiiiiii`, an 11-bit index into the two-byte list;
//! - three bytes: `111nciii iiiiiiii iiiiiiii`, a 19-bit index into the
//!   three-byte list.
//!
//! In the longer codes `n` says that the word follows a newline rather than a
//! space, and `c` that its first letter is a capital; the rest is lower case.

use vstd::prelude::*;
use vstd::utf8::is_ascii_chars;
use crate::ascii::{ascii_bytes, is_word_char, lower, upper_char};
use crate::word_table::table_index;

verus! {

/// The word lists behind the codes of one, two and three bytes.
pub type Tables = (Seq<Seq<char>>, Seq<Seq<char>>, Seq<Seq<char>>);

// ---------------------------------------------------------------- tokens

/// The length of the run of word characters at the start of `s`.
pub open spec fn word_run(s: Seq<char>) -> nat
    decreases s.len(),
{
    if s.len() > 0 && is_word_char(s[0]) {
        1 + word_run(s.drop_first())
    } else {
        0
    }
}

pub proof fn lemma_word_run(s: Seq<char>)
    ensures
        word_run(s) <= s.len(),
        forall|k: int| 0 <= k < word_run(s) ==> is_word_char(#[trigger] s[k]),
        word_run(s) < s.len() ==> !is_word_char(s[word_run(s) as int]),
    decreases s.len(),
{
    if s.len() > 0 && is_word_char(s[0]) {
        let rest = s.drop_first();
        lemma_word_run(rest);
        assert forall|k: int| 0 <= k < word_run(s) implies is_word_char(#[trigger] s[k]) by {
            if k > 0 {
                assert(s[k] == rest[k - 1]);
            }
        }
    }
}

/// The length of the first token of a non-empty text: a maximal run of word
/// characters, or else one separator character.
pub open spec fn first_token_len(s: Seq<char>) -> nat {
    if is_word_char(s[0]) {
        word_run(s)
    } else {
        1
    }
}

/// The tokens of a text, in order: the maximal runs of word characters, and
/// each other character on its own.
pub open spec fn tokens(s: Seq<char>) -> Seq<Seq<char>>
    decreases s.len(),
{
    if s.len() == 0 {
        Seq::empty()
    } else {
        let n = first_token_len(s) as int;
        proof {
            lemma_word_run(s);
        }
        seq![s.take(n)] + tokens(s.skip(n))
    }
}

pub proof fn lemma_word_run_exact(u: Seq<char>, k: int)
    requires
        0 <= k <= u.len(),
        forall|j: int| 0 <= j < k ==> is_word_char(#[trigger] u[j]),
        k == u.len() || !is_word_char(u[k]),
    ensures
        word_run(u) == k,
    decreases k,
{
    if k > 0 {
        let rest = u.drop_first();
        assert forall|j: int| 0 <= j < k - 1 implies is_word_char(#[trigger] rest[j]) by {
            assert(rest[j] == u[j + 1]);
        }
        if k < u.len() {
            assert(rest[k - 1] == u[k]);
        }
        lemma_word_run_exact(rest, k - 1);
    }
}

/// The first token of the text after `pos` ends at `end`.
pub proof fn lemma_tokens_unfold(s: Seq<char>, pos: int, end: int)
    requires
        0 <= pos < end <= s.len(),
        end - pos == first_token_len(s.skip(pos)),
    ensures
        tokens(s.skip(pos)) == seq![s.subrange(pos, end)] + tokens(s.skip(end)),
{
    let u = s.skip(pos);
    assert(u.take(end - pos) =~= s.subrange(pos, end));
    assert(u.skip(end - pos) =~= s.skip(end));
}

// ---------------------------------------------------------------- codes

pub open spec fn code_one(index: u32) -> u8 {
    ((index as u8) & 0x1f) | 0xa0
}

pub open spec fn code_flags(newline: bool, upper: bool) -> u8 {
    (if newline { 0x10u8 } else { 0u8 }) | (if upper { 0x08u8 } else { 0u8 })
}

pub open spec fn code_two(index: u32, newline: bool, upper: bool) -> Seq<u8> {
    seq![
        (((index >> 8u32) as u8) & 0x07) | code_flags(newline, upper) | 0xc0,
        index as u8,
    ]
}

pub open spec fn code_three(index: u32, newline: bool, upper: bool) -> Seq<u8> {
    seq![
        (((index >> 16u32) as u8) & 0x07) | code_flags(newline, upper) | 0xe0,
        (index >> 8u32) as u8,
        index as u8,
    ]
}

/// All lower case, or a capital followed by lower case.
pub open spec fn valid_capitalization(w: Seq<char>) -> bool {
    ||| w == lower(w)
    ||| (w.len() > 0 && w[0] == upper_char(w[0]) && w.skip(1) == lower(w.skip(1)))
}

/// The first character has no lower case letter to turn into a capital.
pub open spec fn starts_upper(w: Seq<char>) -> bool {
    w[0] == upper_char(w[0])
}

/// The output so far ends in a plain space.
pub open spec fn after_space(out: Seq<u8>, plain: bool) -> bool {
    plain && out.len() > 0 && out.last() == 32
}

/// The output so far ends in a plain space or newline.
pub open spec fn after_break(out: Seq<u8>, plain: bool) -> bool {
    plain && out.len() > 0 && (out.last() == 32 || out.last() == 10)
}

/// The one-byte code for `tok`, which takes the place of the space before it.
pub open spec fn one_byte_code(t1: Seq<Seq<char>>, out: Seq<u8>, plain: bool, tok: Seq<char>) -> Option<Seq<u8>> {
    if after_space(out, plain) && table_index(t1, tok) >= 0 {
        Some(seq![code_one(table_index(t1, tok) as u32)])
    } else {
        None
    }
}

/// The two-byte code for `tok`, which takes the place of the space or
/// newline before it.
pub open spec fn two_byte_code(t2: Seq<Seq<char>>, out: Seq<u8>, plain: bool, tok: Seq<char>) -> Option<Seq<u8>> {
    if after_break(out, plain) && tok.len() >= 2 && valid_capitalization(tok) && table_index(
        t2,
        lower(tok),
    ) >= 0 {
        Some(code_two(table_index(t2, lower(tok)) as u32, out.last() == 10, starts_upper(tok)))
    } else {
        None
    }
}

/// The three-byte code for `tok`, which takes the place of the space or
/// newline before it.
pub open spec fn three_byte_code(t3: Seq<Seq<char>>, out: Seq<u8>, plain: bool, tok: Seq<char>) -> Option<Seq<u8>> {
    if after_break(out, plain) && tok.len() >= 3 && valid_capitalization(tok) && table_index(
        t3,
        lower(tok),
    ) >= 0 {
        Some(code_three(table_index(t3, lower(tok)) as u32, out.last() == 10, starts_upper(tok)))
    } else {
        None
    }
}

/// The one-byte code of the longest prefix of `tok` of at most `i`
/// characters that has one, followed by the rest of `tok` in plain.
pub open spec fn prefix_code(t1: Seq<Seq<char>>, out: Seq<u8>, plain: bool, tok: Seq<char>, i: nat) -> Option<Seq<u8>>
    decreases i,
{
    if i == 0 {
        None
    } else {
        match one_byte_code(t1, out, plain, tok.take(i as int)) {
            Some(c) => Some(c + ascii_bytes(tok.skip(i as int))),
            None => prefix_code(t1, out, plain, tok, (i - 1) as nat),
        }
    }
}

/// A code for a prefix of at most four characters of `tok`.
pub open spec fn beginning_code(t1: Seq<Seq<char>>, out: Seq<u8>, plain: bool, tok: Seq<char>) -> Option<Seq<u8>> {
    prefix_code(t1, out, plain, tok, if tok.len() < 4 { tok.len() } else { 4 })
}

/// The code that `tok` gets, if any, after output `out` (`plain`: the last
/// token was written in plain): the first of the one-, two- and three-byte
/// codes, then the code of a prefix.
pub open spec fn token_code(tabs: Tables, out: Seq<u8>, plain: bool, tok: Seq<char>) -> Option<Seq<u8>> {
    if one_byte_code(tabs.0, out, plain, tok) is Some {
        one_byte_code(tabs.0, out, plain, tok)
    } else if two_byte_code(tabs.1, out, plain, tok) is Some {
        two_byte_code(tabs.1, out, plain, tok)
    } else if three_byte_code(tabs.2, out, plain, tok) is Some {
        three_byte_code(tabs.2, out, plain, tok)
    } else {
        beginning_code(tabs.0, out, plain, tok)
    }
}

/// Writes one token: its code in place of the byte before it, or the token
/// itself in plain.
pub open spec fn compress_step(tabs: Tables, state: (Seq<u8>, bool), tok: Seq<char>) -> (Seq<u8>, bool) {
    match token_code(tabs, state.0, state.1, tok) {
        Some(c) => (state.0.drop_last() + c, false),
        None => (state.0 + ascii_bytes(tok), true),
    }
}

/// The output after writing `toks`, and whether the last was written in plain.
pub open spec fn compress_tokens(tabs: Tables, toks: Seq<Seq<char>>) -> (Seq<u8>, bool)
    decreases toks.len(),
{
    if toks.len() == 0 {
        (Seq::empty(), false)
    } else {
        compress_step(tabs, compress_tokens(tabs, toks.drop_last()), toks.last())
    }
}

/// The compressed form of `text`; none where it holds a character beyond ASCII.
pub open spec fn compressed(tabs: Tables, text: Seq<char>) -> Option<Seq<u8>> {
    if is_ascii_chars(text) {
        Some(compress_tokens(tabs, tokens(text)).0)
    } else {
        None
    }
}

// ---------------------------------------------------------------- decoding

/// What a byte string decodes to: a text; `Invalid`, a code that no word
/// answers to (a one-byte index past the list, or the unused code length 0);
/// or `Unreadable`, which no decoder is asked to read: a code cut short by
/// the end of the input, a longer code whose index is past its list, or a
/// capital asked of an empty word.
pub enum Decoded {
    Text(Seq<char>),
    Invalid,
    Unreadable,
}

pub open spec fn prepend(w: Seq<char>, d: Decoded) -> Decoded {
    match d {
        Decoded::Text(r) => Decoded::Text(w + r),
        other => other,
    }
}

pub open spec fn code_length(b: u8) -> u8 {
    (b & 0x60) >> 5
}

pub open spec fn two_byte_index(b0: u8, b1: u8) -> u32 {
    (((b0 as u32) << 8u32) | (b1 as u32)) & 0x7ff
}

pub open spec fn three_byte_index(b0: u8, b1: u8, b2: u8) -> u32 {
    (((b0 as u32) << 16u32) | ((b1 as u32) << 8u32) | (b2 as u32)) & 0x7ffff
}

/// A word of a longer code after its space or newline, in lower case or
/// with a capital first letter.
pub open spec fn cased_word(w: Seq<char>, newline: bool, upper: bool) -> Decoded {
    let prev = if newline { '\n' } else { ' ' };
    if !upper {
        Decoded::Text(seq![prev] + lower(w))
    } else if w.len() == 0 {
        Decoded::Unreadable
    } else {
        Decoded::Text(seq![prev, upper_char(w[0])] + lower(w.skip(1)))
    }
}

/// The first unit of a non-empty byte string: how many bytes it takes, and
/// what it decodes to.
pub open spec fn decode_unit(tabs: Tables, s: Seq<u8>) -> (int, Decoded) {
    let b = s[0];
    if b < 128 {
        (1, Decoded::Text(seq![b as char]))
    } else if code_length(b) == 1 {
        let i = (b & 0x1f) as int;
        (1, if i < tabs.0.len() { Decoded::Text(seq![' '] + tabs.0[i]) } else { Decoded::Invalid })
    } else if code_length(b) == 2 {
        if s.len() < 2 {
            (2, Decoded::Unreadable)
        } else {
            let i = two_byte_index(b, s[1]) as int;
            (2, if i < tabs.1.len() {
                cased_word(tabs.1[i], b & 0x10 != 0, b & 0x08 != 0)
            } else {
                Decoded::Unreadable
            })
        }
    } else if code_length(b) == 3 {
        if s.len() < 3 {
            (3, Decoded::Unreadable)
        } else {
            let i = three_byte_index(b, s[1], s[2]) as int;
            (3, if i < tabs.2.len() {
                cased_word(tabs.2[i], b & 0x10 != 0, b & 0x08 != 0)
            } else {
                Decoded::Unreadable
            })
        }
    } else {
        (1, Decoded::Invalid)
    }
}

pub proof fn lemma_decode_unit_len(tabs: Tables, s: Seq<u8>)
    requires
        s.len() > 0,
    ensures
        1 <= decode_unit(tabs, s).0 <= 3,
        decode_unit(tabs, s).1 is Text ==> decode_unit(tabs, s).0 <= s.len(),
{
}

/// What `s` decodes to, unit by unit from the front; the first unit that is
/// not a text decides.
pub open spec fn decode(tabs: Tables, s: Seq<u8>) -> Decoded
    decreases s.len(),
{
    if s.len() == 0 {
        Decoded::Text(Seq::empty())
    } else {
        let (n, d) = decode_unit(tabs, s);
        proof {
            lemma_decode_unit_len(tabs, s);
        }
        match d {
            Decoded::Text(w) => prepend(w, decode(tabs, s.skip(n))),
            other => other,
        }
    }
}

/// Decoding from position `i` reads the unit there and goes on after it.
pub proof fn lemma_decode_step(tabs: Tables, s: Seq<u8>, i: int)
    requires
        0 <= i < s.len(),
    ensures
        1 <= decode_unit(tabs, s.skip(i)).0 <= 3,
        decode_unit(tabs, s.skip(i)).1 is Text ==> i + decode_unit(tabs, s.skip(i)).0 <= s.len(),
        decode(tabs, s.skip(i)) == match decode_unit(tabs, s.skip(i)).1 {
            Decoded::Text(w) => prepend(w, decode(tabs, s.skip(i + decode_unit(tabs, s.skip(i)).0))),
            other => other,
        },
{
    let rest = s.skip(i);
    lemma_decode_unit_len(tabs, rest);
    let n = decode_unit(tabs, rest).0;
    if decode_unit(tabs, rest).1 is Text {
        assert(rest.skip(n) =~= s.skip(i + n));
    }
}

/// Prepending twice prepends the concatenation.
pub proof fn lemma_prepend_prepend(a: Seq<char>, b: Seq<char>, d: Decoded)
    ensures
        prepend(a, prepend(b, d)) == prepend(a + b, d),
{
    if let Decoded::Text(r) = d {
        assert(a + (b + r) =~= (a + b) + r);
    }
}

} // verus!
