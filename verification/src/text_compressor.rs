//! Compression and decompression of ASCII text against the English word
//! lists.

use vstd::prelude::*;
use vstd::string::*;
use vstd::utf8::is_ascii_chars;
use crate::ascii::{
    ascii_bytes, is_word_char, lemma_ascii_roundtrip, lemma_case_chars, lower, lower_byte,
    lower_char, push_char, upper_byte, upper_char,
};
use crate::format::{
    beginning_code, cased_word, code_length, code_one, code_three, code_two, compress_step,
    compress_tokens, compressed, decode, decode_unit, lemma_decode_step, lemma_prepend_prepend,
    lemma_tokens_unfold, lemma_word_run_exact, one_byte_code, prefix_code, prepend, starts_upper,
    three_byte_code, three_byte_index, tokens, two_byte_code, two_byte_index,
    valid_capitalization, Decoded,
};
use crate::word_table::{gen_index_tables_from, word_lines, EnglishTables, IndexTables};

verus! {

/// Builds the three word lists from their texts, one word per line: the
/// one-byte list as it stands, the two- and three-byte lists in lower case.
pub fn generate_english_tables(top_32: &str, top_2048: &str, words: &str) -> (r: EnglishTables)
    requires
        is_ascii_chars(top_32@),
        is_ascii_chars(top_2048@),
        is_ascii_chars(words@),
        top_32@.len() <= u32::MAX,
        top_2048@.len() <= u32::MAX,
        words@.len() <= u32::MAX,
    ensures
        r@ == (word_lines(top_32@), word_lines(lower(top_2048@)), word_lines(lower(words@))),
{
    let one_byte = gen_index_tables_from(top_32);
    let lowered = to_lowercase(top_2048);
    proof {
        lemma_lower_ascii(top_2048@);
    }
    let two_byte = gen_index_tables_from(lowered.as_str());
    let lowered = to_lowercase(words);
    proof {
        lemma_lower_ascii(words@);
    }
    let three_byte = gen_index_tables_from(lowered.as_str());
    EnglishTables { one_byte, two_byte, three_byte }
}

proof fn lemma_lower_ascii(s: Seq<char>)
    requires
        is_ascii_chars(s),
    ensures
        is_ascii_chars(lower(s)),
        lower(s).len() == s.len(),
{
    assert forall|i: int| 0 <= i < lower(s).len() implies '\0' <= #[trigger] lower(s)[i] <= '\u{7f}' by {
        lemma_case_chars(s[i]);
    }
}

/// The bytes held in an optional vector.
pub open spec fn bytes_of(r: Option<Vec<u8>>) -> Option<Seq<u8>> {
    match r {
        Some(v) => Some(v@),
        None => None,
    }
}

/// The bytes of an ASCII string.
fn ascii_str_bytes(s: &str) -> (r: &[u8])
    requires
        is_ascii_chars(s@),
    ensures
        r@ == ascii_bytes(s@),
        r@.len() == s@.len(),
{
    broadcast use vstd::string::is_ascii_spec_bytes;

    assert(vstd::string::is_ascii(s));
    let r = s.as_bytes();
    assert(r@ =~= ascii_bytes(s@));
    r
}

/// Appends the bytes of `s` to `v`.
fn extend_bytes(v: &mut Vec<u8>, s: &[u8])
    ensures
        final(v)@ == old(v)@ + s@,
{
    let ghost start = v@;
    let mut i: usize = 0;
    while i < s.len()
        invariant
            i <= s@.len(),
            v@ == start + s@.take(i as int),
        decreases s@.len() - i,
    {
        v.push(s[i]);
        proof {
            assert(s@.take(i + 1) =~= s@.take(i as int).push(s@[i as int]));
        }
        i = i + 1;
    }
    proof {
        assert(s@.take(s@.len() as int) =~= s@);
    }
}

/// Appends `w` to `out`, all in lower case, or with a capital first letter.
fn push_cased(out: &mut String, w: &str, upper_first: bool)
    requires
        is_ascii_chars(w@),
        upper_first ==> w@.len() > 0,
    ensures
        final(out)@ == old(out)@ + (if upper_first {
            seq![upper_char(w@[0])] + lower(w@.skip(1))
        } else {
            lower(w@)
        }),
{
    broadcast use vstd::string::is_ascii_spec_bytes;

    assert(vstd::string::is_ascii(w));
    let bytes = w.as_bytes();
    assert(bytes@ =~= Seq::new(w@.len(), |k: int| w@[k] as u8));
    let n = bytes.len();
    let ghost start = out@;
    let ghost target = if upper_first {
        seq![upper_char(w@[0])] + lower(w@.skip(1))
    } else {
        lower(w@)
    };
    let mut i: usize = 0;
    while i < n
        invariant
            n == w@.len(),
            i <= n,
            bytes@ =~= Seq::new(w@.len(), |k: int| w@[k] as u8),
            is_ascii_chars(w@),
            upper_first ==> n > 0,
            target == (if upper_first {
                seq![upper_char(w@[0])] + lower(w@.skip(1))
            } else {
                lower(w@)
            }),
            target.len() == n,
            out@ == start + target.take(i as int),
        decreases n - i,
    {
        let b = bytes[i];
        let c = if i == 0 && upper_first {
            upper_byte(b)
        } else {
            lower_byte(b)
        };
        proof {
            assert(target[i as int] == c as char);
            assert(target.take(i + 1) =~= target.take(i as int).push(c as char));
        }
        push_char(out, c as char);
        i = i + 1;
    }
    proof {
        assert(target.take(n as int) =~= target);
    }
}

/// `s` in ASCII lower case.
fn to_lowercase(s: &str) -> (r: String)
    requires
        is_ascii_chars(s@),
    ensures
        r@ == lower(s@),
{
    let mut r = String::new();
    push_cased(&mut r, s, false);
    assert(r@ =~= lower(s@));
    r
}

/// The word is all lower case, or a capital followed by lower case.
fn is_valid_capitalization(word: &str) -> (r: bool)
    requires
        is_ascii_chars(word@),
    ensures
        r == valid_capitalization(word@),
{
    let bytes = ascii_str_bytes(word);
    let n = bytes.len();
    let mut all_lower = true;
    let mut rest_lower = true;
    let mut i: usize = 0;
    while i < n
        invariant
            n == word@.len(),
            bytes@ == ascii_bytes(word@),
            is_ascii_chars(word@),
            i <= n,
            all_lower == (forall|k: int| 0 <= k < i ==> #[trigger] lower_char(word@[k]) == word@[k]),
            rest_lower == (forall|k: int| 1 <= k < i ==> #[trigger] lower_char(word@[k]) == word@[k]),
        decreases n - i,
    {
        let b = bytes[i];
        proof {
            lemma_ascii_roundtrip(word@[i as int]);
        }
        if lower_byte(b) != b {
            all_lower = false;
            if i > 0 {
                rest_lower = false;
            }
        }
        i = i + 1;
    }
    proof {
        let w = word@;
        if all_lower {
            assert(w =~= lower(w));
        } else {
            assert(w != lower(w)) by {
                let k = choose|k: int| 0 <= k < n && lower_char(w[k]) != w[k];
                assert(lower(w)[k] != w[k]);
            }
        }
        if n > 0 {
            if rest_lower {
                assert(w.skip(1) =~= lower(w.skip(1)));
            } else {
                assert(w.skip(1) != lower(w.skip(1))) by {
                    let k = choose|k: int| 1 <= k < n && lower_char(w[k]) != w[k];
                    assert(lower(w.skip(1))[k - 1] != w.skip(1)[k - 1]);
                }
            }
        }
    }
    if all_lower {
        return true;
    }
    if n > 0 && upper_byte(bytes[0]) == bytes[0] && rest_lower {
        proof {
            lemma_ascii_roundtrip(word@[0]);
        }
        return true;
    }
    proof {
        if n > 0 {
            lemma_ascii_roundtrip(word@[0]);
        }
    }
    false
}

/// The one-byte code of `token`, where the output ends in a plain space;
/// the space is taken off the output, since the code stands for it.
fn compress_1(
    token: &str,
    word_to_index: &IndexTables,
    compressed_bytes: &mut Vec<u8>,
    last_was_plaintext: bool,
) -> (r: Option<Vec<u8>>)
    requires
        last_was_plaintext ==> old(compressed_bytes)@.len() > 0,
    ensures
        bytes_of(r) == one_byte_code(word_to_index@, old(compressed_bytes)@, last_was_plaintext, token@),
        final(compressed_bytes)@ == (if r is Some {
            old(compressed_bytes)@.drop_last()
        } else {
            old(compressed_bytes)@
        }),
{
    if last_was_plaintext && compressed_bytes[compressed_bytes.len() - 1] == 32 {
        match word_to_index.word_index(token) {
            Some(word_index) => {
                compressed_bytes.pop();
                let mut compressed_byte: u8 = (word_index as u8) & 0x1f;
                compressed_byte = compressed_byte | 0xa0;
                let v = vec![compressed_byte];
                proof {
                    assert(v@ =~= seq![code_one(word_index)]);
                    assert(compressed_bytes@ =~= old(compressed_bytes)@.drop_last());
                }
                Some(v)
            },
            None => None,
        }
    } else {
        None
    }
}

/// The bytes that `compress_2` puts together are the two-byte code.
proof fn lemma_code_two(index: u32, newline: bool, upper: bool, b0: u8, b1: u8)
    requires
        b1 == index as u8,
        b0 == ((((((index >> 8u32) as u8) & 0x07) | (if newline { 0x10u8 } else { 0u8 })) | (if upper { 0x08u8 } else { 0u8 })) | 0xc0),
    ensures
        seq![b0, b1] =~= code_two(index, newline, upper),
{
    let hi = ((index >> 8u32) as u8) & 0x07;
    let n: u8 = if newline { 0x10u8 } else { 0u8 };
    let u: u8 = if upper { 0x08u8 } else { 0u8 };
    assert((((hi | n) | u) | 0xc0) == (hi | (n | u) | 0xc0)) by (bit_vector);
}

/// The bytes that `compress_3` puts together are the three-byte code.
proof fn lemma_code_three(index: u32, newline: bool, upper: bool, b0: u8, b1: u8, b2: u8)
    requires
        b2 == index as u8,
        b1 == (index >> 8u32) as u8,
        b0 == ((((((index >> 16u32) as u8) & 0x07) | (if newline { 0x10u8 } else { 0u8 })) | (if upper { 0x08u8 } else { 0u8 })) | 0xe0),
    ensures
        seq![b0, b1, b2] =~= code_three(index, newline, upper),
{
    let hi = ((index >> 16u32) as u8) & 0x07;
    let n: u8 = if newline { 0x10u8 } else { 0u8 };
    let u: u8 = if upper { 0x08u8 } else { 0u8 };
    assert((((hi | n) | u) | 0xe0) == (hi | (n | u) | 0xe0)) by (bit_vector);
}

/// The two-byte code of `token`, where the output ends in a plain space or
/// newline, which the code takes the place of.
fn compress_2(
    token: &str,
    word_to_index: &IndexTables,
    compressed_bytes: &mut Vec<u8>,
    last_was_plaintext: bool,
) -> (r: Option<Vec<u8>>)
    requires
        last_was_plaintext ==> old(compressed_bytes)@.len() > 0,
        is_ascii_chars(token@),
    ensures
        bytes_of(r) == two_byte_code(word_to_index@, old(compressed_bytes)@, last_was_plaintext, token@),
        final(compressed_bytes)@ == (if r is Some {
            old(compressed_bytes)@.drop_last()
        } else {
            old(compressed_bytes)@
        }),
{
    if !last_was_plaintext {
        return None;
    }
    let last_char = compressed_bytes[compressed_bytes.len() - 1];
    let tok = ascii_str_bytes(token);
    if (last_char == 32 || last_char == 10) && tok.len() >= 2 && is_valid_capitalization(token) {
        let lowered = to_lowercase(token);
        match word_to_index.word_index(lowered.as_str()) {
            Some(word_index) => {
                let b1: u8 = word_index as u8;
                let newline: u8 = if last_char == 10 { 0x10 } else { 0 };
                compressed_bytes.pop();
                proof {
                    lemma_ascii_roundtrip(token@[0]);
                }
                let capital: u8 = if upper_byte(tok[0]) == tok[0] { 0x08 } else { 0 };
                let b0: u8 = (((word_index >> 8u32) as u8) & 0x07) | newline | capital | 0xc0;
                proof {
                    lemma_code_two(word_index, last_char == 10, starts_upper(token@), b0, b1);
                    assert(compressed_bytes@ =~= old(compressed_bytes)@.drop_last());
                }
                let v = vec![b0, b1];
                assert(v@ =~= seq![b0, b1]);
                Some(v)
            },
            None => None,
        }
    } else {
        None
    }
}

/// The three-byte code of `token`, where the output ends in a plain space or
/// newline, which the code takes the place of.
fn compress_3(
    token: &str,
    word_to_index: &IndexTables,
    compressed_bytes: &mut Vec<u8>,
    last_was_plaintext: bool,
) -> (r: Option<Vec<u8>>)
    requires
        last_was_plaintext ==> old(compressed_bytes)@.len() > 0,
        is_ascii_chars(token@),
    ensures
        bytes_of(r) == three_byte_code(word_to_index@, old(compressed_bytes)@, last_was_plaintext, token@),
        final(compressed_bytes)@ == (if r is Some {
            old(compressed_bytes)@.drop_last()
        } else {
            old(compressed_bytes)@
        }),
{
    if !last_was_plaintext {
        return None;
    }
    let last_char = compressed_bytes[compressed_bytes.len() - 1];
    let tok = ascii_str_bytes(token);
    if (last_char == 32 || last_char == 10) && tok.len() >= 3 && is_valid_capitalization(token) {
        let lowered = to_lowercase(token);
        match word_to_index.word_index(lowered.as_str()) {
            Some(word_index) => {
                let b2: u8 = word_index as u8;
                let b1: u8 = (word_index >> 8u32) as u8;
                let newline: u8 = if last_char == 10 { 0x10 } else { 0 };
                compressed_bytes.pop();
                proof {
                    lemma_ascii_roundtrip(token@[0]);
                }
                let capital: u8 = if upper_byte(tok[0]) == tok[0] { 0x08 } else { 0 };
                let b0: u8 = (((word_index >> 16u32) as u8) & 0x07) | newline | capital | 0xe0;
                proof {
                    lemma_code_three(word_index, last_char == 10, starts_upper(token@), b0, b1, b2);
                    assert(compressed_bytes@ =~= old(compressed_bytes)@.drop_last());
                }
                let v = vec![b0, b1, b2];
                assert(v@ =~= seq![b0, b1, b2]);
                Some(v)
            },
            None => None,
        }
    } else {
        None
    }
}

/// The one-byte code of the longest prefix of `token`, of at most four
/// characters, that has one, followed by the rest of `token` in plain.
fn compress_beginning(
    token: &str,
    word_to_index: &IndexTables,
    compressed_bytes: &mut Vec<u8>,
    last_was_plaintext: bool,
) -> (r: Option<Vec<u8>>)
    requires
        last_was_plaintext ==> old(compressed_bytes)@.len() > 0,
        is_ascii_chars(token@),
    ensures
        bytes_of(r) == beginning_code(word_to_index@, old(compressed_bytes)@, last_was_plaintext, token@),
        final(compressed_bytes)@ == (if r is Some {
            old(compressed_bytes)@.drop_last()
        } else {
            old(compressed_bytes)@
        }),
{
    let len = ascii_str_bytes(token).len();
    let mut max_len: usize = 4;
    if len < 4 {
        max_len = len;
    }
    let ghost out = compressed_bytes@;
    let mut i = max_len;
    while i >= 1
        invariant
            i <= max_len <= len,
            len == token@.len(),
            is_ascii_chars(token@),
            max_len == (if len < 4 { len } else { 4 }),
            compressed_bytes@ == out,
            out == old(compressed_bytes)@,
            last_was_plaintext ==> out.len() > 0,
            prefix_code(word_to_index@, out, last_was_plaintext, token@, max_len as nat)
                == prefix_code(word_to_index@, out, last_was_plaintext, token@, i as nat),
        decreases i,
    {
        let prefix = token.substring_ascii(0, i);
        assert(prefix@ =~= token@.take(i as int));
        match compress_1(prefix, word_to_index, compressed_bytes, last_was_plaintext) {
            Some(x) => {
                let mut x = x;
                let rest = token.substring_ascii(i, len);
                proof {
                    assert(rest@ =~= token@.skip(i as int));
                    assert(is_ascii_chars(rest@));
                }
                extend_bytes(&mut x, ascii_str_bytes(rest));
                return Some(x);
            },
            None => {},
        }
        i = i - 1;
    }
    None
}

/// A byte of a word: an ASCII letter or digit, or `'`.
fn is_word_byte(b: u8) -> (r: bool)
    ensures
        r == is_word_char(b as char),
{
    (b >= 48 && b <= 57) || (b >= 97 && b <= 122) || (b >= 65 && b <= 90) || b == 39
}

/// Compresses ASCII text: each token that a word list holds becomes a code,
/// the rest stays plain. `None` where the text holds a character beyond
/// ASCII.
pub fn compress(text: &str, index_pairs: &EnglishTables) -> (r: Option<Vec<u8>>)
    ensures
        bytes_of(r) == compressed(index_pairs@, text@),
{
    if !text.is_ascii() {
        return None;
    }
    let ghost tabs = index_pairs@;
    let ghost s = text@;
    let bytes = ascii_str_bytes(text);
    let n = bytes.len();
    let mut compressed_bytes: Vec<u8> = Vec::new();
    let mut last_was_plaintext = false;
    let mut pos: usize = 0;
    let ghost mut done: Seq<Seq<char>> = Seq::empty();
    proof {
        assert(s.skip(0) =~= s);
        assert(done + tokens(s) =~= tokens(s));
    }
    while pos < n
        invariant
            n == s.len(),
            s == text@,
            tabs == index_pairs@,
            bytes@ == ascii_bytes(s),
            is_ascii_chars(s),
            pos <= n,
            tokens(s) == done + tokens(s.skip(pos as int)),
            (compressed_bytes@, last_was_plaintext) == compress_tokens(tabs, done),
            last_was_plaintext ==> compressed_bytes@.len() > 0,
        decreases n - pos,
    {
        let mut end = pos + 1;
        if is_word_byte(bytes[pos]) {
            while end < n && is_word_byte(bytes[end])
                invariant
                    pos < end <= n,
                    n == s.len(),
                    bytes@ == ascii_bytes(s),
                    is_ascii_chars(s),
                    forall|j: int| pos <= j < end ==> is_word_char(#[trigger] s[j]),
                decreases n - end,
            {
                proof {
                    lemma_ascii_roundtrip(s[end as int]);
                }
                end = end + 1;
            }
            proof {
                if end < n {
                    lemma_ascii_roundtrip(s[end as int]);
                }
                lemma_ascii_roundtrip(s[pos as int]);
                let u = s.skip(pos as int);
                assert forall|j: int| 0 <= j < end - pos implies is_word_char(#[trigger] u[j]) by {
                    assert(u[j] == s[pos + j]);
                }
                lemma_word_run_exact(u, end - pos);
            }
        }
        proof {
            lemma_ascii_roundtrip(s[pos as int]);
            lemma_tokens_unfold(s, pos as int, end as int);
        }
        let token = text.substring_ascii(pos, end);
        let ghost tok = token@;
        let ghost state = (compressed_bytes@, last_was_plaintext);
        proof {
            assert(tok =~= s.subrange(pos as int, end as int));
            assert(is_ascii_chars(tok));
        }
        let mut word_bytes = compress_1(token, &index_pairs.one_byte, &mut compressed_bytes, last_was_plaintext);
        if word_bytes.is_none() {
            word_bytes = compress_2(token, &index_pairs.two_byte, &mut compressed_bytes, last_was_plaintext);
        }
        if word_bytes.is_none() {
            word_bytes = compress_3(token, &index_pairs.three_byte, &mut compressed_bytes, last_was_plaintext);
        }
        if word_bytes.is_none() {
            word_bytes = compress_beginning(token, &index_pairs.one_byte, &mut compressed_bytes, last_was_plaintext);
        }
        match word_bytes {
            Some(wb) => {
                let mut wb = wb;
                compressed_bytes.append(&mut wb);
                last_was_plaintext = false;
            },
            None => {
                extend_bytes(&mut compressed_bytes, ascii_str_bytes(token));
                last_was_plaintext = true;
            },
        }
        proof {
            let prev = done;
            done = done.push(tok);
            assert(done.drop_last() =~= prev);
            assert(compress_tokens(tabs, done) == compress_step(tabs, state, tok));
            assert(tokens(s) =~= done + tokens(s.skip(end as int)));
        }
        pos = end;
    }
    proof {
        assert(s.skip(n as int) =~= Seq::<char>::empty());
        assert(done + Seq::<Seq<char>>::empty() =~= done);
    }
    Some(compressed_bytes)
}

/// The word under a one-byte code, after its space.
fn decompress_1(byte: u8, index_to_word: &IndexTables) -> (r: Option<String>)
    ensures
        match r {
            Some(s) => (byte & 0x1f) < index_to_word@.len() && s@ == seq![' '] + index_to_word@[(byte & 0x1f) as int],
            None => (byte & 0x1f) >= index_to_word@.len(),
        },
{
    let word_index: u32 = (byte & 0x1f) as u32;
    match index_to_word.word_at(word_index) {
        Some(w) => {
            let mut s = String::new();
            push_char(&mut s, ' ');
            s.append(w.as_str());
            Some(s)
        },
        None => None,
    }
}

/// The word under a two-byte code, after its space or newline.
fn decompress_2(bytes: &[u8], index_to_word: &IndexTables) -> (r: Option<String>)
    requires
        bytes@.len() == 2,
        (two_byte_index(bytes@[0], bytes@[1]) as int) < index_to_word@.len(),
        !(cased_word(
            index_to_word@[two_byte_index(bytes@[0], bytes@[1]) as int],
            bytes@[0] & 0x10 != 0,
            bytes@[0] & 0x08 != 0,
        ) is Unreadable),
    ensures
        r is Some,
        cased_word(
            index_to_word@[two_byte_index(bytes@[0], bytes@[1]) as int],
            bytes@[0] & 0x10 != 0,
            bytes@[0] & 0x08 != 0,
        ) == Decoded::Text(r->0@),
{
    let mut word_index: u32 = ((bytes[0] as u32) << 8u32) | bytes[1] as u32;
    word_index = word_index & 0x7ff;
    let word = match index_to_word.word_at(word_index) {
        Some(w) => w,
        None => { return None; },
    };
    let mut s = String::new();
    if bytes[0] & 0x10 == 0 {
        push_char(&mut s, ' ');
    } else {
        push_char(&mut s, '\n');
    }
    let ghost prev = s@;
    push_cased(&mut s, word.as_str(), bytes[0] & 0x08 != 0);
    proof {
        let w = word@;
        if bytes[0] & 0x08 != 0 {
            assert(s@ =~= seq![prev[0], upper_char(w[0])] + lower(w.skip(1)));
        } else {
            assert(s@ =~= seq![prev[0]] + lower(w));
        }
    }
    Some(s)
}

/// The word under a three-byte code, after its space or newline.
fn decompress_3(bytes: &[u8], index_to_word: &IndexTables) -> (r: Option<String>)
    requires
        bytes@.len() == 3,
        (three_byte_index(bytes@[0], bytes@[1], bytes@[2]) as int) < index_to_word@.len(),
        !(cased_word(
            index_to_word@[three_byte_index(bytes@[0], bytes@[1], bytes@[2]) as int],
            bytes@[0] & 0x10 != 0,
            bytes@[0] & 0x08 != 0,
        ) is Unreadable),
    ensures
        r is Some,
        cased_word(
            index_to_word@[three_byte_index(bytes@[0], bytes@[1], bytes@[2]) as int],
            bytes@[0] & 0x10 != 0,
            bytes@[0] & 0x08 != 0,
        ) == Decoded::Text(r->0@),
{
    let mut word_index: u32 = ((bytes[0] as u32) << 16u32) | ((bytes[1] as u32) << 8u32) | bytes[2] as u32;
    word_index = word_index & 0x7ffff;
    let word = match index_to_word.word_at(word_index) {
        Some(w) => w,
        None => { return None; },
    };
    let mut s = String::new();
    if bytes[0] & 0x10 == 0 {
        push_char(&mut s, ' ');
    } else {
        push_char(&mut s, '\n');
    }
    let ghost prev = s@;
    push_cased(&mut s, word.as_str(), bytes[0] & 0x08 != 0);
    proof {
        let w = word@;
        if bytes[0] & 0x08 != 0 {
            assert(s@ =~= seq![prev[0], upper_char(w[0])] + lower(w.skip(1)));
        } else {
            assert(s@ =~= seq![prev[0]] + lower(w));
        }
    }
    Some(s)
}

/// Whether `decompress` can be asked to read `compressed_bytes`: up to the
/// first code that has no word, no code is cut short by the end of the
/// input, indexes past the two- or three-byte list, or asks a capital of an
/// empty word.
pub fn is_readable(compressed_bytes: &[u8], index_pairs: &EnglishTables) -> (r: bool)
    ensures
        r == !(decode(index_pairs@, compressed_bytes@) is Unreadable),
{
    let ghost tabs = index_pairs@;
    let ghost s = compressed_bytes@;
    let n = compressed_bytes.len();
    let mut i: usize = 0;
    proof {
        assert(s.skip(0) =~= s);
    }
    while i < n
        invariant
            n == s.len(),
            i <= n,
            s == compressed_bytes@,
            tabs == index_pairs@,
            (decode(tabs, s) is Unreadable) == (decode(tabs, s.skip(i as int)) is Unreadable),
            (decode(tabs, s) is Invalid) == (decode(tabs, s.skip(i as int)) is Invalid),
        decreases n - i,
    {
        let ghost rest = s.skip(i as int);
        proof {
            lemma_decode_step(tabs, s, i as int);
            assert(rest[0] == s[i as int]);
        }
        let b = compressed_bytes[i];
        if b < 128 {
            i = i + 1;
        } else {
            let encoding_length = (b & 0x60) >> 5;
            assert(encoding_length == code_length(b));
            if encoding_length == 1 {
                if ((b & 0x1f) as usize) < index_pairs.one_byte.len() {
                    i = i + 1;
                } else {
                    return true;
                }
            } else if encoding_length == 2 || encoding_length == 3 {
                let len: usize = if encoding_length == 2 { 2 } else { 3 };
                if n - i < len {
                    return false;
                }
                proof {
                    assert(rest[1] == s[i + 1]);
                    if len == 3 {
                        assert(rest[2] == s[i + 2]);
                    }
                }
                let word = if encoding_length == 2 {
                    let mut word_index: u32 = ((b as u32) << 8u32) | compressed_bytes[i + 1] as u32;
                    word_index = word_index & 0x7ff;
                    index_pairs.two_byte.word_at(word_index)
                } else {
                    let mut word_index: u32 = ((b as u32) << 16u32) | ((compressed_bytes[i + 1] as u32) << 8u32) | compressed_bytes[i + 2] as u32;
                    word_index = word_index & 0x7ffff;
                    index_pairs.three_byte.word_at(word_index)
                };
                match word {
                    Some(w) => {
                        if b & 0x08 != 0 && w.as_str().is_empty() {
                            return false;
                        }
                    },
                    None => {
                        return false;
                    },
                }
                i = i + len;
            } else {
                return true;
            }
        }
    }
    proof {
        assert(s.skip(n as int) =~= Seq::<u8>::empty());
    }
    true
}

/// Decompresses a byte string: plain bytes are copied, codes are replaced
/// by their words. `None` where a code has no word: a one-byte index past
/// its list, or code length 0.
pub fn decompress(compressed_bytes: &[u8], index_pairs: &EnglishTables) -> (r: Option<String>)
    requires
        !(decode(index_pairs@, compressed_bytes@) is Unreadable),
    ensures
        match decode(index_pairs@, compressed_bytes@) {
            Decoded::Text(t) => r is Some && r->0@ == t,
            _ => r is None,
        },
{
    let ghost tabs = index_pairs@;
    let ghost s = compressed_bytes@;
    let n = compressed_bytes.len();
    let mut decompressed_text = String::new();
    let mut i: usize = 0;
    proof {
        assert(s.skip(0) =~= s);
        assert(decompressed_text@ + Seq::<char>::empty() =~= Seq::<char>::empty());
    }
    while i < n
        invariant
            n == s.len(),
            i <= n,
            s == compressed_bytes@,
            tabs == index_pairs@,
            decode(tabs, s) == prepend(decompressed_text@, decode(tabs, s.skip(i as int))),
            !(decode(tabs, s) is Unreadable),
        decreases n - i,
    {
        let ghost rest = s.skip(i as int);
        let ghost text = decompressed_text@;
        proof {
            lemma_decode_step(tabs, s, i as int);
            assert(rest[0] == s[i as int]);
        }
        let b = compressed_bytes[i];
        let ghost unit = decode_unit(tabs, rest);
        let ghost len = unit.0;
        if b >= 128 {
            let encoding_length = (b & 0x60) >> 5;
            assert(encoding_length == code_length(b));
            if encoding_length == 1 {
                match decompress_1(b, &index_pairs.one_byte) {
                    Some(x) => {
                        decompressed_text.append(x.as_str());
                        proof {
                            assert(unit.1 == Decoded::Text(x@));
                            lemma_prepend_prepend(text, x@, decode(tabs, s.skip(i + 1)));
                        }
                    },
                    None => {
                        return None;
                    },
                }
                i = i + 1;
            } else if encoding_length == 2 {
                let x = decompress_2(&compressed_bytes[i..i + 2], &index_pairs.two_byte);
                let x = x.unwrap();
                decompressed_text.append(x.as_str());
                proof {
                    assert(unit.1 == Decoded::Text(x@));
                    lemma_prepend_prepend(text, x@, decode(tabs, s.skip(i + 2)));
                }
                i = i + 2;
            } else if encoding_length == 3 {
                let x = decompress_3(&compressed_bytes[i..i + 3], &index_pairs.three_byte);
                let x = x.unwrap();
                decompressed_text.append(x.as_str());
                proof {
                    assert(unit.1 == Decoded::Text(x@));
                    lemma_prepend_prepend(text, x@, decode(tabs, s.skip(i + 3)));
                }
                i = i + 3;
            } else {
                return None;
            }
        } else {
            push_char(&mut decompressed_text, b as char);
            proof {
                assert(unit.1 == Decoded::Text(seq![b as char]));
                lemma_prepend_prepend(text, seq![b as char], decode(tabs, s.skip(i + 1)));
                assert(decompressed_text@ =~= text + seq![b as char]);
            }
            i = i + 1;
        }
    }
    proof {
        assert(s.skip(n as int) =~= Seq::<u8>::empty());
        assert(decompressed_text@ + Seq::<char>::empty() =~= decompressed_text@);
    }
    Some(decompressed_text)
}

} // verus!
