//! What holds of the format as a whole: decoding reads plain bytes back as
//! themselves, and decoding what compression wrote gives the text back; how
//! a text falls into words, which code a word gets, how the codes are laid
//! out, how case is mapped, and what a word list's lines are.

use vstd::prelude::*;
use vstd::utf8::is_ascii_chars;
use crate::ascii::{ascii_bytes, bytes_text, lemma_ascii_roundtrip, lemma_case_chars, lower, upper_char};
use crate::word_table::{lemma_table_index, lemma_word_lines_len, table_index, word_lines};
use crate::ascii::{is_word_char, lower_char};
use crate::format::{
    cased_word, code_flags, code_length, code_one, code_three, code_two, compress_tokens,
    compress_step, compressed, decode, decode_unit, lemma_decode_unit_len, prepend,
    three_byte_index, tokens, two_byte_index, Decoded, Tables, first_token_len, lemma_word_run,
    one_byte_code, two_byte_code, three_byte_code, prefix_code, beginning_code,
    valid_capitalization, starts_upper, lemma_word_run_exact,
};

verus! {

/// Decoding a byte string that begins with a complete text reads that text
/// and then carries on with the rest.
pub proof fn lemma_decode_append(tabs: Tables, a: Seq<u8>, b: Seq<u8>)
    requires
        decode(tabs, a) is Text,
    ensures
        decode(tabs, a + b) == prepend(decode(tabs, a)->Text_0, decode(tabs, b)),
    decreases a.len(),
{
    if a.len() == 0 {
        assert(a + b =~= b);
        if let Decoded::Text(r) = decode(tabs, b) {
            assert(Seq::<char>::empty() + r =~= r);
        }
    } else {
        lemma_decode_unit_len(tabs, a);
        let (n, d) = decode_unit(tabs, a);
        let ab = a + b;
        assert(ab[0] == a[0]);
        if a.len() >= 2 {
            assert(ab[1] == a[1]);
        }
        if a.len() >= 3 {
            assert(ab[2] == a[2]);
        }
        assert(decode_unit(tabs, ab) == decode_unit(tabs, a));
        lemma_decode_unit_len(tabs, ab);
        let w = d->Text_0;
        assert(ab.skip(n) =~= a.skip(n) + b);
        lemma_decode_append(tabs, a.skip(n), b);
        let y = decode(tabs, a.skip(n))->Text_0;
        if let Decoded::Text(r) = decode(tabs, b) {
            assert(w + (y + r) =~= (w + y) + r);
        }
    }
}

/// Bytes below 128 decode to the characters they are, one for one.
pub proof fn lemma_plain_bytes_decode(tabs: Tables, s: Seq<u8>)
    requires
        forall|i: int| 0 <= i < s.len() ==> s[i] < 128,
    ensures
        decode(tabs, s) == Decoded::Text(bytes_text(s)),
    decreases s.len(),
{
    if s.len() > 0 {
        let rest = s.skip(1);
        assert forall|i: int| 0 <= i < rest.len() implies rest[i] < 128 by {
            assert(rest[i] == s[i + 1]);
        }
        lemma_plain_bytes_decode(tabs, rest);
        lemma_decode_unit_len(tabs, s);
        assert(decode_unit(tabs, s) == (1int, Decoded::Text(seq![s[0] as char])));
        assert(seq![s[0] as char] + bytes_text(rest) =~= bytes_text(s));
    } else {
        assert(bytes_text(s) =~= Seq::<char>::empty());
    }
}

/// An ASCII text written in plain decodes to itself.
pub proof fn lemma_ascii_text_decode(tabs: Tables, t: Seq<char>)
    requires
        is_ascii_chars(t),
    ensures
        decode(tabs, ascii_bytes(t)) == Decoded::Text(t),
{
    let s = ascii_bytes(t);
    assert forall|i: int| 0 <= i < s.len() implies s[i] < 128 by {
        lemma_ascii_roundtrip(t[i]);
    }
    lemma_plain_bytes_decode(tabs, s);
    assert forall|i: int| 0 <= i < t.len() implies bytes_text(s)[i] == t[i] by {
        lemma_ascii_roundtrip(t[i]);
    }
    assert(bytes_text(s) =~= t);
}

proof fn lemma_decode_single_unit(tabs: Tables, s: Seq<u8>)
    requires
        s.len() > 0,
        decode_unit(tabs, s).0 == s.len(),
    ensures
        decode(tabs, s) == decode_unit(tabs, s).1,
{
    lemma_decode_unit_len(tabs, s);
    let (n, d) = decode_unit(tabs, s);
    if let Decoded::Text(w) = d {
        assert(s.skip(n) =~= Seq::<u8>::empty());
        assert(decode(tabs, s.skip(n)) == Decoded::Text(Seq::<char>::empty()));
        assert(w + Seq::<char>::empty() =~= w);
    }
}

/// A one-byte code decodes to a space and the word under its index.
pub proof fn lemma_code_one_decodes(tabs: Tables, index: u32)
    requires
        index < 32,
        index < tabs.0.len(),
    ensures
        decode(tabs, seq![code_one(index)]) == Decoded::Text(seq![' '] + tabs.0[index as int]),
{
    let c = code_one(index);
    assert(index < 32 ==> ((((index as u8) & 0x1f) | 0xa0) >= 128 && (((((index as u8) & 0x1f)
        | 0xa0) & 0x60) >> 5) == 1 && ((((index as u8) & 0x1f) | 0xa0) & 0x1f) as u32 == index))
        by (bit_vector);
    let s = seq![c];
    assert(s[0] == c);
    assert(code_length(c) == 1);
    lemma_decode_single_unit(tabs, s);
}

proof fn lemma_flags(newline: bool, upper: bool)
    ensures
        code_flags(newline, upper) == 0 || code_flags(newline, upper) == 8
            || code_flags(newline, upper) == 16 || code_flags(newline, upper) == 24,
        newline == (code_flags(newline, upper) & 0x10 != 0),
        upper == (code_flags(newline, upper) & 0x08 != 0),
{
    let f = code_flags(newline, upper);
    if newline {
        if upper {
            assert((0x10u8 | 0x08u8) == 24u8) by (bit_vector);
        } else {
            assert((0x10u8 | 0u8) == 16u8) by (bit_vector);
        }
    } else {
        if upper {
            assert((0u8 | 0x08u8) == 8u8) by (bit_vector);
        } else {
            assert((0u8 | 0u8) == 0u8) by (bit_vector);
        }
    }
    assert((f == 0 || f == 8 || f == 16 || f == 24) ==> ((f & 0x10 != 0) == (f == 16 || f == 24)
        && (f & 0x08 != 0) == (f == 8 || f == 24))) by (bit_vector);
}

/// A two-byte code decodes to the word under its index, after the space or
/// newline and in the case that its flags give.
pub proof fn lemma_code_two_decodes(tabs: Tables, index: u32, newline: bool, upper: bool)
    requires
        index < 2048,
        index < tabs.1.len(),
    ensures
        decode(tabs, code_two(index, newline, upper)) == cased_word(tabs.1[index as int], newline, upper),
{
    let f = code_flags(newline, upper);
    lemma_flags(newline, upper);
    let s = code_two(index, newline, upper);
    let b0 = s[0];
    let b1 = s[1];
    assert(b0 == (((index >> 8u32) as u8) & 0x07) | f | 0xc0);
    assert(b1 == index as u8);
    assert((index < 2048 && (f == 0 || f == 8 || f == 16 || f == 24) && b0 == (((index >> 8u32) as u8)
        & 0x07) | f | 0xc0 && b1 == index as u8) ==> (b0 >= 128 && ((b0 & 0x60) >> 5) == 2 && (b0
        & 0x10 != 0) == (f & 0x10 != 0) && (b0 & 0x08 != 0) == (f & 0x08 != 0) && ((((b0 as u32)
        << 8u32) | (b1 as u32)) & 0x7ff) == index)) by (bit_vector);
    assert(two_byte_index(b0, b1) == index);
    lemma_decode_single_unit(tabs, s);
}

/// A three-byte code decodes to the word under its index, after the space
/// or newline and in the case that its flags give.
pub proof fn lemma_code_three_decodes(tabs: Tables, index: u32, newline: bool, upper: bool)
    requires
        index < 0x80000,
        index < tabs.2.len(),
    ensures
        decode(tabs, code_three(index, newline, upper)) == cased_word(tabs.2[index as int], newline, upper),
{
    let f = code_flags(newline, upper);
    lemma_flags(newline, upper);
    let s = code_three(index, newline, upper);
    let b0 = s[0];
    let b1 = s[1];
    let b2 = s[2];
    assert(b0 == (((index >> 16u32) as u8) & 0x07) | f | 0xe0);
    assert(b1 == (index >> 8u32) as u8);
    assert(b2 == index as u8);
    assert((index < 0x80000 && (f == 0 || f == 8 || f == 16 || f == 24) && b0 == (((index
        >> 16u32) as u8) & 0x07) | f | 0xe0 && b1 == (index >> 8u32) as u8 && b2 == index as u8)
        ==> (b0 >= 128 && ((b0 & 0x60) >> 5) == 3 && (b0 & 0x10 != 0) == (f & 0x10 != 0) && (b0
        & 0x08 != 0) == (f & 0x08 != 0) && ((((b0 as u32) << 16u32) | ((b1 as u32) << 8u32) | (
        b2 as u32)) & 0x7ffff) == index)) by (bit_vector);
    assert(three_byte_index(b0, b1, b2) == index);
    lemma_decode_single_unit(tabs, s);
}

/// The word lists leave room for the codes: each word of the one-byte list
/// stands at an index below 32, of the two-byte list below 2048, of the
/// three-byte list below 2^19. (Empty lines are never looked up.)
pub open spec fn codes_fit(tabs: Tables) -> bool {
    &&& forall|i: int| 0 <= i < tabs.0.len() && #[trigger] tabs.0[i].len() > 0 ==> i < 32
    &&& forall|i: int| 0 <= i < tabs.1.len() && #[trigger] tabs.1[i].len() > 0 ==> i < 2048
    &&& forall|i: int| 0 <= i < tabs.2.len() && #[trigger] tabs.2[i].len() > 0 ==> i < 0x80000
}

proof fn lemma_lower_idempotent(s: Seq<char>)
    ensures
        lower(lower(s)) == lower(s),
        lower(s).len() == s.len(),
{
    assert forall|i: int| 0 <= i < s.len() implies lower(lower(s))[i] == lower(s)[i] by {
        lemma_case_chars(s[i]);
    }
    assert(lower(lower(s)) =~= lower(s));
}

/// A validly capitalized ASCII word is read back from its lower case form
/// and its capital flag.
proof fn lemma_cased_lower(tok: Seq<char>, newline: bool)
    requires
        is_ascii_chars(tok),
        tok.len() > 0,
        valid_capitalization(tok),
    ensures
        cased_word(lower(tok), newline, starts_upper(tok)) == Decoded::Text(
            seq![if newline { '\n' } else { ' ' }] + tok,
        ),
{
    let prev = if newline { '\n' } else { ' ' };
    let w = lower(tok);
    lemma_lower_idempotent(tok);
    assert(lower(tok.skip(1)) =~= w.skip(1));
    lemma_lower_idempotent(tok.skip(1));
    if starts_upper(tok) {
        lemma_case_chars(tok[0]);
        assert(tok.skip(1) == lower(tok.skip(1))) by {
            if tok == lower(tok) {
                assert(tok.skip(1) =~= lower(tok).skip(1));
            }
        }
        assert(seq![prev, upper_char(w[0])] + lower(w.skip(1)) =~= seq![prev] + tok);
    } else {
        assert(seq![prev] + lower(w) =~= seq![prev] + tok);
    }
}

/// The prefix whose code `prefix_code` found.
proof fn prefix_witness(t1: Seq<Seq<char>>, out: Seq<u8>, plain: bool, tok: Seq<char>, i: nat) -> (j: nat)
    requires
        prefix_code(t1, out, plain, tok, i) is Some,
        i <= tok.len(),
    ensures
        1 <= j <= i,
        one_byte_code(t1, out, plain, tok.take(j as int)) is Some,
        prefix_code(t1, out, plain, tok, i) == Some(
            one_byte_code(t1, out, plain, tok.take(j as int))->0 + ascii_bytes(tok.skip(j as int)),
        ),
    decreases i,
{
    if one_byte_code(t1, out, plain, tok.take(i as int)) is Some {
        i
    } else {
        prefix_witness(t1, out, plain, tok, (i - 1) as nat)
    }
}

/// The tokens of a text are non-empty and make up the text, in order.
pub proof fn lemma_tokens(s: Seq<char>)
    ensures
        tokens(s).flatten() == s,
        forall|k: int| 0 <= k < tokens(s).len() ==> #[trigger] tokens(s)[k].len() > 0,
        is_ascii_chars(s) ==> forall|k: int| 0 <= k < tokens(s).len() ==> is_ascii_chars(#[trigger] tokens(s)[k]),
    decreases s.len(),
{
    broadcast use Seq::lemma_flatten_singleton;

    if s.len() == 0 {
        assert(tokens(s).flatten() =~= s);
    } else {
        lemma_word_run(s);
        let n = first_token_len(s) as int;
        assert(n >= 1);
        let rest = s.skip(n);
        lemma_tokens(rest);
        let t = seq![s.take(n)];
        assert(tokens(s) == t + tokens(rest));
        vstd::seq_lib::lemma_flatten_concat(t, tokens(rest));
        assert(t.flatten() == s.take(n));
        assert(s.take(n) + rest =~= s);
        assert forall|k: int| 0 <= k < tokens(s).len() implies #[trigger] tokens(s)[k].len() > 0 by {
            if k > 0 {
                assert(tokens(s)[k] == tokens(rest)[k - 1]);
            }
        }
        if is_ascii_chars(s) {
            assert(is_ascii_chars(rest));
            assert forall|k: int| 0 <= k < tokens(s).len() implies is_ascii_chars(#[trigger] tokens(s)[k]) by {
                if k > 0 {
                    assert(tokens(s)[k] == tokens(rest)[k - 1]);
                } else {
                    assert(tokens(s)[0] == s.take(n));
                }
            }
        }
    }
}

/// `out` decodes to the text of `toks`; after a token in plain, its last
/// byte is the text's last character and the bytes before it decode to the
/// rest.
spec fn writes(tabs: Tables, toks: Seq<Seq<char>>, out: Seq<u8>, plain: bool) -> bool {
    let f = toks.flatten();
    &&& decode(tabs, out) == Decoded::Text(f)
    &&& plain ==> {
        &&& out.len() > 0
        &&& f.len() > 0
        &&& (f.last() as u32) < 128
        &&& out.last() == f.last() as u8
        &&& decode(tabs, out.drop_last()) == Decoded::Text(f.drop_last())
    }
}

/// A code that stands for the plain space or newline `prev` at the end of
/// `out` and for `tok` after it.
proof fn lemma_code_in_place(
    tabs: Tables,
    toks: Seq<Seq<char>>,
    out: Seq<u8>,
    tok: Seq<char>,
    code: Seq<u8>,
    prev: char,
)
    requires
        writes(tabs, toks, out, true),
        prev == ' ' || prev == '\n',
        out.last() == prev as u8,
        decode(tabs, code) == Decoded::Text(seq![prev] + tok),
    ensures
        decode(tabs, out.drop_last() + code) == Decoded::Text(toks.push(tok).flatten()),
{
    broadcast use Seq::lemma_flatten_push;

    let f = toks.flatten();
    lemma_ascii_roundtrip(f.last());
    assert(f.last() == prev);
    lemma_decode_append(tabs, out.drop_last(), code);
    assert(f.drop_last() + (seq![prev] + tok) =~= f + tok);
}

proof fn lemma_step(tabs: Tables, toks: Seq<Seq<char>>, out: Seq<u8>, plain: bool, tok: Seq<char>)
    requires
        codes_fit(tabs),
        writes(tabs, toks, out, plain),
        tok.len() > 0,
        is_ascii_chars(tok),
    ensures
        writes(
            tabs,
            toks.push(tok),
            compress_step(tabs, (out, plain), tok).0,
            compress_step(tabs, (out, plain), tok).1,
        ),
{
    broadcast use Seq::lemma_flatten_push;

    let f = toks.flatten();
    let f2 = toks.push(tok).flatten();
    assert(f2 == f + tok);
    let (t1, t2, t3) = tabs;
    if let Some(c) = one_byte_code(t1, out, plain, tok) {
        let i = table_index(t1, tok);
        lemma_table_index(t1, tok);
        assert(t1[i].len() > 0);
        lemma_code_one_decodes(tabs, i as u32);
        lemma_code_in_place(tabs, toks, out, tok, c, ' ');
    } else if let Some(c) = two_byte_code(t2, out, plain, tok) {
        let w = lower(tok);
        let i = table_index(t2, w);
        lemma_table_index(t2, w);
        lemma_lower_idempotent(tok);
        assert(t2[i].len() > 0);
        let nl = out.last() == 10;
        lemma_code_two_decodes(tabs, i as u32, nl, starts_upper(tok));
        lemma_cased_lower(tok, nl);
        lemma_code_in_place(tabs, toks, out, tok, c, if nl { '\n' } else { ' ' });
    } else if let Some(c) = three_byte_code(t3, out, plain, tok) {
        let w = lower(tok);
        let i = table_index(t3, w);
        lemma_table_index(t3, w);
        lemma_lower_idempotent(tok);
        assert(t3[i].len() > 0);
        let nl = out.last() == 10;
        lemma_code_three_decodes(tabs, i as u32, nl, starts_upper(tok));
        lemma_cased_lower(tok, nl);
        lemma_code_in_place(tabs, toks, out, tok, c, if nl { '\n' } else { ' ' });
    } else if let Some(c) = beginning_code(t1, out, plain, tok) {
        let m = if tok.len() < 4 { tok.len() } else { 4 };
        let j = prefix_witness(t1, out, plain, tok, m);
        let head = tok.take(j as int);
        let tail = tok.skip(j as int);
        let i = table_index(t1, head);
        lemma_table_index(t1, head);
        assert(t1[i].len() > 0);
        lemma_code_one_decodes(tabs, i as u32);
        let c1 = seq![crate::format::code_one(i as u32)];
        assert(is_ascii_chars(tail));
        lemma_ascii_text_decode(tabs, tail);
        lemma_decode_append(tabs, c1, ascii_bytes(tail));
        assert(seq![' '] + head + tail =~= seq![' '] + tok);
        lemma_code_in_place(tabs, toks, out, tok, c, ' ');
    } else {
        let b = ascii_bytes(tok);
        lemma_ascii_text_decode(tabs, tok);
        lemma_decode_append(tabs, out, b);
        let out2 = out + b;
        lemma_ascii_text_decode(tabs, tok.drop_last());
        assert(out2.drop_last() =~= out + ascii_bytes(tok.drop_last()));
        lemma_decode_append(tabs, out, ascii_bytes(tok.drop_last()));
        assert(f2.drop_last() =~= f + tok.drop_last());
        assert(f2.last() == tok.last());
    }
}

proof fn lemma_compress_tokens_writes(tabs: Tables, toks: Seq<Seq<char>>)
    requires
        codes_fit(tabs),
        forall|k: int| 0 <= k < toks.len() ==> #[trigger] toks[k].len() > 0,
        forall|k: int| 0 <= k < toks.len() ==> is_ascii_chars(#[trigger] toks[k]),
    ensures
        writes(tabs, toks, compress_tokens(tabs, toks).0, compress_tokens(tabs, toks).1),
    decreases toks.len(),
{
    if toks.len() == 0 {
        assert(toks.flatten() =~= Seq::<char>::empty());
    } else {
        let prev = toks.drop_last();
        lemma_compress_tokens_writes(tabs, prev);
        let st = compress_tokens(tabs, prev);
        assert(prev.push(toks.last()) =~= toks);
        lemma_step(tabs, prev, st.0, st.1, toks.last());
    }
}

/// Decompression undoes compression: for every ASCII text, whatever word
/// lists leave room for their codes, the compressed form decodes to the
/// text itself.
pub proof fn lemma_roundtrip(tabs: Tables, text: Seq<char>)
    requires
        is_ascii_chars(text),
        codes_fit(tabs),
    ensures
        compressed(tabs, text) is Some,
        decode(tabs, compressed(tabs, text)->0) == Decoded::Text(text),
{
    lemma_tokens(text);
    lemma_compress_tokens_writes(tabs, tokens(text));
}

proof fn lemma_step_len(tabs: Tables, out: Seq<u8>, plain: bool, tok: Seq<char>)
    ensures
        compress_step(tabs, (out, plain), tok).0.len() <= out.len() + tok.len(),
{
    let (t1, t2, t3) = tabs;
    if one_byte_code(t1, out, plain, tok) is Some {
    } else if two_byte_code(t2, out, plain, tok) is Some {
    } else if three_byte_code(t3, out, plain, tok) is Some {
    } else if beginning_code(t1, out, plain, tok) is Some {
        let m = if tok.len() < 4 { tok.len() } else { 4 };
        let j = prefix_witness(t1, out, plain, tok, m);
    }
}

proof fn lemma_compress_tokens_len(tabs: Tables, toks: Seq<Seq<char>>)
    ensures
        compress_tokens(tabs, toks).0.len() <= toks.flatten().len(),
    decreases toks.len(),
{
    broadcast use Seq::lemma_flatten_push;

    if toks.len() == 0 {
        assert(toks.flatten() =~= Seq::<char>::empty());
    } else {
        let prev = toks.drop_last();
        lemma_compress_tokens_len(tabs, prev);
        let st = compress_tokens(tabs, prev);
        assert(prev.push(toks.last()) =~= toks);
        lemma_step_len(tabs, st.0, st.1, toks.last());
    }
}

/// Compression never makes a text longer: a word is coded only where its
/// code takes no more room than the word and the space before it.
pub proof fn lemma_compressed_len(tabs: Tables, text: Seq<char>)
    requires
        is_ascii_chars(text),
    ensures
        compressed(tabs, text) is Some,
        compressed(tabs, text)->0.len() <= text.len(),
{
    lemma_tokens(text);
    lemma_compress_tokens_len(tabs, tokens(text));
}

// ------------------------------------------------------ letters and case

/// An ASCII capital letter, `'A'` to `'Z'`.
pub open spec fn is_capital(c: char) -> bool {
    'A' <= c && c <= 'Z'
}

/// An ASCII small letter, `'a'` to `'z'`.
pub open spec fn is_small(c: char) -> bool {
    'a' <= c && c <= 'z'
}

/// A character that belongs inside a word: an ASCII letter or digit, or the
/// apostrophe.
pub open spec fn letter_digit_or_apostrophe(c: char) -> bool {
    is_capital(c) || is_small(c) || ('0' <= c && c <= '9') || c == '\''
}

/// `d` is `c` in lower case: a capital becomes its small letter (32 code
/// points on), every other character stays, and no capital is left.
pub open spec fn lowered_from(c: char, d: char) -> bool {
    &&& !is_capital(d)
    &&& is_capital(c) ==> d as u32 == c as u32 + 32
    &&& !is_capital(c) ==> d == c
}

/// `d` is `c` as a capital: a small letter becomes its capital (32 code
/// points back), every other character stays, and no small letter is left.
pub open spec fn raised_from(c: char, d: char) -> bool {
    &&& !is_small(d)
    &&& is_small(c) ==> d as u32 + 32 == c as u32
    &&& !is_small(c) ==> d == c
}

proof fn lemma_lower_chars(s: Seq<char>)
    ensures
        lower(s).len() == s.len(),
        forall|j: int| 0 <= j < s.len() ==> lowered_from(s[j], #[trigger] lower(s)[j]),
{
    assert forall|j: int| 0 <= j < s.len() implies lowered_from(s[j], #[trigger] lower(s)[j]) by {
        lemma_case_chars(s[j]);
    }
}

proof fn lemma_word_lines_lower(s: Seq<char>)
    ensures
        word_lines(lower(s)) == word_lines(s).map_values(|l: Seq<char>| lower(l)),
    decreases s.len(),
{
    lemma_word_lines_len(s);
    if s.len() == 0 {
        assert(lower(s) =~= Seq::<char>::empty());
        let e = Seq::<char>::empty();
        assert(lower(e) =~= e);
        assert(word_lines(e) == seq![e]);
        assert(word_lines(lower(s)) == seq![e]);
        assert(word_lines(s).map_values(|l: Seq<char>| lower(l))[0] == lower(e));
        assert(word_lines(lower(s)) =~= word_lines(s).map_values(|l: Seq<char>| lower(l)));
    } else {
        let p = s.drop_last();
        assert(lower(s).drop_last() =~= lower(p));
        lemma_word_lines_lower(p);
        lemma_word_lines_len(p);
        let c = s.last();
        lemma_case_chars(c);
        assert(lower(s).last() == lower_char(c));
        assert(lower(s).len() > 0);
        let r = word_lines(p);
        if c == '\n' {
            assert(lower(seq![]) =~= Seq::<char>::empty());
            assert(word_lines(lower(s)) =~= word_lines(s).map_values(|l: Seq<char>| lower(l)));
        } else if c == '\r' {
            assert(word_lines(lower(s)) =~= word_lines(s).map_values(|l: Seq<char>| lower(l)));
        } else {
            assert(lower(r.last().push(c)) =~= lower(r.last()).push(lower_char(c)));
            assert(word_lines(lower(s)) =~= word_lines(s).map_values(|l: Seq<char>| lower(l)));
        }
    }
}

/// The two- and three-byte lists are the lines of their texts in lower
/// case: line for line and character for character, each capital turned to
/// its small letter and nothing else changed, so no capital is left in them.
pub proof fn lemma_lowered_word_lines(s: Seq<char>)
    ensures
        word_lines(lower(s)).len() == word_lines(s).len(),
        forall|i: int| 0 <= i < word_lines(s).len() ==>
            (#[trigger] word_lines(lower(s))[i]).len() == word_lines(s)[i].len(),
        forall|i: int, j: int| 0 <= i < word_lines(s).len() && 0 <= j < word_lines(s)[i].len() ==>
            lowered_from(word_lines(s)[i][j], #[trigger] word_lines(lower(s))[i][j]),
{
    lemma_word_lines_lower(s);
    assert forall|i: int, j: int| 0 <= i < word_lines(s).len() && 0 <= j < word_lines(s)[i].len()
        implies lowered_from(word_lines(s)[i][j], #[trigger] word_lines(lower(s))[i][j]) by {
        lemma_lower_chars(word_lines(s)[i]);
    }
    assert forall|i: int| 0 <= i < word_lines(s).len() implies
        (#[trigger] word_lines(lower(s))[i]).len() == word_lines(s)[i].len() by {
        lemma_lower_chars(word_lines(s)[i]);
    }
}

/// The word of a two- or three-byte code comes out after its space or
/// newline, its first letter a capital where the capital flag is set and in
/// lower case otherwise, and every later letter in lower case. Only a
/// capital asked of an empty word cannot be read.
pub proof fn lemma_cased_word_letters(w: Seq<char>, newline: bool, upper: bool)
    ensures
        (cased_word(w, newline, upper) is Unreadable) == (upper && w.len() == 0),
        cased_word(w, newline, upper) matches Decoded::Text(t) ==> {
            &&& t.len() == w.len() + 1
            &&& t[0] == (if newline { '\n' } else { ' ' })
            &&& upper ==> raised_from(w[0], t[1])
            &&& !upper && w.len() > 0 ==> lowered_from(w[0], t[1])
            &&& forall|j: int| 1 <= j < w.len() ==> lowered_from(w[j], #[trigger] t[j + 1])
        },
{
    lemma_lower_chars(w);
    if w.len() > 0 {
        lemma_lower_chars(w.skip(1));
        lemma_case_chars(w[0]);
        if let Decoded::Text(t) = cased_word(w, newline, upper) {
            assert forall|j: int| 1 <= j < w.len() implies lowered_from(w[j], #[trigger] t[j + 1]) by {
                if upper {
                    assert(t[j + 1] == lower(w.skip(1))[j - 1]);
                    assert(w.skip(1)[j - 1] == w[j]);
                } else {
                    assert(t[j + 1] == lower(w)[j]);
                }
            }
        }
    }
}

// ------------------------------------------------------ tokens and codes

proof fn lemma_tokens_first(u: Seq<char>)
    requires
        u.len() > 0,
    ensures
        tokens(u).len() > 0,
        tokens(u)[0].len() > 0,
        tokens(u)[0][0] == u[0],
{
    lemma_word_run(u);
    let n = first_token_len(u) as int;
    assert(tokens(u)[0] == u.take(n));
}

/// A text falls into tokens of two kinds: a single character that is not a
/// letter, digit or apostrophe, or a run of letters, digits and apostrophes;
/// and no run is cut in two, as no two neighbouring tokens meet at word
/// characters. So an apostrophe stays inside its word.
pub proof fn lemma_tokens_shape(s: Seq<char>)
    ensures
        forall|k: int| 0 <= k < tokens(s).len() ==> {
            ||| ((#[trigger] tokens(s)[k]).len() == 1 && !letter_digit_or_apostrophe(tokens(s)[k][0]))
            ||| forall|j: int| 0 <= j < tokens(s)[k].len() ==> letter_digit_or_apostrophe(tokens(s)[k][j])
        },
        forall|k: int| 0 <= k < tokens(s).len() - 1 ==> !(letter_digit_or_apostrophe(
            (#[trigger] tokens(s)[k]).last(),
        ) && letter_digit_or_apostrophe(tokens(s)[k + 1][0])),
    decreases s.len(),
{
    if s.len() > 0 {
        lemma_word_run(s);
        lemma_tokens(s);
        let n = first_token_len(s) as int;
        let rest = s.skip(n);
        lemma_tokens_shape(rest);
        let t = tokens(s);
        let r = tokens(rest);
        assert(t == seq![s.take(n)] + r);
        assert forall|k: int| 0 <= k < t.len() implies {
            ||| ((#[trigger] t[k]).len() == 1 && !letter_digit_or_apostrophe(t[k][0]))
            ||| forall|j: int| 0 <= j < t[k].len() ==> letter_digit_or_apostrophe(t[k][j])
        } by {
            if k > 0 {
                assert(t[k] == r[k - 1]);
            } else if is_word_char(s[0]) {
                assert forall|j: int| 0 <= j < t[0].len() implies letter_digit_or_apostrophe(t[0][j]) by {
                    assert(t[0][j] == s[j]);
                }
            }
        }
        assert forall|k: int| 0 <= k < t.len() - 1 implies !(letter_digit_or_apostrophe(
            (#[trigger] t[k]).last(),
        ) && letter_digit_or_apostrophe(t[k + 1][0])) by {
            if k > 0 {
                assert(t[k] == r[k - 1]);
                assert(t[k + 1] == r[k]);
            } else {
                assert(t[1] == r[0]);
                lemma_tokens_first(rest);
                assert(r[0][0] == s[n]);
                assert(t[0].last() == s[n - 1]);
            }
        }
    }
}

/// A word after a space or a newline, in a text of its own. After a space:
/// its one-byte code if the one-byte list holds it. Otherwise, if validly
/// capitalized and of two characters or more: the two-byte code of its lower
/// case if the two-byte list holds that; otherwise, if of three characters
/// or more, the three-byte code the same way (both flag the newline). Then,
/// after a space only: the one-byte code of a prefix of at most four
/// characters and the rest in plain. Otherwise the text in plain. The space
/// or newline is never written before a code: every code stands for it.
pub proof fn lemma_compress_word_after_break(tabs: Tables, tok: Seq<char>, newline: bool)
    requires
        tok.len() > 0,
        forall|j: int| 0 <= j < tok.len() ==> letter_digit_or_apostrophe(#[trigger] tok[j]),
    ensures
        compressed(tabs, seq![if newline { '\n' } else { ' ' }] + tok) == Some(
            if !newline && table_index(tabs.0, tok) >= 0 {
                seq![code_one(table_index(tabs.0, tok) as u32)]
            } else if tok.len() >= 2 && valid_capitalization(tok) && table_index(tabs.1, lower(tok)) >= 0 {
                code_two(table_index(tabs.1, lower(tok)) as u32, newline, starts_upper(tok))
            } else if tok.len() >= 3 && valid_capitalization(tok) && table_index(tabs.2, lower(tok)) >= 0 {
                code_three(table_index(tabs.2, lower(tok)) as u32, newline, starts_upper(tok))
            } else if !newline && beginning_code(tabs.0, seq![32u8], true, tok) is Some {
                beginning_code(tabs.0, seq![32u8], true, tok)->0
            } else {
                seq![if newline { 10u8 } else { 32u8 }] + ascii_bytes(tok)
            },
        ),
{
    let prev = if newline { '\n' } else { ' ' };
    let pb: u8 = if newline { 10u8 } else { 32u8 };
    let sp = seq![prev];
    let s = sp + tok;
    assert(is_ascii_chars(s)) by {
        assert forall|j: int| 0 <= j < s.len() implies '\0' <= #[trigger] s[j] <= '\u{7f}' by {
            if j > 0 {
                assert(s[j] == tok[j - 1]);
            }
        }
    }
    // the tokens: the space or newline, then the word
    assert(!is_word_char(s[0]));
    assert(s.take(1) =~= sp);
    assert(s.skip(1) =~= tok);
    lemma_word_run_exact(tok, tok.len() as int);
    assert(tok.take(tok.len() as int) =~= tok);
    assert(tok.skip(tok.len() as int) =~= Seq::<char>::empty());
    assert(is_word_char(tok[0]));
    assert(first_token_len(tok) == tok.len());
    assert(tokens(Seq::<char>::empty()) =~= Seq::<Seq<char>>::empty());
    assert(tokens(tok) =~= seq![tok]);
    assert(tokens(s) =~= seq![sp, tok]);
    // the space or newline is written in plain
    let toks = seq![sp, tok];
    assert(toks.drop_last() =~= seq![sp]);
    assert(seq![sp].drop_last() =~= Seq::<Seq<char>>::empty());
    let e = Seq::<u8>::empty();
    assert(sp.take(1) =~= sp);
    assert(prefix_code(tabs.0, e, false, sp, 0) is None);
    assert(prefix_code(tabs.0, e, false, sp, 1) is None);
    assert(ascii_bytes(sp) =~= seq![pb]);
    assert(e + seq![pb] =~= seq![pb]);
    assert(compress_tokens(tabs, Seq::<Seq<char>>::empty()) == (e, false));
    assert(crate::format::beginning_code(tabs.0, e, false, sp) is None);
    assert(crate::format::token_code(tabs, e, false, sp) is None);
    assert(compress_step(tabs, (e, false), sp) == (seq![pb], true));
    assert(compress_tokens(tabs, seq![sp]) == (seq![pb], true));
    // then the word
    assert(seq![pb].drop_last() =~= e);
    assert(seq![pb].last() == pb);
    if newline {
        lemma_no_prefix_code(tabs.0, seq![pb], tok, if tok.len() < 4 { tok.len() } else { 4 });
    }
    if let Some(c) = crate::format::token_code(tabs, seq![pb], true, tok) {
        assert(e + c =~= c);
    }
}

proof fn lemma_no_prefix_code(t1: Seq<Seq<char>>, out: Seq<u8>, tok: Seq<char>, i: nat)
    requires
        out.len() > 0,
        out.last() != 32,
    ensures
        prefix_code(t1, out, true, tok, i) is None,
    decreases i,
{
    if i > 0 {
        lemma_no_prefix_code(t1, out, tok, (i - 1) as nat);
    }
}

/// The bytes of the codes as the format lays them out: the top three bits
/// `101`, `110` or `111`; in the one-byte code the index in the low five
/// bits; in the longer codes the newline flag in bit 4, the capital flag in
/// bit 3, and the index spread over the low three bits and the bytes after.
pub proof fn lemma_code_layout(index: u32, newline: bool, upper: bool)
    ensures
        index < 32 ==> code_one(index) >> 5u8 == 5 && (code_one(index) & 0x1f) as u32 == index,
        index < 2048 ==> {
            let c = code_two(index, newline, upper);
            &&& c.len() == 2
            &&& c[0] >> 5u8 == 6
            &&& (c[0] & 0x10 != 0) == newline
            &&& (c[0] & 0x08 != 0) == upper
            &&& ((c[0] & 0x07) as u32) * 256 + (c[1] as u32) == index
        },
        index < 0x80000 ==> {
            let c = code_three(index, newline, upper);
            &&& c.len() == 3
            &&& c[0] >> 5u8 == 7
            &&& (c[0] & 0x10 != 0) == newline
            &&& (c[0] & 0x08 != 0) == upper
            &&& ((c[0] & 0x07) as u32) * 65536 + (c[1] as u32) * 256 + (c[2] as u32) == index
        },
{
    let f = code_flags(newline, upper);
    lemma_flags(newline, upper);
    assert(index < 32 ==> ((((index as u8) & 0x1f) | 0xa0) >> 5u8 == 5 && ((((index as u8) & 0x1f)
        | 0xa0) & 0x1f) as u32 == index)) by (bit_vector);
    let b0 = (((index >> 8u32) as u8) & 0x07) | f | 0xc0;
    let b1 = index as u8;
    assert(((f == 0 || f == 8 || f == 16 || f == 24) && b0 == (((index >> 8u32) as u8) & 0x07) | f
        | 0xc0 && b1 == index as u8 && index < 2048) ==> (b0 >> 5u8 == 6 && (b0 & 0x10 != 0) == (f
        & 0x10 != 0) && (b0 & 0x08 != 0) == (f & 0x08 != 0) && ((b0 & 0x07) as u32) * 256 + (
        b1 as u32) == index)) by (bit_vector);
    let d0 = (((index >> 16u32) as u8) & 0x07) | f | 0xe0;
    let d1 = (index >> 8u32) as u8;
    assert(((f == 0 || f == 8 || f == 16 || f == 24) && d0 == (((index >> 16u32) as u8) & 0x07)
        | f | 0xe0 && d1 == (index >> 8u32) as u8 && b1 == index as u8 && index < 0x80000) ==> (d0
        >> 5u8 == 7 && (d0 & 0x10 != 0) == (f & 0x10 != 0) && (d0 & 0x08 != 0) == (f & 0x08 != 0)
        && ((d0 & 0x07) as u32) * 65536 + (d1 as u32) * 256 + (b1 as u32) == index))
        by (bit_vector);
}

proof fn lemma_prefix_code_choice(t1: Seq<Seq<char>>, out: Seq<u8>, plain: bool, tok: Seq<char>, i: nat)
    requires
        i <= tok.len(),
    ensures
        prefix_code(t1, out, plain, tok, i) is None ==> forall|k: int|
            1 <= k <= i ==> (#[trigger] one_byte_code(t1, out, plain, tok.take(k))) is None,
        prefix_code(t1, out, plain, tok, i) matches Some(x) ==> exists|j: int| {
            &&& 1 <= j <= i
            &&& #[trigger] one_byte_code(t1, out, plain, tok.take(j)) is Some
            &&& x == one_byte_code(t1, out, plain, tok.take(j))->0 + ascii_bytes(tok.skip(j))
            &&& forall|k: int| j < k <= i ==> (#[trigger] one_byte_code(t1, out, plain, tok.take(k))) is None
        },
    decreases i,
{
    if i > 0 {
        lemma_prefix_code_choice(t1, out, plain, tok, (i - 1) as nat);
        if one_byte_code(t1, out, plain, tok.take(i as int)) is Some {
            let j = i as int;
            assert(one_byte_code(t1, out, plain, tok.take(j)) is Some);
        }
    }
}

/// The prefix code of a token: of its prefixes of one to four characters
/// (no longer than the token), the longest that has a one-byte code gets it,
/// and the rest of the token follows in plain; where none has one, there is
/// no prefix code.
pub proof fn lemma_beginning_code(t1: Seq<Seq<char>>, out: Seq<u8>, plain: bool, tok: Seq<char>)
    ensures
        beginning_code(t1, out, plain, tok) is None ==> forall|k: int|
            1 <= k <= 4 && k <= tok.len() ==> (#[trigger] one_byte_code(t1, out, plain, tok.take(k))) is None,
        beginning_code(t1, out, plain, tok) matches Some(x) ==> exists|j: int| {
            &&& 1 <= j <= 4
            &&& j <= tok.len()
            &&& #[trigger] one_byte_code(t1, out, plain, tok.take(j)) is Some
            &&& x == one_byte_code(t1, out, plain, tok.take(j))->0 + ascii_bytes(tok.skip(j))
            &&& forall|k: int| j < k <= 4 && k <= tok.len() ==> (#[trigger] one_byte_code(t1, out, plain, tok.take(k))) is None
        },
{
    let m: nat = if tok.len() < 4 { tok.len() } else { 4 };
    lemma_prefix_code_choice(t1, out, plain, tok, m);
}

/// `lines` put back together, a newline between each two.
pub open spec fn join_lines(lines: Seq<Seq<char>>) -> Seq<char>
    decreases lines.len(),
{
    if lines.len() == 0 {
        Seq::empty()
    } else if lines.len() == 1 {
        lines[0]
    } else {
        join_lines(lines.drop_last()) + seq!['\n'] + lines.last()
    }
}

/// A word list's lines hold no newline and no carriage return, and put back
/// together with newlines they give the text with its carriage returns taken
/// out.
pub proof fn lemma_word_lines_join(s: Seq<char>)
    ensures
        join_lines(word_lines(s)) == s.filter(|c: char| c != '\r'),
        forall|i: int, j: int| 0 <= i < word_lines(s).len() && 0 <= j < word_lines(s)[i].len() ==>
            #[trigger] word_lines(s)[i][j] != '\n' && word_lines(s)[i][j] != '\r',
    decreases s.len(),
{
    reveal_with_fuel(Seq::<_>::filter, 1);
    lemma_word_lines_len(s);
    let nocr = |c: char| c != '\r';
    if s.len() == 0 {
        assert(join_lines(word_lines(s)) =~= s.filter(nocr));
    } else {
        let p = s.drop_last();
        lemma_word_lines_join(p);
        lemma_word_lines_len(p);
        let r = word_lines(p);
        let c = s.last();
        if c == '\n' {
            let e = Seq::<char>::empty();
            assert(r.push(e).drop_last() =~= r);
            assert(join_lines(word_lines(s)) =~= s.filter(nocr));
            assert forall|i: int, j: int| 0 <= i < word_lines(s).len() && 0 <= j < word_lines(s)[i].len()
                implies #[trigger] word_lines(s)[i][j] != '\n' && word_lines(s)[i][j] != '\r' by {
                assert(word_lines(s)[i] == r[i]);
            }
        } else if c == '\r' {
            assert(join_lines(word_lines(s)) =~= s.filter(nocr));
        } else {
            let n = r.len();
            let u = r.update(n - 1, r.last().push(c));
            if n > 1 {
                assert(u.drop_last() =~= r.drop_last());
            }
            assert(join_lines(u) =~= join_lines(r).push(c));
            assert(join_lines(word_lines(s)) =~= s.filter(nocr));
            assert forall|i: int, j: int| 0 <= i < word_lines(s).len() && 0 <= j < word_lines(s)[i].len()
                implies #[trigger] word_lines(s)[i][j] != '\n' && word_lines(s)[i][j] != '\r' by {
                if i < n - 1 {
                    assert(word_lines(s)[i] == r[i]);
                } else if j < r.last().len() {
                    assert(word_lines(s)[i][j] == r[n - 1][j]);
                }
            }
        }
    }
}

/// A word is validly capitalized when it holds no capital, or when its
/// first character is not a small letter and no later one is a capital; its
/// capital flag is set when its first character is not a small letter.
pub proof fn lemma_capitalization(w: Seq<char>)
    ensures
        valid_capitalization(w) <==> {
            ||| forall|j: int| 0 <= j < w.len() ==> !is_capital(#[trigger] w[j])
            ||| (w.len() > 0 && !is_small(w[0]) && forall|j: int| 1 <= j < w.len() ==> !is_capital(#[trigger] w[j]))
        },
        w.len() > 0 ==> (starts_upper(w) <==> !is_small(w[0])),
{
    lemma_lower_chars(w);
    if w.len() > 0 {
        lemma_case_chars(w[0]);
        lemma_lower_chars(w.skip(1));
    }
    if forall|j: int| 0 <= j < w.len() ==> !is_capital(#[trigger] w[j]) {
        assert(w =~= lower(w));
    } else {
        let k = choose|k: int| 0 <= k < w.len() && is_capital(w[k]);
        assert(lower(w)[k] != w[k]);
    }
    if w.len() > 0 {
        if forall|j: int| 1 <= j < w.len() ==> !is_capital(#[trigger] w[j]) {
            assert forall|j: int| 0 <= j < w.len() - 1 implies lower(w.skip(1))[j] == w.skip(1)[j] by {
                assert(w.skip(1)[j] == w[j + 1]);
            }
            assert(w.skip(1) =~= lower(w.skip(1)));
        } else {
            let k = choose|k: int| 1 <= k < w.len() && is_capital(w[k]);
            assert(w.skip(1)[k - 1] == w[k]);
            assert(lower(w.skip(1))[k - 1] != w.skip(1)[k - 1]);
        }
    }
}

} // verus!
