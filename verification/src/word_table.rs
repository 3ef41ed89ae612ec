//! A word list read line by line: a word is found by its index, and an index
//! by its word.

use vstd::prelude::*;
use vstd::hash_map::StringHashMap;
use vstd::string::*;
use vstd::utf8::is_ascii_chars;
use crate::ascii::{lemma_ascii_roundtrip, push_char};

verus! {

/// The lines of a word list: the text split at each `'\n'`, with every `'\r'`
/// removed.
pub open spec fn word_lines(s: Seq<char>) -> Seq<Seq<char>>
    decreases s.len(),
{
    if s.len() == 0 {
        seq![Seq::<char>::empty()]
    } else {
        let r = word_lines(s.drop_last());
        let c = s.last();
        if c == '\n' {
            r.push(Seq::<char>::empty())
        } else if c == '\r' {
            r
        } else {
            r.update(r.len() - 1, r.last().push(c))
        }
    }
}

/// The index under which `w` is found in `words`: its last position, or -1
/// where it does not occur.
pub open spec fn table_index(words: Seq<Seq<char>>, w: Seq<char>) -> int
    decreases words.len(),
{
    if words.len() == 0 {
        -1
    } else if words.last() == w {
        words.len() - 1
    } else {
        table_index(words.drop_last(), w)
    }
}

pub proof fn lemma_table_index(words: Seq<Seq<char>>, w: Seq<char>)
    ensures
        -1 <= table_index(words, w) < words.len(),
        table_index(words, w) >= 0 ==> words[table_index(words, w)] == w,
        table_index(words, w) >= 0 ==> forall|j: int|
            table_index(words, w) < j < words.len() ==> words[j] != w,
        table_index(words, w) < 0 ==> forall|j: int| 0 <= j < words.len() ==> words[j] != w,
    decreases words.len(),
{
    if words.len() > 0 {
        let rest = words.drop_last();
        lemma_table_index(rest, w);
        assert forall|j: int| 0 <= j < rest.len() implies words[j] == rest[j] by {}
    }
}

pub proof fn lemma_word_lines_len(s: Seq<char>)
    ensures
        word_lines(s).len() >= 1,
    decreases s.len(),
{
    if s.len() > 0 {
        lemma_word_lines_len(s.drop_last());
    }
}

pub open spec fn all_ascii(words: Seq<Seq<char>>) -> bool {
    forall|i: int| 0 <= i < words.len() ==> is_ascii_chars(#[trigger] words[i])
}

pub open spec fn string_views(ws: Seq<String>) -> Seq<Seq<char>> {
    ws.map_values(|w: String| w@)
}

/// `m` finds each word of `words` under its index, and nothing else.
pub open spec fn indexes(words: Seq<Seq<char>>, m: Map<Seq<char>, u32>) -> bool {
    &&& forall|w: Seq<char>| #[trigger] m.contains_key(w) <==> table_index(words, w) >= 0
    &&& forall|w: Seq<char>| #[trigger] m.contains_key(w) ==> m[w] == table_index(words, w)
}

/// One word list with lookups both ways: the word at an index, and the
/// index of a word (the last line that holds it).
pub struct IndexTables {
    words: Vec<String>,
    index: StringHashMap<u32>,
}

impl View for IndexTables {
    type V = Seq<Seq<char>>;

    closed spec fn view(&self) -> Seq<Seq<char>> {
        string_views(self.words@)
    }
}

impl IndexTables {
    #[verifier::type_invariant]
    spec fn well_formed(self) -> bool {
        &&& self.words@.len() <= u32::MAX + 1
        &&& all_ascii(string_views(self.words@))
        &&& indexes(string_views(self.words@), self.index@)
    }

    /// The number of lines.
    pub fn len(&self) -> (r: usize)
        ensures
            r == self@.len(),
    {
        self.words.len()
    }

    /// The word at `index`, if the list has that many lines.
    pub fn word_at(&self, index: u32) -> (r: Option<&String>)
        ensures
            match r {
                Some(w) => index < self@.len() && w@ == self@[index as int] && is_ascii_chars(w@),
                None => index >= self@.len(),
            },
    {
        proof {
            use_type_invariant(self);
        }
        if (index as usize) < self.words.len() {
            Some(&self.words[index as usize])
        } else {
            None
        }
    }

    /// The index of `word`: the last line that holds it.
    pub fn word_index(&self, word: &str) -> (r: Option<u32>)
        ensures
            r == (if table_index(self@, word@) >= 0 {
                Some(table_index(self@, word@) as u32)
            } else {
                None
            }),
    {
        proof {
            use_type_invariant(self);
        }
        match self.index.get(word) {
            Some(v) => Some(*v),
            None => None,
        }
    }
}

proof fn lemma_indexes_push(words: Seq<Seq<char>>, m: Map<Seq<char>, u32>, w: Seq<char>)
    requires
        indexes(words, m),
        words.len() <= u32::MAX,
    ensures
        indexes(words.push(w), m.insert(w, words.len() as u32)),
{
    let ws = words.push(w);
    assert(ws.drop_last() =~= words);
    assert forall|x: Seq<char>| #[trigger] m.insert(w, words.len() as u32).contains_key(x)
        <==> table_index(ws, x) >= 0 by {
        lemma_table_index(words, x);
    }
    assert forall|x: Seq<char>| #[trigger] m.insert(w, words.len() as u32).contains_key(x)
        implies m.insert(w, words.len() as u32)[x] == table_index(ws, x) by {
        lemma_table_index(words, x);
    }
}

/// The three word lists behind the codes of one, two and three bytes.
pub struct EnglishTables {
    pub one_byte: IndexTables,
    pub two_byte: IndexTables,
    pub three_byte: IndexTables,
}

impl View for EnglishTables {
    type V = (Seq<Seq<char>>, Seq<Seq<char>>, Seq<Seq<char>>);

    open spec fn view(&self) -> Self::V {
        (self.one_byte@, self.two_byte@, self.three_byte@)
    }
}

/// Reads a word list: one word per line (lines end at `'\n'`, every `'\r'`
/// is dropped), the word on line `i` found under index `i`.
pub fn gen_index_tables_from(text: &str) -> (r: IndexTables)
    requires
        is_ascii_chars(text@),
        text@.len() <= u32::MAX,
    ensures
        r@ == word_lines(text@),
{
    broadcast use vstd::string::is_ascii_spec_bytes;

    assert(vstd::string::is_ascii(text));
    let bytes = text.as_bytes();
    assert(bytes@ =~= Seq::new(text@.len(), |k: int| text@[k] as u8));
    let n = bytes.len();
    let mut words: Vec<String> = Vec::new();
    let mut index: StringHashMap<u32> = StringHashMap::new();
    let mut line = String::new();
    let mut i: usize = 0;
    proof {
        assert(text@.take(0) =~= Seq::<char>::empty());
        assert(string_views(words@).push(line@) =~= seq![Seq::<char>::empty()]);
    }
    while i < n
        invariant
            n == bytes@.len(),
            n == text@.len(),
            n <= u32::MAX,
            i <= n,
            forall|k: int| 0 <= k < n ==> bytes@[k] == text@[k] as u8,
            is_ascii_chars(text@),
            words@.len() <= i,
            string_views(words@).push(line@) == word_lines(text@.take(i as int)),
            all_ascii(string_views(words@)),
            is_ascii_chars(line@),
            indexes(string_views(words@), index@),
        decreases n - i,
    {
        let b = bytes[i];
        let ghost c = text@[i as int];
        proof {
            assert(text@.take(i + 1).drop_last() =~= text@.take(i as int));
            assert(text@.take(i + 1).last() == c);
            lemma_ascii_roundtrip(c);
        }
        let ghost prev = text@.take(i as int);
        proof {
            lemma_word_lines_len(prev);
        }
        if b == 10 {
            let w = line;
            line = String::new();
            let ghost old_words = string_views(words@);
            proof {
                lemma_indexes_push(old_words, index@, w@);
            }
            index.insert(w.clone(), words.len() as u32);
            words.push(w);
            proof {
                assert(string_views(words@) =~= old_words.push(w@));
                assert(string_views(words@).push(line@) =~= word_lines(prev).push(Seq::<char>::empty()));
            }
        } else if b == 13 {
        } else {
            let ghost old_line = line@;
            push_char(&mut line, b as char);
            proof {
                assert(string_views(words@).push(line@) =~= word_lines(prev).update(
                    word_lines(prev).len() - 1, word_lines(prev).last().push(c)));
            }
        }
        i = i + 1;
    }
    proof {
        assert(text@.take(n as int) =~= text@);
        lemma_indexes_push(string_views(words@), index@, line@);
    }
    let ghost old_words = string_views(words@);
    index.insert(line.clone(), words.len() as u32);
    words.push(line);
    proof {
        assert(string_views(words@) =~= old_words.push(words@.last()@));
    }
    IndexTables { words, index }
}

} // verus!
