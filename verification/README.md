# rs_text_compression

A text compressor tuned for English, verified with Verus. Words found in one
of three word lists are replaced by one-, two- or three-byte codes; every
other character is kept as plain seven-bit ASCII. Decompression turns the
codes back into their words.

## Layout

- `src/ascii.rs`: ASCII characters, bytes and case mapping.
- `src/word_table.rs`: a word list read line by line (`IndexTables`), with
  lookups by index and by word, and the three lists together
  (`EnglishTables`).
- `src/format.rs`: the format as specification: tokens, the code each token
  gets, and what a byte string decodes to.
- `src/text_compressor.rs`: `generate_english_tables`, `compress`,
  `decompress` and `is_readable`, each proved against `format.rs`.
- `src/laws.rs`: decompression undoes compression, compression never makes a
  text longer, plain bytes decode to themselves.
- `app/main.rs`: the command-line program. It reads the word lists
  `top_32.txt`, `top_2048.txt` and `english-words/words.txt` (one ASCII word
  per line) and `input.txt` from the working directory, compresses and
  decompresses the input, and prints statistics.
