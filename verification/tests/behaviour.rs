use rs_text_compression::text_compressor::{compress, decompress, generate_english_tables, is_readable};
use rs_text_compression::word_table::{gen_index_tables_from, EnglishTables};

fn lines(len: usize, known: &[(usize, &str)]) -> String {
    let mut v: Vec<String> = (0..len).map(|i| format!("filler{}", i)).collect();
    for (i, w) in known {
        v[*i] = w.to_string();
    }
    v.join("\n")
}

fn tables() -> EnglishTables {
    let top_32 = lines(32, &[(0, "the"), (3, "of"), (7, ","), (9, "The")]);
    let top_2048 = lines(2048, &[(5, "1st"), (1348, "Accommodation"), (300, "don't")]);
    let words = lines(1000, &[(700, "Frankenstein"), (12, "ten")]);
    generate_english_tables(&top_32, &top_2048, &words)
}

fn small_tables() -> EnglishTables {
    generate_english_tables("a\nb\nc\nd", "", "\nx")
}

#[test]
fn roundtrip_mixed_text() {
    let t = tables();
    let text = "The cat of Frankenstein's\nAccommodation, and often 'of' of the 1st.\r\n  of\n";
    let c = compress(text, &t).unwrap();
    assert!(c.len() <= text.len());
    assert!(is_readable(&c, &t));
    assert_eq!(decompress(&c, &t).unwrap(), text);
}

#[test]
fn roundtrip_empty_text() {
    let t = tables();
    let c = compress("", &t).unwrap();
    assert!(c.is_empty());
    assert_eq!(decompress(&c, &t).unwrap(), "");
}

#[test]
fn two_byte_code_after_newline() {
    let t = tables();
    let c = compress("\nAccommodation", &t).unwrap();
    assert_eq!(c, vec![0b11011101, 0b01000100]);
    assert_eq!(decompress(&c, &t).unwrap(), "\nAccommodation");
}

#[test]
fn two_byte_code_lower_case() {
    let t = tables();
    let c = compress(" accommodation", &t).unwrap();
    assert_eq!(c, vec![0b11000101, 0b01000100]);
    assert_eq!(decompress(&c, &t).unwrap(), " accommodation");
}

#[test]
fn mixed_case_word_stays_plain() {
    let t = tables();
    let c = compress(" AcCommodation", &t).unwrap();
    assert_eq!(c, b" AcCommodation".to_vec());
}

#[test]
fn capital_flag_on_digit() {
    let t = tables();
    let c = compress(" 1st", &t).unwrap();
    assert_eq!(c, vec![0b11001000, 5]);
    assert_eq!(decompress(&c, &t).unwrap(), " 1st");
}

#[test]
fn prefix_code_then_plain_rest() {
    let t = tables();
    let c = compress(" often", &t).unwrap();
    assert_eq!(c, vec![0b10100011, b't', b'e', b'n']);
    assert_eq!(decompress(&c, &t).unwrap(), " often");
}

#[test]
fn one_byte_codes_in_a_row() {
    let t = tables();
    let c = compress(" of of", &t).unwrap();
    assert_eq!(c, vec![0b10100011, 0b10100011]);
    assert_eq!(decompress(&c, &t).unwrap(), " of of");
}

#[test]
fn no_code_without_space_before() {
    let t = tables();
    let c = compress("of", &t).unwrap();
    assert_eq!(c, b"of".to_vec());
    let c = compress("x,of", &t).unwrap();
    assert_eq!(c, b"x,of".to_vec());
}

#[test]
fn separator_in_one_byte_list() {
    let t = tables();
    let c = compress("a ,", &t).unwrap();
    assert_eq!(c, vec![b'a', 0b10100111]);
    assert_eq!(decompress(&c, &t).unwrap(), "a ,");
}

#[test]
fn one_byte_list_keeps_case() {
    let t = tables();
    let c = compress(" The the", &t).unwrap();
    assert_eq!(c, vec![0b10101001, 0b10100000]);
    assert_eq!(decompress(&c, &t).unwrap(), " The the");
}

#[test]
fn plain_bytes_decode_to_themselves() {
    let t = tables();
    assert_eq!(decompress(b"Hello, world\n", &t).unwrap(), "Hello, world\n");
}

#[test]
fn one_byte_index_past_list_is_invalid() {
    let t = small_tables();
    assert!(is_readable(&[0b10111111], &t));
    assert_eq!(decompress(&[0b10111111], &t), None);
    assert_eq!(decompress(&[b'x', 0b10100001], &t).unwrap(), "x b");
}

#[test]
fn unreadable_inputs() {
    let t = small_tables();
    // a two-byte code cut short
    assert!(!is_readable(&[0b11000000], &t));
    // a three-byte code cut short
    assert!(!is_readable(&[0b11100000, 0], &t));
    // index past the two-byte list
    assert!(!is_readable(&[0b11000000, 1], &t));
    // a capital asked of an empty word
    assert!(!is_readable(&[0b11101000, 0, 0], &t));
    // the same word in lower case is fine
    assert!(is_readable(&[0b11100000, 0, 0], &t));
    assert_eq!(decompress(&[0b11100000, 0, 0], &t).unwrap(), " ");
    assert_eq!(decompress(&[0b11110000, 0, 1], &t).unwrap(), "\nx");
    assert_eq!(decompress(&[0b11101000, 0, 1], &t).unwrap(), " X");
    // an invalid code before an unreadable one decides
    assert!(is_readable(&[0b10000000, 0b11000000], &t));
    assert_eq!(decompress(&[0b10000000, 0b11000000], &t), None);
}

#[test]
fn word_list_lines() {
    let t = gen_index_tables_from("a\r\nb\n\na\nc\n");
    assert_eq!(t.len(), 6);
    assert_eq!(t.word_at(0).unwrap(), "a");
    assert_eq!(t.word_at(1).unwrap(), "b");
    assert_eq!(t.word_at(2).unwrap(), "");
    assert_eq!(t.word_at(5).unwrap(), "");
    assert_eq!(t.word_at(6), None);
    // a repeated word is found under its last line
    assert_eq!(t.word_index("a"), Some(3));
    assert_eq!(t.word_index("c"), Some(4));
    assert_eq!(t.word_index(""), Some(5));
    assert_eq!(t.word_index("d"), None);
}

#[test]
fn empty_word_list_has_one_line() {
    let t = gen_index_tables_from("");
    assert_eq!(t.len(), 1);
    assert_eq!(t.word_index(""), Some(0));
}

#[test]
fn longer_lists_are_lower_cased() {
    let t = generate_english_tables("The\nA", "Hello\nWORLD", "Foo");
    assert_eq!(t.one_byte.word_at(0).unwrap(), "The");
    assert_eq!(t.one_byte.word_index("the"), None);
    assert_eq!(t.two_byte.word_at(0).unwrap(), "hello");
    assert_eq!(t.two_byte.word_at(1).unwrap(), "world");
    assert_eq!(t.three_byte.word_index("foo"), Some(0));
}
