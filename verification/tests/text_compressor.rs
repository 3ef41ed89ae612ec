use rs_text_compression::text_compressor;
use rs_text_compression::word_table::{gen_index_tables_from, EnglishTables};

// The English word lists are data files kept outside the crate. These
// stand-in lists hold, at the indices that the expected codes below name, the
// words those codes stand for ("of" is word 3 of the one-byte list,
// "accommodation" word 1348 of the two-byte list, "frankenstein" word 146326
// of the three-byte list); every other line is a filler that no test text
// contains.
fn word_list(len: usize, known: &[(usize, &str)]) -> String {
    let mut lines: Vec<String> = (0..len).map(|i| format!("filler{}", i)).collect();
    for (i, w) in known {
        lines[*i] = w.to_string();
    }
    lines.join("\n")
}

fn english_tables() -> EnglishTables {
    let top_32 = word_list(32, &[(3, "of")]);
    let top_2048 = word_list(2048, &[(1348, "Accommodation")]);
    let words = word_list(146400, &[(146326, "Frankenstein")]);
    text_compressor::generate_english_tables(&top_32, &top_2048, &words)
}

#[test]
fn reject_non_ascii() {
    let text = "I 😀 am already far north of London, and as I walk in the streets of
        Petersburgh.";

    // generate english tables
    let index_pairs = english_tables();
    // compess tokens into bytes
    let compressed_bytes = text_compressor::compress(&text, &index_pairs);
    // ensure compression/decompression was lossless
    assert_eq!(compressed_bytes, None);
}

#[test]
fn compress_decompress_1() {
    let text = " of";

    // generate english tables
    let index_pairs = english_tables();
    // compess tokens into bytes
    let compressed_bytes = text_compressor::compress(&text, &index_pairs).unwrap();
    // ensure correct compression
    assert_eq!(compressed_bytes, &[0b10100011]);
    // decompress compressed message
    let decompressed = text_compressor::decompress(&compressed_bytes, &index_pairs).unwrap();
    // ensure compression/decompression was lossless
    assert_eq!(decompressed, text);
}

#[test]
fn compress_decompress_2() {
    let text = " Accommodation";

    // generate english tables
    let index_pairs = english_tables();
    // compess tokens into bytes
    let compressed_bytes = text_compressor::compress(&text, &index_pairs).unwrap();
    // ensure correct compression
    // 2 bytes compressed word with capital first letter and space =
    // 0b11001

    // Accommodation =
    // 1348
    // 101 01000100
    assert_eq!(compressed_bytes, vec![0b11001101, 0b01000100]);
    // decompress compressed message
    let decompressed = text_compressor::decompress(&compressed_bytes, &index_pairs).unwrap();
    // ensure compression/decompression was lossless
    assert_eq!(decompressed, text);
}

#[test]
fn compress_decompress_3() {
    let text = " Frankenstein";

    // generate english tables
    let index_pairs = english_tables();
    // compess tokens into bytes
    let compressed_bytes = text_compressor::compress(&text, &index_pairs).unwrap();
    // ensure compression/decompression was lossless

    // 3 bytes compressed word with capital first lette and space =
    // 0b011110

    // Frankenstein =
    // 146326
    // 010 00111011 10010110

    assert_eq!(compressed_bytes, &[0b11101010, 0b00111011, 0b10010110]);

    // decompress compressed message
    let decompressed = text_compressor::decompress(&compressed_bytes, &index_pairs).unwrap();
    // ensure compression/decompression was lossless
    assert_eq!(decompressed, text);
}

#[test]
fn catch_invalid_encoding_length() {
    // generate english tables
    let index_pairs = english_tables();
    let decompressed = text_compressor::decompress(&[0b10000000], &index_pairs);
    assert_eq!(None, decompressed);
}
