//! Text compression tuned for English: known words become one-, two- or
//! three-byte codes, everything else stays plain seven-bit ASCII.

pub mod ascii;
pub mod word_table;
pub mod format;
pub mod text_compressor;
pub mod laws;
