//! Lossless text compression with Huffman codes.
//!
//! A text is turned into a frequency table, the table into a prefix-code
//! tree, the tree into a code table, and the text into a bit sequence; a
//! textual header carrying the frequency table and the packed bits make up
//! the compressed file. Decompression rebuilds the tree from the header and
//! walks it bit by bit.

pub mod bits;
pub mod codec;
pub mod codes;
pub mod error;
pub mod format;
pub mod frequency;
pub mod header;
pub mod laws;
pub mod text;
pub mod tree;

pub use crate::bits::BitSequence;
pub use crate::codec::{decode_text, encode_text};
pub use crate::codes::{build_encoding_table, CodeTable};
pub use crate::error::HuffmanError;
pub use crate::format::{compress, decompress};
pub use crate::frequency::{build_frequency_table, FrequencyTable};
pub use crate::header::{parse_header, serialize_header};
pub use crate::tree::{build_huffman_tree, HuffmanNode};
