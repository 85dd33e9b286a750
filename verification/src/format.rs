//! The compressed file: the header line, then the packed bits.
//!
//! ```text
//! <symbol>:<count>|<symbol>:<count>|...|\n
//! <packed bits>
//! ```
//!
//! The header is UTF-8 text and ends at the first line end. The payload is
//! the encoded text, eight bits to the byte, the first bit in the least
//! significant position, the last byte filled up with zero bits. The file
//! holds no length: the counts of the header say how many symbols the
//! payload stands for. An empty text is the line end alone.

use crate::bits::{max_bits, pack_bits, unpack_bytes, BitSequence};
use crate::codec::{decode, decode_text, encode, encode_text, lemma_first_unknown_skip};
use crate::codes::{build_encoding_table, code_map, lemma_code_of_leaf};
use crate::error::{Failure, HuffmanError};
use crate::frequency::{
    build_frequency_table, entries_map, frequency_map, has_symbol, occurrences, sorted_entries,
};
use crate::header::{
    first_unsupported, header_text, parse_header, parse_line, serialize_header,
};
use crate::tree::{build_huffman_tree, huffman_tree};
use vstd::prelude::*;
use vstd::slice::slice_subrange;
use vstd::string::StringSliceAdditionalSpecFns;
use vstd::utf8::{decode_utf8, encode_utf8, valid_utf8};

verus! {

/// The byte that ends the header.
pub open spec fn line_end_byte() -> u8 {
    0x0Au8
}

/// The bits of a payload are no more than a bit sequence can hold.
pub open spec fn payload_fits(bits: Seq<bool>) -> bool {
    8 * pack_bits(bits).len() <= max_bits()
}

/// What compressing a text gives.
pub open spec fn compress_spec(text: Seq<char>) -> Result<Seq<u8>, Failure> {
    if text.len() == 0 {
        Ok(seq![line_end_byte()])
    } else {
        let table = frequency_map(text);
        let bits = encode(text, code_map(huffman_tree(table)));
        match first_unsupported(sorted_entries(table)) {
            Some(c) => Err(Failure::UnsupportedSymbol(c)),
            None => if !payload_fits(bits) {
                Err(Failure::TooLarge)
            } else {
                Ok(
                    encode_utf8(header_text(sorted_entries(table))) + seq![line_end_byte()]
                        + pack_bits(bits),
                )
            },
        }
    }
}

/// Where the first line of the data ends: at the first line end from `from`
/// on, or at the end of the data.
pub open spec fn line_length(data: Seq<u8>, from: int) -> int
    decreases data.len() - from,
{
    if from < 0 || from >= data.len() || data[from] == line_end_byte() {
        from
    } else {
        line_length(data, from + 1)
    }
}

/// The bytes of the header line, without its line end.
pub open spec fn header_bytes(data: Seq<u8>) -> Seq<u8> {
    data.take(line_length(data, 0))
}

/// The bytes after the header line.
pub open spec fn payload_bytes(data: Seq<u8>) -> Seq<u8> {
    if line_length(data, 0) < data.len() {
        data.skip(line_length(data, 0) + 1)
    } else {
        Seq::empty()
    }
}

/// What decompressing a file gives.
pub open spec fn decompress_spec(data: Seq<u8>) -> Result<Seq<char>, Failure> {
    if !valid_utf8(header_bytes(data)) {
        Err(Failure::MalformedHeader(Seq::empty()))
    } else {
        match parse_line(decode_utf8(header_bytes(data))) {
            Err(token) => Err(Failure::MalformedHeader(token)),
            Ok(pairs) => if pairs.len() == 0 {
                Ok(Seq::empty())
            } else if 8 * payload_bytes(data).len() > max_bits() {
                Err(Failure::TooLarge)
            } else {
                Ok(decode(huffman_tree(entries_map(pairs)), unpack_bytes(payload_bytes(data))))
            },
        }
    }
}

/// The outcome of an operation that gives bytes, as contracts speak of it.
pub open spec fn bytes_outcome(r: Result<Vec<u8>, HuffmanError>) -> Result<Seq<u8>, Failure> {
    match r {
        Ok(bytes) => Ok(bytes@),
        Err(e) => Err(e@),
    }
}

/// The outcome of an operation that gives a text, as contracts speak of it.
pub open spec fn text_outcome(r: Result<String, HuffmanError>) -> Result<Seq<char>, Failure> {
    match r {
        Ok(text) => Ok(text@),
        Err(e) => Err(e@),
    }
}

/// The first line ends at the first line end after its start.
pub proof fn lemma_line_length_at(data: Seq<u8>, from: int, end: int)
    requires
        0 <= from <= end < data.len(),
        forall|i: int| from <= i < end ==> #[trigger] data[i] != line_end_byte(),
        data[end] == line_end_byte(),
    ensures
        line_length(data, from) == end,
    decreases end - from,
{
    if from < end {
        assert(data[from] != line_end_byte());
        lemma_line_length_at(data, from + 1, end);
    }
}

/// No byte of the UTF-8 form of a character other than the line end is the
/// line end byte.
pub proof fn lemma_scalar_no_line_end(c: char)
    requires
        c != '\n',
    ensures
        forall|j: int|
            0 <= j < vstd::utf8::encode_scalar(c as u32).len() ==> #[trigger] vstd::utf8::encode_scalar(
                c as u32,
            )[j] != line_end_byte(),
{
    let v = c as u32;
    assert(v != 0x0Au32);
    assert(v <= 0x7F && v != 0x0Au32 ==> (v & 0x7F) as u8 != 0x0Au8) by (bit_vector);
    assert((0xC0u8 | ((v >> 6) & 0x1F) as u8) != 0x0Au8) by (bit_vector);
    assert((0xE0u8 | ((v >> 12) & 0x0F) as u8) != 0x0Au8) by (bit_vector);
    assert((0xF0u8 | ((v >> 18) & 0x7) as u8) != 0x0Au8) by (bit_vector);
    assert((0x80u8 | (v & 0x3F) as u8) != 0x0Au8) by (bit_vector);
    assert((0x80u8 | ((v >> 6) & 0x3F) as u8) != 0x0Au8) by (bit_vector);
    assert((0x80u8 | ((v >> 12) & 0x3F) as u8) != 0x0Au8) by (bit_vector);
}

/// The UTF-8 form of a text without line ends holds no line end byte.
pub proof fn lemma_utf8_no_line_end(chars: Seq<char>)
    requires
        forall|i: int| 0 <= i < chars.len() ==> #[trigger] chars[i] != '\n',
    ensures
        forall|j: int|
            0 <= j < encode_utf8(chars).len() ==> #[trigger] encode_utf8(chars)[j]
                != line_end_byte(),
    decreases chars.len(),
{
    if chars.len() > 0 {
        let first = vstd::utf8::encode_scalar(chars[0] as u32);
        let tail = chars.drop_first();
        assert(chars[0] != '\n');
        lemma_scalar_no_line_end(chars[0]);
        assert forall|i: int| 0 <= i < tail.len() implies #[trigger] tail[i] != '\n' by {
            assert(tail[i] == chars[i + 1]);
        }
        lemma_utf8_no_line_end(tail);
        assert forall|j: int| 0 <= j < encode_utf8(chars).len() implies #[trigger] encode_utf8(
            chars,
        )[j] != line_end_byte() by {
            if j < first.len() {
                assert(encode_utf8(chars)[j] == first[j]);
            } else {
                assert(encode_utf8(chars)[j] == encode_utf8(tail)[j - first.len()]);
            }
        }
    }
}

/// The header and the payload of a file are found again: the header is what
/// stands before the first line end, the payload what stands after it.
pub proof fn lemma_file_parts(header: Seq<char>, payload: Seq<u8>)
    requires
        forall|i: int| 0 <= i < header.len() ==> #[trigger] header[i] != '\n',
    ensures
        header_bytes(encode_utf8(header) + seq![line_end_byte()] + payload) == encode_utf8(header),
        payload_bytes(encode_utf8(header) + seq![line_end_byte()] + payload) == payload,
        valid_utf8(encode_utf8(header)),
        decode_utf8(encode_utf8(header)) == header,
{
    let hb = encode_utf8(header);
    let data = hb + seq![line_end_byte()] + payload;
    lemma_utf8_no_line_end(header);
    assert forall|i: int| 0 <= i < hb.len() implies #[trigger] data[i] != line_end_byte() by {
        assert(data[i] == hb[i]);
    }
    assert(data[hb.len() as int] == line_end_byte());
    lemma_line_length_at(data, 0, hb.len() as int);
    assert(header_bytes(data) =~= hb);
    assert(payload_bytes(data) =~= payload);
    vstd::utf8::encode_utf8_valid_utf8(header);
    vstd::utf8::encode_utf8_decode_utf8(header);
}

/// `core::str::from_utf8`: the bytes as a string slice where they are valid
/// UTF-8, and nothing where they are not.
#[verifier::external_body]
fn str_from_utf8(bytes: &[u8]) -> (r: Option<&str>)
    ensures
        r is Some <==> valid_utf8(bytes@),
        r matches Some(text) ==> text.spec_bytes() == bytes@,
{
    match core::str::from_utf8(bytes) {
        Ok(text) => Some(text),
        Err(_) => None,
    }
}

/// Compresses a text into the bytes of a file.
///
/// Fails with `UnsupportedSymbol` where the text holds a symbol that the
/// header cannot carry, and with `TooLarge` where the payload is more than a
/// bit sequence can hold.
pub fn compress(text: &str) -> (r: Result<Vec<u8>, HuffmanError>)
    ensures
        bytes_outcome(r) == compress_spec(text@),
        text@.len() <= usize::MAX,
{
    let table = build_frequency_table(text);
    proof {
        table.lemma_wf();
        table.lemma_nonempty();
    }
    if table.is_empty() {
        assert(text@.len() == 0);
        let mut out: Vec<u8> = Vec::new();
        out.push(0x0Au8);
        assert(out@ =~= seq![line_end_byte()]);
        return Ok(out);
    }
    assert(text@.len() > 0);
    let header = match serialize_header(&table) {
        Ok(header) => header,
        Err(e) => {
            return Err(e);
        },
    };
    let tree = match build_huffman_tree(&table) {
        Ok(tree) => tree,
        Err(e) => {
            return Err(e);
        },
    };
    let codes = build_encoding_table(&tree);
    proof {
        broadcast use vstd::seq_lib::group_to_multiset_ensures;

        assert forall|i: int| 0 <= i < text@.len() implies codes@.contains_key(
            #[trigger] text@[i],
        ) by {
            let c = text@[i];
            assert(text@.contains(c));
            assert(occurrences(text@, c) > 0);
            assert(table@.contains_key(c));
            assert(has_symbol(tree.leaves(), c));
            lemma_code_of_leaf(tree, c);
        }
        lemma_first_unknown_skip(text@, text@.len() as int, codes@);
        assert(text@.skip(text@.len() as int) =~= Seq::<char>::empty());
    }
    let bits = match encode_text(text, &codes) {
        Ok(bits) => bits,
        Err(e) => {
            assert(e@ == Failure::TooLarge);
            assert(!payload_fits(encode(text@, codes@)));
            return Err(e);
        },
    };
    let n = bits.len();
    let bytes_needed = if n % 8 == 0 {
        n / 8
    } else {
        n / 8 + 1
    };
    assert(bytes_needed == pack_bits(bits@).len());
    if bytes_needed > usize::MAX / 8 / 8 {
        return Err(HuffmanError::TooLarge);
    }
    assert(payload_fits(bits@));
    let mut payload = bits.into_bytes();
    let mut out = header.as_str().as_bytes_vec();
    assert(out@ == encode_utf8(header_text(sorted_entries(frequency_map(text@)))));
    out.push(0x0Au8);
    out.append(&mut payload);
    assert(compress_spec(text@) matches Ok(b) && out@ =~= b);
    Ok(out)
}

/// Decompresses the bytes of a file into the text.
///
/// The header is the first line, or all the bytes where there is no line
/// end. Fails with `MalformedHeader` where the header is not UTF-8 text or
/// holds a malformed token, and with `TooLarge` where the payload is more
/// than a bit sequence can hold. An empty header gives the empty text.
pub fn decompress(data: &[u8]) -> (r: Result<String, HuffmanError>)
    ensures
        text_outcome(r) == decompress_spec(data@),
{
    let n = data.len();
    let mut end: usize = 0;
    while end < n && data[end] != 0x0Au8
        invariant
            end <= n == data@.len(),
            line_length(data@, 0) == line_length(data@, end as int),
        decreases n - end,
    {
        end += 1;
    }
    let line_bytes = slice_subrange(data, 0, end);
    let payload = if end < n {
        slice_subrange(data, end + 1, n)
    } else {
        slice_subrange(data, n, n)
    };
    assert(line_bytes@ =~= header_bytes(data@));
    assert(payload@ =~= payload_bytes(data@));
    let line = match str_from_utf8(line_bytes) {
        Some(line) => line,
        None => {
            return Err(HuffmanError::MalformedHeader(String::new()));
        },
    };
    proof {
        vstd::utf8::encode_utf8_decode_utf8(line@);
    }
    let table = match parse_header(line) {
        Ok(table) => table,
        Err(e) => {
            return Err(e);
        },
    };
    if table.is_empty() {
        return Ok(String::new());
    }
    let bits = match BitSequence::from_bytes(payload) {
        Some(bits) => bits,
        None => {
            return Err(HuffmanError::TooLarge);
        },
    };
    match build_huffman_tree(&table) {
        Ok(tree) => Ok(decode_text(&bits, &tree)),
        Err(e) => Err(e),
    }
}

} // verus!
