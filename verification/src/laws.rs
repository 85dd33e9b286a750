//! What holds of the codec as a whole.

use crate::bits::{lemma_unpack_pack, pack_bits, unpack_bytes};
use crate::codec::{decode, encode, lemma_decode_encode, lemma_decode_partial};
use crate::codes::{code_map, code_of, lemma_code_map_prefix_free, lemma_code_of_leaf, prefix_free};
use crate::error::Failure;
use crate::format::{compress_spec, decompress_spec, lemma_file_parts, line_end_byte};
use crate::frequency::{
    frequency_map, has_symbol, lemma_ascending_distinct, lemma_frequency_entries, occurrences,
    sorted_entries, total_count, FrequencyTable,
};
use crate::header::{header_text, lemma_header_one_line, lemma_header_round_trip};
use crate::tree::{huffman_tree, lemma_tree_of_entries, lemma_weight_is_leaf_total};
use vstd::prelude::*;

verus! {

/// The tree of a text: it is well formed, its leaves are the symbols of the
/// text with their numbers of occurrences, and every symbol of the text has
/// a code.
pub proof fn lemma_tree_of_text(text: Seq<char>)
    requires
        0 < text.len() <= usize::MAX,
    ensures
        huffman_tree(frequency_map(text)).wf(),
        huffman_tree(frequency_map(text)).leaf_map() == frequency_map(text),
        forall|i: int|
            0 <= i < text.len() ==> code_of(huffman_tree(frequency_map(text)), #[trigger] text[i])
                is Some,
{
    broadcast use vstd::seq_lib::group_to_multiset_ensures;

    let table = frequency_map(text);
    let tree = huffman_tree(table);
    lemma_frequency_entries(text);
    lemma_tree_of_entries(sorted_entries(table));
    assert forall|i: int| 0 <= i < text.len() implies code_of(tree, #[trigger] text[i])
        is Some by {
        let c = text[i];
        assert(text.contains(c));
        assert(occurrences(text, c) > 0);
        assert(table.contains_key(c));
        assert(has_symbol(tree.leaves(), c));
        lemma_code_of_leaf(tree, c);
    }
}

/// Weight conservation: in the tree of a text, every internal node weighs
/// what its two children weigh together, and the root weighs the sum of the
/// weights of the leaves, which is the number of symbols of the text.
pub proof fn lemma_weight_conservation(text: Seq<char>)
    requires
        0 < text.len() <= usize::MAX,
    ensures
        huffman_tree(frequency_map(text)).conserves_weight(),
        huffman_tree(frequency_map(text)).weight_of() == total_count(
            huffman_tree(frequency_map(text)).leaves(),
        ),
        huffman_tree(frequency_map(text)).weight_of() == text.len(),
{
    let table = frequency_map(text);
    lemma_frequency_entries(text);
    lemma_tree_of_entries(sorted_entries(table));
    lemma_weight_is_leaf_total(huffman_tree(table));
}

/// Round trip: decoding the code of a text gives the text, whatever bits
/// follow the code. This holds of a text of one repeated symbol too, whose
/// code is empty.
pub proof fn lemma_round_trip(text: Seq<char>, padding: Seq<bool>)
    requires
        0 < text.len() <= usize::MAX,
    ensures
        decode(
            huffman_tree(frequency_map(text)),
            encode(text, code_map(huffman_tree(frequency_map(text)))) + padding,
        ) == text,
{
    let tree = huffman_tree(frequency_map(text));
    lemma_tree_of_text(text);
    lemma_weight_conservation(text);
    lemma_decode_encode(tree, text, padding);
}

/// Truncated stream: where the code of a text is cut short, decoding gives
/// the first symbols of the text and leaves the symbol that was cut aside.
pub proof fn lemma_truncated_stream(text: Seq<char>, n: int)
    requires
        0 < text.len() <= usize::MAX,
        0 <= n <= encode(text, code_map(huffman_tree(frequency_map(text)))).len(),
    ensures
        decode(
            huffman_tree(frequency_map(text)),
            encode(text, code_map(huffman_tree(frequency_map(text)))).take(n),
        ).is_prefix_of(text),
{
    let tree = huffman_tree(frequency_map(text));
    lemma_tree_of_text(text);
    lemma_weight_conservation(text);
    lemma_decode_partial(tree, text, n);
}

/// Prefix-freedom: among the codes of the tree of a frequency mapping, none
/// is a prefix of another.
pub proof fn lemma_tree_codes_prefix_free(table: Map<char, nat>)
    ensures
        prefix_free(code_map(huffman_tree(table))),
{
    lemma_code_map_prefix_free(huffman_tree(table));
}

/// Determinism: two frequency tables that stand for the same mapping have
/// the same entries, and so the same tree and the same codes.
pub proof fn lemma_same_mapping_same_tree(a: FrequencyTable, b: FrequencyTable)
    requires
        a.wf(),
        b.wf(),
        a@ == b@,
    ensures
        a.entries() == b.entries(),
        huffman_tree(a@) == huffman_tree(b@),
        code_map(huffman_tree(a@)) == code_map(huffman_tree(b@)),
{
    a.lemma_wf();
    b.lemma_wf();
}

/// Round trip through the file: where a text can be compressed,
/// decompressing the file gives the text. The empty text is among them.
pub proof fn lemma_file_round_trip(text: Seq<char>)
    requires
        text.len() <= usize::MAX,
        compress_spec(text) is Ok,
    ensures
        compress_spec(text) matches Ok(data) && decompress_spec(data) == Ok::<Seq<char>, Failure>(
            text,
        ),
{
    if text.len() == 0 {
        let data = seq![line_end_byte()];
        assert(crate::format::line_length(data, 0) == 0);
        assert(crate::format::header_bytes(data) =~= Seq::<u8>::empty());
        assert(vstd::utf8::valid_utf8(Seq::<u8>::empty()));
        assert(vstd::utf8::decode_utf8(Seq::<u8>::empty()) =~= Seq::<char>::empty());
        assert(text =~= Seq::<char>::empty());
    } else {
        let table = frequency_map(text);
        let entries = sorted_entries(table);
        let tree = huffman_tree(table);
        let bits = encode(text, code_map(tree));
        let header = header_text(entries);
        let payload = pack_bits(bits);
        let data = vstd::utf8::encode_utf8(header) + seq![line_end_byte()] + payload;
        lemma_frequency_entries(text);
        lemma_header_one_line(entries);
        lemma_file_parts(header, payload);
        lemma_ascending_distinct(entries);
        lemma_header_round_trip(entries);
        lemma_unpack_pack(bits);
        let all = unpack_bytes(payload);
        let rest = all.skip(bits.len() as int);
        assert(all =~= bits + rest);
        lemma_round_trip(text, rest);
    }
}

} // verus!
