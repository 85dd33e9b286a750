use huffman::{
    build_encoding_table, build_frequency_table, build_huffman_tree, decode_text, encode_text,
    BitSequence, FrequencyTable, HuffmanError, HuffmanNode,
};

fn bits(pattern: &str) -> BitSequence {
    let bools: Vec<bool> = pattern.chars().map(|c| c == '1').collect();
    BitSequence::from_bools(&bools).unwrap()
}

fn pattern(bits: &BitSequence) -> String {
    bits.to_bools().iter().map(|b| if *b { '1' } else { '0' }).collect()
}

fn leaf(symbol: char, weight: usize) -> HuffmanNode {
    HuffmanNode::Leaf { symbol, weight }
}

fn node(left: HuffmanNode, right: HuffmanNode) -> HuffmanNode {
    HuffmanNode::Internal {
        weight: left.weight() + right.weight(),
        left: Box::new(left),
        right: Box::new(right),
    }
}

fn tree_of(text: &str) -> HuffmanNode {
    build_huffman_tree(&build_frequency_table(text)).unwrap()
}

fn conserves_weight(tree: &HuffmanNode) -> bool {
    match tree {
        HuffmanNode::Leaf { .. } => true,
        HuffmanNode::Internal { weight, left, right } => {
            *weight == left.weight() + right.weight()
                && conserves_weight(left)
                && conserves_weight(right)
        }
    }
}

fn leaf_total(tree: &HuffmanNode) -> usize {
    match tree {
        HuffmanNode::Leaf { weight, .. } => *weight,
        HuffmanNode::Internal { left, right, .. } => leaf_total(left) + leaf_total(right),
    }
}

fn round_trip(text: &str) -> String {
    let tree = tree_of(text);
    let codes = build_encoding_table(&tree);
    let encoded = encode_text(text, &codes).unwrap();
    decode_text(&encoded, &tree)
}

#[test]
fn frequency_table_of_abracadabra() {
    let table = build_frequency_table("abracadabra");
    assert_eq!(table.to_vec(), vec![('a', 5), ('b', 2), ('c', 1), ('d', 1), ('r', 2)]);
    assert_eq!(table.len(), 5);
    assert_eq!(table.total(), 11);
    assert_eq!(table.get('a'), Some(5));
    assert_eq!(table.get('r'), Some(2));
    assert_eq!(table.get('z'), None);
    assert!(!table.is_empty());
}

#[test]
fn frequency_table_of_empty_text_is_empty() {
    let table = build_frequency_table("");
    assert!(table.is_empty());
    assert_eq!(table.len(), 0);
    assert_eq!(table.total(), 0);
    assert_eq!(table.to_vec(), Vec::<(char, usize)>::new());
}

#[test]
fn frequency_table_counts_symbols_beyond_ascii() {
    let table = build_frequency_table("née, été ✓✓");
    assert_eq!(table.get('é'), Some(3));
    assert_eq!(table.get('✓'), Some(2));
    assert_eq!(table.get(' '), Some(2));
    assert_eq!(table.total(), 11);
}

#[test]
fn frequency_table_from_pairs_in_any_order() {
    let a = FrequencyTable::from_pairs(&[('b', 2), ('a', 5)]).unwrap();
    let b = FrequencyTable::from_pairs(&[('a', 5), ('b', 2)]).unwrap();
    assert_eq!(a.to_vec(), vec![('a', 5), ('b', 2)]);
    assert_eq!(a.to_vec(), b.to_vec());
}

#[test]
fn frequency_table_from_pairs_refuses_a_repeated_symbol() {
    assert!(FrequencyTable::from_pairs(&[('a', 1), ('b', 2), ('a', 3)]).is_none());
}

#[test]
fn frequency_table_from_pairs_refuses_a_zero_count() {
    assert!(FrequencyTable::from_pairs(&[('a', 1), ('b', 0)]).is_none());
}

#[test]
fn frequency_table_from_pairs_refuses_an_overflowing_total() {
    assert!(FrequencyTable::from_pairs(&[('a', usize::MAX), ('b', 1)]).is_none());
    assert!(FrequencyTable::from_pairs(&[('a', usize::MAX - 1), ('b', 1)]).is_some());
}

#[test]
fn frequency_table_insert_reports_what_it_did() {
    let mut table = FrequencyTable::new();
    assert!(table.insert('x', 3));
    assert!(!table.insert('x', 4));
    assert!(!table.insert('y', 0));
    assert!(!table.insert('y', usize::MAX));
    assert!(table.insert('a', 1));
    assert_eq!(table.to_vec(), vec![('a', 1), ('x', 3)]);
    assert_eq!(table.total(), 4);
}

#[test]
fn tree_of_empty_table_is_invalid_input() {
    let table = build_frequency_table("");
    assert_eq!(build_huffman_tree(&table), Err(HuffmanError::InvalidInput));
}

#[test]
fn tree_of_one_symbol_is_a_leaf() {
    assert_eq!(tree_of("aaaa"), leaf('a', 4));
    assert!(tree_of("aaaa").is_leaf());
}

#[test]
fn tree_of_abracadabra() {
    let expected = node(
        leaf('a', 5),
        node(node(leaf('c', 1), leaf('d', 1)), node(leaf('b', 2), leaf('r', 2))),
    );
    let tree = tree_of("abracadabra");
    assert_eq!(tree, expected);
    assert_eq!(tree.weight(), 11);
    assert!(!tree.is_leaf());
}

#[test]
fn tree_breaks_ties_by_symbol_and_then_by_age() {
    // Four leaves of weight 1: a and b merge first, then c and d, and the
    // older merged node is the lighter of the last two.
    let expected = node(node(leaf('a', 1), leaf('b', 1)), node(leaf('c', 1), leaf('d', 1)));
    assert_eq!(tree_of("dcba"), expected);
    assert_eq!(tree_of("abcd"), expected);
}

#[test]
fn tree_depends_on_the_mapping_alone() {
    let a = FrequencyTable::from_pairs(&[('r', 2), ('a', 5), ('d', 1), ('b', 2), ('c', 1)]).unwrap();
    assert_eq!(build_huffman_tree(&a).unwrap(), tree_of("abracadabra"));
    assert_eq!(tree_of("abracadabra"), tree_of("arbadacarba"));
}

#[test]
fn tree_conserves_weight() {
    for text in ["abracadabra", "mississippi river", "aaaa", "ab", "the quick brown fox"] {
        let tree = tree_of(text);
        assert!(conserves_weight(&tree));
        assert_eq!(tree.weight(), leaf_total(&tree));
        assert_eq!(tree.weight(), text.chars().count());
    }
}

#[test]
fn codes_of_abracadabra() {
    let codes = build_encoding_table(&tree_of("abracadabra"));
    assert_eq!(pattern(codes.get('a').unwrap()), "0");
    assert_eq!(pattern(codes.get('c').unwrap()), "100");
    assert_eq!(pattern(codes.get('d').unwrap()), "101");
    assert_eq!(pattern(codes.get('b').unwrap()), "110");
    assert_eq!(pattern(codes.get('r').unwrap()), "111");
    assert!(codes.get('z').is_none());
    assert!(codes.contains('a'));
    assert!(!codes.contains('z'));
}

#[test]
fn most_frequent_symbol_has_the_shortest_code() {
    let codes = build_encoding_table(&tree_of("abracadabra"));
    let a = codes.get('a').unwrap().len();
    for c in ['b', 'r', 'c', 'd'] {
        assert!(a <= codes.get(c).unwrap().len());
    }
    assert!(codes.get('c').unwrap().len() >= a);
    assert!(codes.get('d').unwrap().len() >= a);
}

#[test]
fn code_of_a_single_leaf_is_empty() {
    let codes = build_encoding_table(&leaf('a', 4));
    assert_eq!(codes.get('a').unwrap().len(), 0);
    assert!(codes.get('b').is_none());
}

#[test]
fn codes_are_prefix_free() {
    let text = "it was the best of times, it was the worst of times";
    let table = build_frequency_table(text);
    let codes = build_encoding_table(&build_huffman_tree(&table).unwrap());
    let symbols: Vec<char> = table.to_vec().iter().map(|e| e.0).collect();
    for a in &symbols {
        for b in &symbols {
            if a != b {
                let x = codes.get(*a).unwrap().to_bools();
                let y = codes.get(*b).unwrap().to_bools();
                assert!(!y.starts_with(&x));
            }
        }
    }
}

#[test]
fn codes_of_a_tree_made_by_hand() {
    let tree = node(leaf('x', 1), node(leaf('y', 1), leaf('z', 1)));
    let codes = build_encoding_table(&tree);
    assert_eq!(pattern(codes.get('x').unwrap()), "0");
    assert_eq!(pattern(codes.get('y').unwrap()), "10");
    assert_eq!(pattern(codes.get('z').unwrap()), "11");
}

#[test]
fn rightmost_leaf_wins_where_a_symbol_is_repeated() {
    let tree = node(leaf('x', 1), node(leaf('y', 1), leaf('x', 1)));
    let codes = build_encoding_table(&tree);
    assert_eq!(pattern(codes.get('x').unwrap()), "11");
}

#[test]
fn encode_abracadabra() {
    let codes = build_encoding_table(&tree_of("abracadabra"));
    let encoded = encode_text("abracadabra", &codes).unwrap();
    assert_eq!(pattern(&encoded), "01101110100010101101110");
    assert_eq!(encoded.len(), 23);
}

#[test]
fn encode_empty_text_is_empty() {
    let codes = build_encoding_table(&tree_of("abracadabra"));
    assert_eq!(encode_text("", &codes).unwrap().len(), 0);
}

#[test]
fn encode_single_symbol_text_is_empty() {
    let codes = build_encoding_table(&tree_of("aaaa"));
    assert_eq!(encode_text("aaaa", &codes).unwrap().len(), 0);
}

#[test]
fn encode_reports_the_first_unknown_symbol() {
    let codes = build_encoding_table(&tree_of("abracadabra"));
    let r = encode_text("abxyz", &codes);
    assert_eq!(r.err(), Some(HuffmanError::UnknownSymbol('x')));
}

#[test]
fn decode_abracadabra() {
    let tree = tree_of("abracadabra");
    assert_eq!(decode_text(&bits("01101110100010101101110"), &tree), "abracadabra");
}

#[test]
fn decode_leaves_padding_aside() {
    let tree = tree_of("abracadabra");
    assert_eq!(decode_text(&bits("011011101000101011011100"), &tree), "abracadabra");
    assert_eq!(decode_text(&bits("0110111010001010110111000000000"), &tree), "abracadabra");
}

#[test]
fn decode_stops_where_the_bits_end_inside_a_symbol() {
    let tree = tree_of("abracadabra");
    assert_eq!(decode_text(&bits("011011"), &tree), "ab");
    assert_eq!(decode_text(&bits("0110"), &tree), "ab");
    assert_eq!(decode_text(&bits(""), &tree), "");
}

#[test]
fn decode_single_leaf_repeats_the_symbol() {
    assert_eq!(decode_text(&bits(""), &leaf('a', 4)), "aaaa");
    assert_eq!(decode_text(&bits("0000000"), &leaf('a', 4)), "aaaa");
    assert_eq!(decode_text(&bits("1"), &leaf('q', 0)), "");
}

#[test]
fn decode_with_a_tree_made_by_hand() {
    let tree = node(leaf('x', 1), node(leaf('y', 1), leaf('z', 1)));
    assert_eq!(decode_text(&bits("11100"), &tree), "zyx");
    assert_eq!(decode_text(&bits("1110"), &tree), "zy");
}

#[test]
fn round_trip_of_abracadabra() {
    assert_eq!(round_trip("abracadabra"), "abracadabra");
}

#[test]
fn round_trip_of_single_symbol_text() {
    assert_eq!(round_trip("aaaa"), "aaaa");
    assert_eq!(round_trip("z"), "z");
}

#[test]
fn round_trip_of_various_texts() {
    for text in [
        "ab",
        "hello, world",
        "line one\nline two\n",
        "pipes | and : colons 0123456789",
        "née, été ✓✓ 日本語のテキスト",
        "the quick brown fox jumps over the lazy dog",
    ] {
        assert_eq!(round_trip(text), text);
    }
}

#[test]
fn error_messages_tell_the_variants_apart() {
    let all = [
        HuffmanError::InvalidInput,
        HuffmanError::MalformedHeader(String::from("a5")),
        HuffmanError::UnknownSymbol('x'),
        HuffmanError::UnsupportedSymbol('|'),
        HuffmanError::TooLarge,
    ];
    for (i, a) in all.iter().enumerate() {
        for (j, b) in all.iter().enumerate() {
            assert_eq!(i == j, a.message() == b.message());
        }
    }
}
