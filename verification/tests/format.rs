use huffman::{
    build_frequency_table, compress, decompress, parse_header, serialize_header, FrequencyTable,
    HuffmanError,
};

fn malformed(token: &str) -> HuffmanError {
    HuffmanError::MalformedHeader(String::from(token))
}

#[test]
fn header_of_two_entries() {
    let table = FrequencyTable::from_pairs(&[('a', 5), ('b', 2)]).unwrap();
    assert_eq!(serialize_header(&table).unwrap(), "a:5|b:2|");
}

#[test]
fn header_of_abracadabra() {
    let table = build_frequency_table("abracadabra");
    assert_eq!(serialize_header(&table).unwrap(), "a:5|b:2|c:1|d:1|r:2|");
}

#[test]
fn header_of_empty_table_is_empty() {
    assert_eq!(serialize_header(&FrequencyTable::new()).unwrap(), "");
}

#[test]
fn header_writes_counts_in_decimal() {
    let table = FrequencyTable::from_pairs(&[('x', 10), ('y', 907), ('z', 1234567890)]).unwrap();
    assert_eq!(serialize_header(&table).unwrap(), "x:10|y:907|z:1234567890|");
}

#[test]
fn header_round_trip() {
    let table = FrequencyTable::from_pairs(&[('a', 5), ('b', 2)]).unwrap();
    let text = serialize_header(&table).unwrap();
    assert_eq!(parse_header(&text).unwrap().to_vec(), vec![('a', 5), ('b', 2)]);
}

#[test]
fn header_round_trip_in_any_order() {
    let forward = parse_header("a:5|b:2|").unwrap();
    let backward = parse_header("b:2|a:5|").unwrap();
    assert_eq!(forward.to_vec(), vec![('a', 5), ('b', 2)]);
    assert_eq!(backward.to_vec(), forward.to_vec());
}

#[test]
fn header_round_trip_of_symbols_that_look_like_syntax() {
    let table = FrequencyTable::from_pairs(&[(':', 3), ('1', 12), (' ', 4), ('é', 2)]).unwrap();
    let text = serialize_header(&table).unwrap();
    assert_eq!(text, " :4|1:12|::3|é:2|");
    assert_eq!(parse_header(&text).unwrap().to_vec(), table.to_vec());
}

#[test]
fn header_refuses_the_pair_delimiter_as_a_symbol() {
    let table = build_frequency_table("a|b");
    assert_eq!(serialize_header(&table), Err(HuffmanError::UnsupportedSymbol('|')));
}

#[test]
fn header_refuses_the_line_end_as_a_symbol() {
    let table = build_frequency_table("a|b\n");
    assert_eq!(serialize_header(&table), Err(HuffmanError::UnsupportedSymbol('\n')));
}

#[test]
fn parse_empty_header() {
    assert!(parse_header("").unwrap().is_empty());
}

#[test]
fn parse_accepts_a_last_pair_without_delimiter() {
    assert_eq!(parse_header("a:5|b:2").unwrap().to_vec(), vec![('a', 5), ('b', 2)]);
}

#[test]
fn parse_accepts_leading_zeros() {
    assert_eq!(parse_header("a:007|").unwrap().to_vec(), vec![('a', 7)]);
}

#[test]
fn parse_reports_a_missing_separator() {
    assert_eq!(parse_header("a:5|b2|c:1|").err(), Some(malformed("b2")));
    assert_eq!(parse_header("ab:5|").err(), Some(malformed("ab:5")));
}

#[test]
fn parse_reports_a_count_that_is_no_number() {
    assert_eq!(parse_header("a:x|").err(), Some(malformed("a:x")));
    assert_eq!(parse_header("a:|").err(), Some(malformed("a:")));
    assert_eq!(parse_header("a:+5|").err(), Some(malformed("a:+5")));
    assert_eq!(parse_header("a:5 |").err(), Some(malformed("a:5 ")));
}

#[test]
fn parse_reports_an_empty_pair() {
    assert_eq!(parse_header("a:5||b:2|").err(), Some(malformed("")));
    assert_eq!(parse_header("|").err(), Some(malformed("")));
}

#[test]
fn parse_reports_a_repeated_symbol() {
    assert_eq!(parse_header("a:5|b:2|a:3|").err(), Some(malformed("a:3")));
}

#[test]
fn parse_reports_a_zero_count() {
    assert_eq!(parse_header("a:5|b:0|").err(), Some(malformed("b:0")));
}

#[test]
fn parse_reports_a_count_beyond_the_machine_word() {
    let text = "a:340282366920938463463374607431768211456|";
    assert_eq!(
        parse_header(text).err(),
        Some(malformed("a:340282366920938463463374607431768211456"))
    );
}

#[test]
fn parse_reports_a_total_beyond_the_machine_word() {
    let text = format!("a:{}|b:1|", usize::MAX);
    assert_eq!(parse_header(&text).err(), Some(malformed("b:1")));
    let text = format!("a:{}|", usize::MAX);
    assert_eq!(parse_header(&text).unwrap().to_vec(), vec![('a', usize::MAX)]);
}

#[test]
fn compress_abracadabra() {
    let mut expected = b"a:5|b:2|c:1|d:1|r:2|\n".to_vec();
    expected.extend_from_slice(&[0x76, 0x51, 0x3b]);
    assert_eq!(compress("abracadabra").unwrap(), expected);
}

#[test]
fn compress_empty_text_is_the_line_end() {
    assert_eq!(compress("").unwrap(), b"\n".to_vec());
}

#[test]
fn compress_single_symbol_text_has_no_payload() {
    assert_eq!(compress("aaaa").unwrap(), b"a:4|\n".to_vec());
}

#[test]
fn compress_writes_the_header_in_utf8() {
    let bytes = compress("éé").unwrap();
    assert_eq!(bytes, vec![0xc3, 0xa9, b':', b'2', b'|', b'\n']);
}

#[test]
fn compress_refuses_text_with_a_line_end() {
    assert_eq!(compress("one\ntwo"), Err(HuffmanError::UnsupportedSymbol('\n')));
}

#[test]
fn compress_refuses_text_with_the_pair_delimiter() {
    assert_eq!(compress("a|b"), Err(HuffmanError::UnsupportedSymbol('|')));
}

#[test]
fn decompress_abracadabra() {
    let mut data = b"a:5|b:2|c:1|d:1|r:2|\n".to_vec();
    data.extend_from_slice(&[0x76, 0x51, 0x3b]);
    assert_eq!(decompress(&data).unwrap(), "abracadabra");
}

#[test]
fn decompress_takes_the_pairs_in_any_order() {
    let mut data = b"r:2|d:1|c:1|b:2|a:5|\n".to_vec();
    data.extend_from_slice(&[0x76, 0x51, 0x3b]);
    assert_eq!(decompress(&data).unwrap(), "abracadabra");
}

#[test]
fn decompress_empty_file_and_empty_header() {
    assert_eq!(decompress(b"").unwrap(), "");
    assert_eq!(decompress(b"\n").unwrap(), "");
    assert_eq!(decompress(b"\n\x01\x02").unwrap(), "");
}

#[test]
fn decompress_single_symbol_file() {
    assert_eq!(decompress(b"a:4|\n").unwrap(), "aaaa");
    assert_eq!(decompress(b"a:4|").unwrap(), "aaaa");
}

#[test]
fn decompress_a_payload_that_holds_line_ends() {
    // Only the first line end closes the header.
    assert_eq!(decompress(b"a:1|b:1|\n\x0a").unwrap(), "ab");
}

#[test]
fn decompress_a_truncated_payload_gives_what_is_there() {
    let mut data = b"a:5|b:2|c:1|d:1|r:2|\n".to_vec();
    data.extend_from_slice(&[0x76]);
    assert_eq!(decompress(&data).unwrap(), "abra");
}

#[test]
fn decompress_reports_a_malformed_token() {
    assert_eq!(decompress(b"a:5|b2|\n\x00"), Err(malformed("b2")));
}

#[test]
fn decompress_reports_a_header_that_is_no_text() {
    assert_eq!(decompress(&[0xff, 0xfe, b'\n']), Err(malformed("")));
}

#[test]
fn file_round_trip() {
    for text in [
        "",
        "a",
        "aaaa",
        "ab",
        "abracadabra",
        "hello, world: 0123456789",
        "née, été ✓✓ 日本語のテキスト",
        "the quick brown fox jumps over the lazy dog",
    ] {
        let data = compress(text).unwrap();
        assert_eq!(decompress(&data).unwrap(), text);
    }
}

#[test]
fn file_round_trip_of_a_long_text() {
    let mut text = String::new();
    for i in 0..2000u32 {
        text.push(char::from_u32(0x41 + (i * i + 7 * i) % 50).unwrap());
        text.push(' ');
    }
    let data = compress(&text).unwrap();
    assert!(data.len() < text.len());
    assert_eq!(decompress(&data).unwrap(), text);
}
