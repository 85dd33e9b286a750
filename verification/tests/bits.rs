use huffman::BitSequence;

fn bits(pattern: &str) -> BitSequence {
    let bools: Vec<bool> = pattern.chars().map(|c| c == '1').collect();
    BitSequence::from_bools(&bools).unwrap()
}

#[test]
fn new_sequence_is_empty() {
    let v = BitSequence::new();
    assert_eq!(v.len(), 0);
    assert_eq!(v.to_bools(), Vec::<bool>::new());
    assert_eq!(v.get(0), None);
}

#[test]
fn from_bools_keeps_order() {
    let v = bits("1011001");
    assert_eq!(v.len(), 7);
    assert_eq!(v.to_bools(), vec![true, false, true, true, false, false, true]);
}

#[test]
fn get_reads_each_bit() {
    let v = bits("100");
    assert_eq!(v.get(0), Some(true));
    assert_eq!(v.get(1), Some(false));
    assert_eq!(v.get(2), Some(false));
    assert_eq!(v.get(3), None);
}

#[test]
fn duplicate_has_the_same_bits() {
    let v = bits("0110");
    let w = v.duplicate();
    assert_eq!(w.to_bools(), v.to_bools());
    assert_eq!(w.len(), 4);
}

#[test]
fn into_bytes_packs_least_significant_bit_first() {
    assert_eq!(bits("101").into_bytes(), vec![0b0000_0101u8]);
    assert_eq!(bits("00000001").into_bytes(), vec![0b1000_0000u8]);
    assert_eq!(bits("10000000").into_bytes(), vec![0b0000_0001u8]);
}

#[test]
fn into_bytes_pads_the_last_byte_with_zeros() {
    assert_eq!(bits("111111111").into_bytes(), vec![0xffu8, 0x01u8]);
    assert_eq!(bits("1111111").into_bytes(), vec![0x7fu8]);
}

#[test]
fn into_bytes_of_nothing_is_nothing() {
    assert_eq!(BitSequence::new().into_bytes(), Vec::<u8>::new());
}

#[test]
fn into_bytes_of_full_bytes() {
    assert_eq!(bits("0110111010001010").into_bytes(), vec![0x76u8, 0x51u8]);
}

#[test]
fn from_bytes_unpacks_every_bit() {
    let v = BitSequence::from_bytes(&[0b0000_0101u8, 0x80u8]).unwrap();
    assert_eq!(v.len(), 16);
    assert_eq!(
        v.to_bools(),
        vec![
            true, false, true, false, false, false, false, false, false, false, false, false,
            false, false, false, true
        ]
    );
}

#[test]
fn from_bytes_of_nothing_is_empty() {
    let v = BitSequence::from_bytes(&[]).unwrap();
    assert_eq!(v.len(), 0);
}

#[test]
fn unpacking_a_packed_sequence_gives_it_back_with_padding() {
    let original = bits("1101001110");
    let expected = original.to_bools();
    let bytes = original.into_bytes();
    assert_eq!(bytes.len(), 2);
    let back = BitSequence::from_bytes(&bytes).unwrap().to_bools();
    assert_eq!(back.len(), 16);
    assert_eq!(&back[..10], &expected[..]);
    assert!(back[10..].iter().all(|b| !*b));
}
