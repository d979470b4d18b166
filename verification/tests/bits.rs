use huffman::bits::{BitBuffer, MAX_BITS};

fn bools(text: &str) -> Vec<bool> {
    text.bytes().map(|c| c == b'1').collect()
}

#[test]
fn buffer_of_bools_holds_them_in_order() {
    let bits = bools("1011000111");
    let buffer = BitBuffer::from_bools(&bits);
    assert_eq!(buffer.len(), 10);
    assert_eq!(buffer.to_bools(), bits);
    for (i, bit) in bits.iter().enumerate() {
        assert_eq!(buffer.get(i), *bit);
    }
}

#[test]
fn empty_buffer_has_no_bits() {
    let buffer = BitBuffer::from_bools(&[]);
    assert_eq!(buffer.len(), 0);
    assert_eq!(buffer.to_bools(), Vec::<bool>::new());
    assert_eq!(buffer.to_bytes(), Vec::<u8>::new());
}

#[test]
fn slice_takes_the_bits_of_a_range() {
    let buffer = BitBuffer::from_bools(&bools("1011000111"));
    assert_eq!(buffer.slice(2, 7).to_bools(), bools("11000"));
    assert_eq!(buffer.slice(0, 10).to_bools(), bools("1011000111"));
    assert_eq!(buffer.slice(4, 4).to_bools(), bools(""));
    assert_eq!(buffer.slice(9, 10).to_bools(), bools("1"));
}

#[test]
fn bytes_hold_the_most_significant_bit_first() {
    let buffer = BitBuffer::from_bools(&bools("1000000000000001"));
    assert_eq!(buffer.to_bytes(), vec![0x80, 0x01]);
    let buffer = BitBuffer::from_bools(&bools("00000110010111100100111110100110"));
    assert_eq!(buffer.to_bytes(), vec![6, 94, 79, 166]);
}

#[test]
fn bits_of_bytes_start_at_the_most_significant_bit() {
    let buffer = BitBuffer::from_bytes(&[0x80, 0x01, 0xA5]);
    assert_eq!(buffer.len(), 24);
    assert_eq!(buffer.to_bools(), bools("100000000000000110100101"));
}

#[test]
fn bytes_and_bits_convert_back_and_forth() {
    let bytes: Vec<u8> = (0..=255u8).collect();
    let buffer = BitBuffer::from_bytes(&bytes);
    assert_eq!(buffer.len(), 2048);
    assert_eq!(buffer.to_bytes(), bytes);
    let sliced = buffer.slice(8, 24);
    assert_eq!(sliced.to_bytes(), vec![1, 2]);
}

#[test]
fn bytes_of_a_slice_do_not_depend_on_where_it_began() {
    let buffer = BitBuffer::from_bytes(&[0b0001_1110, 0b0110_0000]);
    let sliced = buffer.slice(3, 11);
    assert_eq!(sliced.to_bools(), bools("11110011"));
    assert_eq!(sliced.to_bytes(), vec![0b1111_0011]);
}

#[test]
fn max_bits_is_an_eighth_of_the_address_space() {
    assert_eq!(MAX_BITS, usize::MAX / 8);
}
