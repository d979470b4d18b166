use huffman::bits::BitBuffer;
use huffman::decode::decode;
use huffman::bits::MAX_BITS;
use huffman::encode::{encode_data, MAX_INPUT_LEN};
use huffman::error::CodecError;
use huffman::tree_util::ShortHufTreeNode;

fn round_trip(data: &[u8]) -> Vec<u8> {
    let (tree, bits, fillup) = encode_data(data).unwrap();
    decode(&tree, &bits.slice(fillup as usize, bits.len())).unwrap()
}

fn bools(text: &str) -> Vec<bool> {
    text.bytes().map(|c| c == b'1').collect()
}

#[test]
fn encode_decode_same_result() {
    let data = b"sesamstrasse";

    let encode_result = encode_data(data).unwrap();
    let tree = encode_result.0;
    let bitsequence = encode_result.1;
    let fillup = encode_result.2;

    let decode_result =
        decode(&tree, &bitsequence.slice(fillup as usize, bitsequence.len())).unwrap();

    assert_eq!(&data[..], &decode_result[..]);
}

#[test]
fn sesamstrasse_has_the_expected_encoding() {
    let (tree, bits, fillup) = encode_data(b"sesamstrasse").unwrap();
    let expected = vec![
        ShortHufTreeNode::new(b'm', -1, -1),
        ShortHufTreeNode::new(b'r', -1, -1),
        ShortHufTreeNode::new(b't', -1, -1),
        ShortHufTreeNode::new(b'a', -1, -1),
        ShortHufTreeNode::new(b'e', -1, -1),
        ShortHufTreeNode::new(b's', -1, -1),
        ShortHufTreeNode::new(0, 0, 1),
        ShortHufTreeNode::new(0, 2, 3),
        ShortHufTreeNode::new(0, 4, 6),
        ShortHufTreeNode::new(0, 7, 8),
        ShortHufTreeNode::new(0, 5, 9),
    ];
    assert_eq!(tree, expected);
    assert_eq!(fillup, 4);
    assert_eq!(bits.to_bools(), bools("00000110010111100100111110100110"));
    assert_eq!(bits.to_bytes(), vec![6, 94, 79, 166]);
}

#[test]
fn single_repeated_byte_has_a_tree_of_one_leaf() {
    let (tree, bits, fillup) = encode_data(b"aaaa").unwrap();
    assert_eq!(tree, vec![ShortHufTreeNode::new(b'a', -1, -1)]);
    assert_eq!(fillup, 4);
    assert_eq!(bits.to_bools(), bools("00000000"));
    let decoded = decode(&tree, &bits.slice(fillup as usize, bits.len())).unwrap();
    assert_eq!(decoded, b"aaaa".to_vec());
}

#[test]
fn single_byte_input_round_trips() {
    let (tree, bits, fillup) = encode_data(b"a").unwrap();
    assert_eq!(tree.len(), 1);
    assert_eq!(fillup, 7);
    assert_eq!(bits.len(), 8);
    assert_eq!(round_trip(b"a"), b"a".to_vec());
}

#[test]
fn empty_input_is_refused() {
    let result = encode_data(b"");
    assert!(matches!(result, Err(CodecError::EmptyInput)));
}

#[test]
fn two_equally_frequent_symbols_get_one_bit_each() {
    let (tree, bits, fillup) = encode_data(b"abab").unwrap();
    assert_eq!(
        tree,
        vec![
            ShortHufTreeNode::new(b'a', -1, -1),
            ShortHufTreeNode::new(b'b', -1, -1),
            ShortHufTreeNode::new(0, 0, 1),
        ]
    );
    assert_eq!(fillup, 4);
    assert_eq!(bits.to_bools(), bools("00000101"));
    let decoded = decode(&tree, &bits.slice(fillup as usize, bits.len())).unwrap();
    assert_eq!(decoded, b"abab".to_vec());
}

#[test]
fn payload_short_of_one_bit_is_reported() {
    let (tree, bits, fillup) = encode_data(b"sesamstrasse").unwrap();
    let cut = bits.slice(fillup as usize, bits.len() - 1);
    let result = decode(&tree, &cut);
    assert_eq!(
        result,
        Err(CodecError::TruncatedOrInvalidPayload { unconsumed: 2 })
    );
}

#[test]
fn payload_cut_in_a_long_codeword_counts_the_left_over_bits() {
    // "m" has the codeword 1110: three of its bits are left over
    let (tree, _, _) = encode_data(b"sesamstrasse").unwrap();
    let bits = BitBuffer::from_bools(&bools("0110111"));
    assert_eq!(
        decode(&tree, &bits),
        Err(CodecError::TruncatedOrInvalidPayload { unconsumed: 3 })
    );
}

#[test]
fn round_trip_holds_on_many_inputs() {
    let inputs: Vec<Vec<u8>> = vec![
        b"abracadabra".to_vec(),
        b"a".to_vec(),
        b"ab".to_vec(),
        b"aab".to_vec(),
        b"the quick brown fox jumps over the lazy dog".to_vec(),
        (0..=255u8).collect(),
        (0..=255u8).chain(0..=100u8).chain(0..=10u8).collect(),
        vec![0u8; 1000],
        vec![255u8, 0, 255, 0, 0, 0, 7],
    ];
    for input in inputs {
        assert_eq!(round_trip(&input), input);
    }
}

#[test]
fn round_trip_holds_on_pseudo_random_inputs() {
    let mut state: u32 = 12345;
    for round in 0..40usize {
        let len = 1 + (round * 37) % 500;
        let spread = 1 + (round * 7) % 256;
        let mut input: Vec<u8> = Vec::new();
        for _ in 0..len {
            state = state.wrapping_mul(1664525).wrapping_add(1013904223);
            input.push(((state >> 16) as usize % spread) as u8);
        }
        let (tree, bits, fillup) = encode_data(&input).unwrap();
        assert!(fillup <= 7);
        assert_eq!(bits.len() % 8, 0);
        let mut seen = [false; 256];
        for byte in &input {
            seen[*byte as usize] = true;
        }
        let distinct = seen.iter().filter(|s| **s).count();
        assert_eq!(tree.len(), 2 * distinct - 1);
        let decoded = decode(&tree, &bits.slice(fillup as usize, bits.len())).unwrap();
        assert_eq!(decoded, input);
    }
}

#[test]
fn round_trip_holds_on_skewed_frequencies() {
    // frequencies 1, 2, 4, 8, ..., which make the deepest tree
    let mut input: Vec<u8> = Vec::new();
    for value in 0..12u8 {
        for _ in 0..(1usize << value) {
            input.push(value);
        }
    }
    assert_eq!(round_trip(&input), input);
}

#[test]
fn tree_has_one_node_less_than_twice_the_distinct_values() {
    let inputs: Vec<(Vec<u8>, usize)> = vec![
        (b"aaaa".to_vec(), 1),
        (b"abab".to_vec(), 2),
        (b"sesamstrasse".to_vec(), 6),
        (b"abracadabra".to_vec(), 5),
        ((0..=255u8).collect(), 256),
    ];
    for (input, distinct) in inputs {
        let (tree, _, _) = encode_data(&input).unwrap();
        assert_eq!(tree.len(), 2 * distinct - 1);
        let leaves = tree.iter().filter(|n| n.left == -1 && n.right == -1).count();
        assert_eq!(leaves, distinct);
    }
}

#[test]
fn padding_brings_the_payload_to_whole_bytes() {
    let inputs: Vec<(Vec<u8>, u8)> = vec![
        (b"a".to_vec(), 7),
        (b"aa".to_vec(), 6),
        (b"aaaaaaa".to_vec(), 1),
        (b"aaaaaaaa".to_vec(), 0),
        (b"aaaaaaaaa".to_vec(), 7),
        (b"abracadabra".to_vec(), 1),
    ];
    for (input, expected) in inputs {
        let (_, bits, fillup) = encode_data(&input).unwrap();
        assert_eq!(fillup, expected);
        assert!(fillup <= 7);
        assert_eq!(bits.len() % 8, 0);
        for i in 0..fillup as usize {
            assert!(!bits.get(i));
        }
    }
}

#[test]
fn input_limit_leaves_room_for_255_bits_per_byte_and_the_padding() {
    assert_eq!(MAX_INPUT_LEN, (MAX_BITS - 7) / 255);
    assert!(MAX_INPUT_LEN * 255 + 7 <= MAX_BITS);
}

#[test]
fn encoding_twice_gives_the_same_result() {
    let input: Vec<u8> = b"it was the best of times, it was the worst of times".to_vec();
    let (tree, bits, fillup) = encode_data(&input).unwrap();
    let (other_tree, other_bits, other_fillup) = encode_data(&input).unwrap();
    assert_eq!(tree, other_tree);
    assert_eq!(bits.to_bools(), other_bits.to_bools());
    assert_eq!(fillup, other_fillup);
}

#[test]
fn equally_frequent_values_become_leaves_in_ascending_order() {
    let (tree, _, _) = encode_data(b"dcba").unwrap();
    let leaves: Vec<u8> = tree.iter().take(4).map(|n| n.val).collect();
    assert_eq!(leaves, b"abcd".to_vec());
    let (tree, _, _) = encode_data(b"zzzyyx").unwrap();
    let leaves: Vec<u8> = tree.iter().take(3).map(|n| n.val).collect();
    assert_eq!(leaves, b"xyz".to_vec());
}
