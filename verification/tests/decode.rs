use huffman::bits::BitBuffer;
use huffman::decode::{decode, validate_tree};
use huffman::error::CodecError;
use huffman::tree_util::ShortHufTreeNode;

fn bits(text: &str) -> BitBuffer {
    let bools: Vec<bool> = text.bytes().map(|c| c == b'1').collect();
    BitBuffer::from_bools(&bools)
}

fn small_tree() -> Vec<ShortHufTreeNode> {
    // a = 0, b = 10, c = 11
    vec![
        ShortHufTreeNode::new(b'b', -1, -1),
        ShortHufTreeNode::new(b'c', -1, -1),
        ShortHufTreeNode::new(b'a', -1, -1),
        ShortHufTreeNode::new(0, 0, 1),
        ShortHufTreeNode::new(0, 2, 3),
    ]
}

#[test]
fn decode_walks_left_on_zero_and_right_on_one() {
    let decoded = decode(&small_tree(), &bits("0101100")).unwrap();
    assert_eq!(decoded, b"abcaa".to_vec());
}

#[test]
fn decode_of_no_bits_is_empty() {
    assert_eq!(decode(&small_tree(), &bits("")), Ok(vec![]));
}

#[test]
fn decode_reports_a_codeword_that_is_cut() {
    assert_eq!(
        decode(&small_tree(), &bits("01")),
        Err(CodecError::TruncatedOrInvalidPayload { unconsumed: 1 })
    );
}

#[test]
fn decode_refuses_an_empty_tree() {
    assert_eq!(decode(&[], &bits("0")), Err(CodecError::MalformedTree));
    assert_eq!(decode(&[], &bits("")), Err(CodecError::MalformedTree));
}

#[test]
fn decode_refuses_a_node_with_one_child() {
    let tree = vec![
        ShortHufTreeNode::new(b'a', -1, -1),
        ShortHufTreeNode::new(0, 0, -1),
    ];
    assert_eq!(decode(&tree, &bits("0")), Err(CodecError::MalformedTree));
    let tree = vec![
        ShortHufTreeNode::new(b'a', -1, -1),
        ShortHufTreeNode::new(0, -1, 0),
    ];
    assert_eq!(decode(&tree, &bits("0")), Err(CodecError::MalformedTree));
}

#[test]
fn decode_refuses_a_child_outside_the_tree() {
    let tree = vec![
        ShortHufTreeNode::new(b'a', -1, -1),
        ShortHufTreeNode::new(0, 0, 2),
    ];
    assert_eq!(decode(&tree, &bits("0")), Err(CodecError::MalformedTree));
    let tree = vec![
        ShortHufTreeNode::new(b'a', -1, -1),
        ShortHufTreeNode::new(0, -2, 0),
    ];
    assert_eq!(decode(&tree, &bits("0")), Err(CodecError::MalformedTree));
}

#[test]
fn validate_tree_tells_valid_trees_from_others() {
    assert!(validate_tree(&small_tree()));
    assert!(validate_tree(&[ShortHufTreeNode::new(7, -1, -1)]));
    assert!(!validate_tree(&[]));
    assert!(!validate_tree(&[ShortHufTreeNode::new(7, 0, -1)]));
    assert!(!validate_tree(&[ShortHufTreeNode::new(7, 1, 1)]));
}

#[test]
fn decode_with_a_single_leaf_emits_one_byte_per_zero_bit() {
    let tree = vec![ShortHufTreeNode::new(b'x', -1, -1)];
    assert_eq!(decode(&tree, &bits("000")), Ok(b"xxx".to_vec()));
}

#[test]
fn decode_with_a_single_leaf_refuses_a_one_bit() {
    let tree = vec![ShortHufTreeNode::new(b'x', -1, -1)];
    assert_eq!(
        decode(&tree, &bits("0100")),
        Err(CodecError::TruncatedOrInvalidPayload { unconsumed: 3 })
    );
}
