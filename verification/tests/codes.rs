use huffman::bits::BitBuffer;
use huffman::codes::CodeTable;
use huffman::forest::build_tree;
use huffman::frequency::sorted_leaves;
use huffman::tree_util::HufTreeNode;

fn bools(text: &str) -> Vec<bool> {
    text.bytes().map(|c| c == b'1').collect()
}

fn table_of(input: &[u8]) -> CodeTable {
    CodeTable::generate(&build_tree(sorted_leaves(input)))
}

#[test]
fn codewords_follow_the_paths_of_the_tree() {
    let table = table_of(b"sesamstrasse");
    assert_eq!(table.codeword(b's'), Some(bools("0")));
    assert_eq!(table.codeword(b't'), Some(bools("100")));
    assert_eq!(table.codeword(b'a'), Some(bools("101")));
    assert_eq!(table.codeword(b'e'), Some(bools("110")));
    assert_eq!(table.codeword(b'm'), Some(bools("1110")));
    assert_eq!(table.codeword(b'r'), Some(bools("1111")));
    assert_eq!(table.codeword(b'x'), None);
}

#[test]
fn single_leaf_has_the_codeword_zero() {
    let table = table_of(b"aaaa");
    assert_eq!(table.codeword(b'a'), Some(bools("0")));
    assert_eq!(table.codeword(b'b'), None);
}

#[test]
fn two_leaves_have_one_bit_each() {
    let table = table_of(b"abab");
    assert_eq!(table.codeword(b'a'), Some(bools("0")));
    assert_eq!(table.codeword(b'b'), Some(bools("1")));
}

#[test]
fn no_codeword_begins_another() {
    let input = b"the quick brown fox jumps over the lazy dog, again and again";
    let table = table_of(input);
    let mut codes: Vec<Vec<bool>> = Vec::new();
    for value in 0..=255u8 {
        match table.codeword(value) {
            Some(code) => {
                assert!(input.contains(&value));
                assert!(!code.is_empty());
                codes.push(code);
            }
            None => assert!(!input.contains(&value)),
        }
    }
    for (i, a) in codes.iter().enumerate() {
        for (j, b) in codes.iter().enumerate() {
            if i != j {
                assert!(!b.starts_with(a));
            }
        }
    }
}

#[test]
fn codewords_of_all_byte_values_have_eight_bits() {
    let input: Vec<u8> = (0..=255u8).collect();
    let table = table_of(&input);
    for value in 0..=255u8 {
        assert_eq!(table.codeword(value).unwrap().len(), 8);
    }
}

#[test]
fn append_code_adds_the_codeword_at_the_end() {
    let table = table_of(b"sesamstrasse");
    let mut out = BitBuffer::from_bools(&bools("11"));
    table.append_code(b'm', &mut out);
    table.append_code(b's', &mut out);
    assert_eq!(out.to_bools(), bools("1111100"));
}

#[test]
fn sibling_subtrees_do_not_see_each_others_bits() {
    // a tree of depth three on both sides of the root
    let leaf = |val: u8| HufTreeNode::new(val, 1, -1, -1);
    let inner = |left: i16, right: i16| HufTreeNode::new(0, 0, left, right);
    let tree = vec![
        leaf(b'a'),
        leaf(b'b'),
        leaf(b'c'),
        leaf(b'd'),
        leaf(b'e'),
        leaf(b'f'),
        leaf(b'g'),
        leaf(b'h'),
        inner(0, 1),
        inner(2, 3),
        inner(4, 5),
        inner(6, 7),
        inner(8, 9),
        inner(10, 11),
        inner(12, 13),
    ];
    let table = CodeTable::generate(&tree);
    let expected = ["000", "001", "010", "011", "100", "101", "110", "111"];
    for (i, code) in expected.iter().enumerate() {
        assert_eq!(table.codeword(b'a' + i as u8), Some(bools(code)));
    }
}

#[test]
fn value_on_two_leaves_has_the_codeword_of_the_later_leaf() {
    let tree = vec![
        HufTreeNode::new(b'a', 1, -1, -1),
        HufTreeNode::new(b'b', 1, -1, -1),
        HufTreeNode::new(b'a', 1, -1, -1),
        HufTreeNode::new(0, 2, 0, 1),
        HufTreeNode::new(0, 3, 3, 2),
    ];
    let table = CodeTable::generate(&tree);
    assert_eq!(table.codeword(b'a'), Some(bools("1")));
    assert_eq!(table.codeword(b'b'), Some(bools("01")));
}
