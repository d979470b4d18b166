use huffman::forest::{build_tree, take_less};
use huffman::frequency::{count_frequencies, sorted_leaves};
use huffman::tree_util::{HufTreeNode, ShortHufTreeNode};
use std::collections::VecDeque;

fn leaf(val: u8, freq: usize) -> HufTreeNode {
    HufTreeNode::new(val, freq, -1, -1)
}

#[test]
fn new_node_keeps_its_fields() {
    let node = HufTreeNode::new(7, 42, 3, -1);
    assert_eq!(node.val, 7);
    assert_eq!(node.freq, 42);
    assert_eq!(node.left, 3);
    assert_eq!(node.right, -1);
}

#[test]
fn new_short_node_keeps_its_fields() {
    let node = ShortHufTreeNode::new(9, -1, 12);
    assert_eq!(node.val, 9);
    assert_eq!(node.left, -1);
    assert_eq!(node.right, 12);
}

#[test]
fn to_short_drops_the_frequency() {
    let node = HufTreeNode::new(200, 1234, 5, 6);
    assert_eq!(node.to_short(), ShortHufTreeNode::new(200, 5, 6));
}

#[test]
fn frequencies_count_each_byte_value() {
    let table = count_frequencies(b"sesamstrasse");
    assert_eq!(table.len(), 6);
    assert_eq!(table.get(&b's'), Some(&5));
    assert_eq!(table.get(&b'e'), Some(&2));
    assert_eq!(table.get(&b'a'), Some(&2));
    assert_eq!(table.get(&b'm'), Some(&1));
    assert_eq!(table.get(&b'r'), Some(&1));
    assert_eq!(table.get(&b't'), Some(&1));
    assert_eq!(table.get(&b'x'), None);
}

#[test]
fn frequencies_of_no_bytes_are_empty() {
    assert!(count_frequencies(b"").is_empty());
}

#[test]
fn leaves_are_ordered_by_frequency_then_value() {
    let leaves = sorted_leaves(b"sesamstrasse");
    assert_eq!(
        leaves,
        vec![
            leaf(b'm', 1),
            leaf(b'r', 1),
            leaf(b't', 1),
            leaf(b'a', 2),
            leaf(b'e', 2),
            leaf(b's', 5),
        ]
    );
}

#[test]
fn leaves_of_no_bytes_are_none() {
    assert_eq!(sorted_leaves(b""), vec![]);
}

#[test]
fn leaves_of_all_byte_values_are_256() {
    let input: Vec<u8> = (0..=255u8).rev().collect();
    let leaves = sorted_leaves(&input);
    assert_eq!(leaves.len(), 256);
    for (i, node) in leaves.iter().enumerate() {
        assert_eq!(*node, leaf(i as u8, 1));
    }
}

#[test]
fn take_less_prefers_the_rarer_front() {
    let tree = vec![leaf(b'a', 5), leaf(b'b', 9), HufTreeNode::new(0, 3, 0, 0)];
    let mut queue1: VecDeque<usize> = VecDeque::from(vec![0, 1]);
    let mut queue2: VecDeque<usize> = VecDeque::from(vec![2]);
    assert_eq!(take_less(&mut queue1, &mut queue2, &tree), (2, 3));
    assert_eq!(queue1, VecDeque::from(vec![0, 1]));
    assert!(queue2.is_empty());
    assert_eq!(take_less(&mut queue1, &mut queue2, &tree), (0, 5));
    assert_eq!(take_less(&mut queue1, &mut queue2, &tree), (1, 9));
    assert!(queue1.is_empty());
}

#[test]
fn take_less_prefers_the_first_queue_on_a_tie() {
    let tree = vec![leaf(b'a', 4), HufTreeNode::new(0, 4, 0, 0)];
    let mut queue1: VecDeque<usize> = VecDeque::from(vec![0]);
    let mut queue2: VecDeque<usize> = VecDeque::from(vec![1]);
    assert_eq!(take_less(&mut queue1, &mut queue2, &tree), (0, 4));
    assert!(queue1.is_empty());
    assert_eq!(queue2, VecDeque::from(vec![1]));
}

#[test]
fn take_less_takes_from_the_second_queue_when_the_first_is_empty() {
    let tree = vec![leaf(b'a', 4), HufTreeNode::new(0, 8, 0, 0)];
    let mut queue1: VecDeque<usize> = VecDeque::new();
    let mut queue2: VecDeque<usize> = VecDeque::from(vec![1, 0]);
    assert_eq!(take_less(&mut queue1, &mut queue2, &tree), (1, 8));
    assert_eq!(queue2, VecDeque::from(vec![0]));
}

#[test]
fn build_tree_merges_the_two_rarest_roots() {
    let leaves = sorted_leaves(b"sesamstrasse");
    let tree = build_tree(leaves);
    assert_eq!(
        tree,
        vec![
            leaf(b'm', 1),
            leaf(b'r', 1),
            leaf(b't', 1),
            leaf(b'a', 2),
            leaf(b'e', 2),
            leaf(b's', 5),
            HufTreeNode::new(0, 2, 0, 1),
            HufTreeNode::new(0, 3, 2, 3),
            HufTreeNode::new(0, 4, 4, 6),
            HufTreeNode::new(0, 7, 7, 8),
            HufTreeNode::new(0, 12, 5, 9),
        ]
    );
}

#[test]
fn build_tree_of_one_leaf_is_that_leaf() {
    assert_eq!(build_tree(vec![leaf(b'q', 3)]), vec![leaf(b'q', 3)]);
}

#[test]
fn build_tree_root_weighs_as_much_as_the_input_is_long() {
    let input = b"the quick brown fox jumps over the lazy dog";
    let tree = build_tree(sorted_leaves(input));
    assert_eq!(tree[tree.len() - 1].freq, input.len());
}
