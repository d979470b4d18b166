use huffman::bits::BitBuffer;
use huffman::error::CodecError;
use huffman::tree_util::ShortHufTreeNode;
use huffman::wire::{compress, decompress, read_tree, write_container, write_node, write_tree};

const SESAM: [u8; 62] = [
    11, 0, 109, 255, 255, 255, 255, 114, 255, 255, 255, 255, 116, 255, 255, 255, 255, 97, 255, 255,
    255, 255, 101, 255, 255, 255, 255, 115, 255, 255, 255, 255, 0, 0, 0, 1, 0, 0, 2, 0, 3, 0, 0, 4,
    0, 6, 0, 0, 7, 0, 8, 0, 0, 5, 0, 9, 0, 4, 6, 94, 79, 166,
];

#[test]
fn node_is_written_with_the_low_byte_first() {
    let mut output = vec![9u8];
    write_node(&mut output, ShortHufTreeNode::new(0x41, 0x0102, -2));
    assert_eq!(output, vec![9, 0x41, 0x02, 0x01, 0xFE, 0xFF]);
}

#[test]
fn leaf_is_written_with_both_children_absent() {
    let mut output = Vec::new();
    write_node(&mut output, ShortHufTreeNode::new(b's', -1, -1));
    assert_eq!(output, vec![b's', 255, 255, 255, 255]);
}

#[test]
fn extreme_children_are_written_in_twos_complement() {
    let mut output = Vec::new();
    write_node(&mut output, ShortHufTreeNode::new(0, i16::MAX, i16::MIN));
    assert_eq!(output, vec![0, 0xFF, 0x7F, 0x00, 0x80]);
    let tree = read_tree(&output, 0, 1).unwrap();
    assert_eq!(tree, vec![ShortHufTreeNode::new(0, i16::MAX, i16::MIN)]);
}

#[test]
fn tree_is_written_node_by_node() {
    let tree = vec![
        ShortHufTreeNode::new(b'a', -1, -1),
        ShortHufTreeNode::new(b'b', -1, -1),
        ShortHufTreeNode::new(0, 0, 1),
    ];
    let mut output = Vec::new();
    write_tree(&mut output, &tree);
    assert_eq!(
        output,
        vec![97, 255, 255, 255, 255, 98, 255, 255, 255, 255, 0, 0, 0, 1, 0]
    );
    assert_eq!(read_tree(&output, 0, 3), Ok(tree));
}

#[test]
fn read_tree_reads_from_an_offset() {
    let bytes = vec![7, 7, 0x41, 0x00, 0x01, 0xFF, 0xFF, 7];
    assert_eq!(
        read_tree(&bytes, 2, 1),
        Ok(vec![ShortHufTreeNode::new(0x41, 256, -1)])
    );
    assert_eq!(read_tree(&bytes, 2, 0), Ok(vec![]));
}

#[test]
fn read_tree_reports_missing_bytes() {
    let bytes = vec![0x41, 0x00, 0x01, 0xFF];
    assert_eq!(read_tree(&bytes, 0, 1), Err(CodecError::TruncatedContainer));
    assert_eq!(read_tree(&bytes, 4, 1), Err(CodecError::TruncatedContainer));
    assert_eq!(
        read_tree(&bytes, 0, u16::MAX),
        Err(CodecError::TruncatedContainer)
    );
}

#[test]
fn container_holds_count_tree_pad_count_and_payload() {
    let tree = vec![
        ShortHufTreeNode::new(b'a', -1, -1),
        ShortHufTreeNode::new(b'b', -1, -1),
        ShortHufTreeNode::new(0, 0, 1),
    ];
    let bits = BitBuffer::from_bytes(&[5]);
    assert_eq!(
        write_container(&tree, &bits, 4),
        vec![3, 0, 97, 255, 255, 255, 255, 98, 255, 255, 255, 255, 0, 0, 0, 1, 0, 4, 5]
    );
}

#[test]
fn compress_gives_the_expected_container() {
    assert_eq!(compress(b"sesamstrasse"), Ok(SESAM.to_vec()));
    assert_eq!(
        compress(b"aaaa"),
        Ok(vec![1, 0, 97, 255, 255, 255, 255, 4, 0])
    );
    assert_eq!(
        compress(b"abracadabra").unwrap()[47..].to_vec(),
        vec![1, 55, 69, 110]
    );
}

#[test]
fn container_of_all_byte_values_counts_511_nodes() {
    let input: Vec<u8> = (0..=255u8).collect();
    let container = compress(&input).unwrap();
    assert_eq!(container[..2].to_vec(), vec![255, 1]);
    // 511 nodes of five bytes, the pad count, one byte of payload per input byte
    assert_eq!(container.len(), 2 + 5 * 511 + 1 + 256);
    assert_eq!(container[2 + 5 * 511], 0);
    // the root merges the two nodes before it
    assert_eq!(
        container[2 + 5 * 510..2 + 5 * 511].to_vec(),
        vec![0, 0xFC, 0x01, 0xFD, 0x01]
    );
}

#[test]
fn compress_refuses_empty_input() {
    assert_eq!(compress(b""), Err(CodecError::EmptyInput));
}

#[test]
fn decompress_reads_the_expected_container() {
    assert_eq!(decompress(&SESAM), Ok(b"sesamstrasse".to_vec()));
}

#[test]
fn decompress_undoes_compress() {
    let inputs: Vec<Vec<u8>> = vec![
        b"a".to_vec(),
        b"abab".to_vec(),
        b"abracadabra".to_vec(),
        (0..=255u8).collect(),
        vec![0u8; 4097],
        b"Lorem ipsum dolor sit amet, consectetur adipiscing elit".to_vec(),
    ];
    for input in inputs {
        let container = compress(&input).unwrap();
        assert_eq!(decompress(&container), Ok(input));
    }
}

#[test]
fn compress_twice_gives_the_same_bytes() {
    let input = b"it was the best of times, it was the worst of times";
    assert_eq!(compress(input), compress(input));
}

#[test]
fn decompress_reports_a_container_that_ends_early() {
    assert_eq!(decompress(&[]), Err(CodecError::TruncatedContainer));
    assert_eq!(decompress(&[1]), Err(CodecError::TruncatedContainer));
    assert_eq!(decompress(&SESAM[..30]), Err(CodecError::TruncatedContainer));
    // the pad count is missing
    assert_eq!(decompress(&SESAM[..57]), Err(CodecError::TruncatedContainer));
}

#[test]
fn decompress_reports_a_pad_count_that_cannot_be() {
    let mut bytes = SESAM.to_vec();
    bytes[57] = 8;
    assert_eq!(decompress(&bytes), Err(CodecError::InvalidPadCount));
    // no payload, so there is no bit to skip
    assert_eq!(
        decompress(&[1, 0, 97, 255, 255, 255, 255, 1]),
        Err(CodecError::InvalidPadCount)
    );
}

#[test]
fn decompress_reports_a_malformed_tree() {
    assert_eq!(decompress(&[0, 0, 0]), Err(CodecError::MalformedTree));
    assert_eq!(
        decompress(&[1, 0, 97, 0, 0, 255, 255, 0, 0]),
        Err(CodecError::MalformedTree)
    );
}

#[test]
fn decompress_reports_a_payload_that_is_cut() {
    let container = compress(b"hello world").unwrap();
    assert_eq!(container[container.len() - 4..].to_vec(), vec![34, 183, 60, 175]);
    let cut = &container[..container.len() - 1];
    assert_eq!(
        decompress(cut),
        Err(CodecError::TruncatedOrInvalidPayload { unconsumed: 1 })
    );
}

#[test]
fn decompress_accepts_a_payload_cut_between_two_codewords() {
    let cut = &SESAM[..SESAM.len() - 1];
    assert_eq!(decompress(cut), Ok(b"sesamstr".to_vec()));
}

#[test]
fn decompress_of_a_container_without_payload_is_empty() {
    assert_eq!(
        decompress(&[1, 0, 97, 255, 255, 255, 255, 0]),
        Ok(vec![])
    );
}
