//! The container that holds an encoding as bytes: the number of tree nodes
//! as 16 bits, the nodes with five bytes each, the pad count as one byte,
//! and the payload, eight bits to the byte. Numbers of two bytes have the
//! low byte first.

use crate::bits::{bits_of_bytes, bytes_of_bits, lemma_unpack_pack, BitBuffer, MAX_BITS};
use crate::decode::{decode, decoded};
use crate::encode::{
    encode_data, encodes, huffman_tree, pad_count, padded_payload, payload, MAX_INPUT_LEN,
};
use crate::error::CodecError;
use crate::encode::lemma_tree_shape;
use crate::laws::{lemma_encoding_padded, lemma_padding, lemma_round_trip, lemma_tree_size};
use crate::tree_util::ShortHufTreeNode;
use byteorder::{ByteOrder, LittleEndian};
use vstd::prelude::*;
use vstd::slice::slice_subrange;

verus! {

/// The two bytes of an unsigned number, the low byte first.
pub open spec fn u16_bytes(n: u16) -> Seq<u8> {
    seq![(n % 256) as u8, (n / 256) as u8]
}

/// The unsigned number that has the same 16 bits as `n` in two's complement.
pub open spec fn i16_bits(n: i16) -> u16 {
    if n < 0 {
        (n + 65536) as u16
    } else {
        n as u16
    }
}

/// The two bytes of a signed number in two's complement, the low byte first.
pub open spec fn i16_bytes(n: i16) -> Seq<u8> {
    u16_bytes(i16_bits(n))
}

/// The unsigned number of a low and a high byte.
pub open spec fn u16_of(low: u8, high: u8) -> u16 {
    (low + 256 * high) as u16
}

/// The signed number of a low and a high byte in two's complement.
pub open spec fn i16_of(low: u8, high: u8) -> i16 {
    if high >= 128 {
        (low + 256 * high - 65536) as i16
    } else {
        (low + 256 * high) as i16
    }
}

/// The five bytes of a node: its value, its left child, its right child.
pub open spec fn node_bytes(node: ShortHufTreeNode) -> Seq<u8> {
    seq![node.val] + i16_bytes(node.left) + i16_bytes(node.right)
}

/// The bytes of the nodes of a tree, in the order of the arena.
pub open spec fn tree_bytes(tree: Seq<ShortHufTreeNode>) -> Seq<u8>
    decreases tree.len(),
{
    if tree.len() == 0 {
        Seq::empty()
    } else {
        tree_bytes(tree.drop_last()) + node_bytes(tree.last())
    }
}

/// The container of a tree, a pad count and a padded payload.
pub open spec fn container(tree: Seq<ShortHufTreeNode>, fillup: u8, bits: Seq<bool>) -> Seq<u8> {
    u16_bytes(tree.len() as u16) + tree_bytes(tree) + seq![fillup] + bytes_of_bits(bits)
}

/// The container of the encoding of an input.
pub open spec fn compressed(input: Seq<u8>) -> Seq<u8> {
    container(huffman_tree(input), pad_count(payload(input).len()) as u8, padded_payload(input))
}

/// The node that the five bytes from `at` on stand for.
pub open spec fn node_at(bytes: Seq<u8>, at: int) -> ShortHufTreeNode {
    ShortHufTreeNode {
        val: bytes[at],
        left: i16_of(bytes[at + 1], bytes[at + 2]),
        right: i16_of(bytes[at + 3], bytes[at + 4]),
    }
}

/// The `count` nodes that the bytes from `at` on stand for.
pub open spec fn nodes_at(bytes: Seq<u8>, at: int, count: nat) -> Seq<ShortHufTreeNode> {
    Seq::new(count, |i: int| node_at(bytes, at + 5 * i))
}

/// The tree, the pad count and the padded payload that a container holds, or
/// why it holds none: it ends too early, or its pad count is above 7 or
/// above the number of payload bits.
pub open spec fn parsed(bytes: Seq<u8>) -> Result<(Seq<ShortHufTreeNode>, u8, Seq<bool>), CodecError> {
    if bytes.len() < 2 {
        Err(CodecError::TruncatedContainer)
    } else {
        let count = u16_of(bytes[0], bytes[1]);
        if bytes.len() < 3 + 5 * count {
            Err(CodecError::TruncatedContainer)
        } else {
            let fillup = bytes[2 + 5 * count];
            let rest = bytes.skip(3 + 5 * count);
            if fillup > 7 || fillup > 8 * rest.len() {
                Err(CodecError::InvalidPadCount)
            } else {
                Ok((nodes_at(bytes, 2, count as nat), fillup, bits_of_bytes(rest)))
            }
        }
    }
}

/// What a container decodes to: the bytes that its payload, behind the
/// padding, decodes to with its tree.
pub open spec fn decompressed(bytes: Seq<u8>) -> Result<Seq<u8>, CodecError> {
    match parsed(bytes) {
        Ok((tree, fillup, bits)) => decoded(tree, bits.skip(fillup as int)),
        Err(error) => Err(error),
    }
}

/// `LittleEndian::write_u16` from the crate byteorder, on a buffer of two
/// bytes: the low byte of the number, then the high byte.
#[verifier::external_body]
fn le_u16(n: u16) -> (bytes: [u8; 2])
    ensures
        bytes@ == u16_bytes(n),
{
    let mut bytes = [0u8;2];
    LittleEndian::write_u16(&mut bytes, n);
    bytes
}

/// `LittleEndian::write_i16` from the crate byteorder, on a buffer of two
/// bytes: the low byte of the number in two's complement, then the high byte.
#[verifier::external_body]
fn le_i16(n: i16) -> (bytes: [u8; 2])
    ensures
        bytes@ == i16_bytes(n),
{
    let mut bytes = [0u8;2];
    LittleEndian::write_i16(&mut bytes, n);
    bytes
}

/// `LittleEndian::read_u16` from the crate byteorder, which panics on fewer
/// than two bytes: the number whose low byte is at `at` and whose high byte
/// follows.
#[verifier::external_body]
fn read_le_u16(input: &[u8], at: usize) -> (n: u16)
    requires
        at + 2 <= input@.len(),
    ensures
        n == u16_of(input@[at as int], input@[at + 1]),
{
    LittleEndian::read_u16(&input[at..])
}

/// `LittleEndian::read_i16` from the crate byteorder, which panics on fewer
/// than two bytes: the number in two's complement whose low byte is at `at`
/// and whose high byte follows.
#[verifier::external_body]
fn read_le_i16(input: &[u8], at: usize) -> (n: i16)
    requires
        at + 2 <= input@.len(),
    ensures
        n == i16_of(input@[at as int], input@[at + 1]),
{
    LittleEndian::read_i16(&input[at..])
}

/// Two bytes give back the number they were made of.
pub proof fn lemma_u16_bytes(n: u16)
    ensures
        u16_bytes(n).len() == 2,
        u16_of(u16_bytes(n)[0], u16_bytes(n)[1]) == n,
{
}

/// Two bytes give back the signed number they were made of.
pub proof fn lemma_i16_bytes(n: i16)
    ensures
        i16_bytes(n).len() == 2,
        i16_of(i16_bytes(n)[0], i16_bytes(n)[1]) == n,
{
}

/// The bytes of a tree are five per node, and the five bytes of each node
/// give the node back.
pub proof fn lemma_tree_bytes(tree: Seq<ShortHufTreeNode>)
    ensures
        tree_bytes(tree).len() == 5 * tree.len(),
        forall|i: int| 0 <= i < tree.len() ==> node_at(tree_bytes(tree), 5 * i) == #[trigger] tree[i],
    decreases tree.len(),
{
    if tree.len() > 0 {
        let fewer = tree.drop_last();
        lemma_tree_bytes(fewer);
        let bytes = tree_bytes(tree);
        assert forall|i: int| 0 <= i < tree.len() implies node_at(bytes, 5 * i) == #[trigger] tree[i] by {
            if i < fewer.len() {
                assert(fewer[i] == tree[i]);
                assert(node_at(bytes, 5 * i) == node_at(tree_bytes(fewer), 5 * i));
            } else {
                lemma_i16_bytes(tree[i].left);
                lemma_i16_bytes(tree[i].right);
                let own = node_bytes(tree[i]);
                assert(bytes[5 * i] == own[0]);
                assert(bytes[5 * i + 1] == own[1]);
                assert(bytes[5 * i + 2] == own[2]);
                assert(bytes[5 * i + 3] == own[3]);
                assert(bytes[5 * i + 4] == own[4]);
            }
        }
    }
}

/// A container gives back the tree, the pad count and the payload that it
/// was made of.
pub proof fn lemma_parsed_container(tree: Seq<ShortHufTreeNode>, fillup: u8, bits: Seq<bool>)
    requires
        tree.len() <= u16::MAX,
        bits.len() % 8 == 0,
        fillup <= 7,
        fillup <= bits.len(),
    ensures
        parsed(container(tree, fillup, bits)) == Ok::<
            (Seq<ShortHufTreeNode>, u8, Seq<bool>),
            CodecError,
        >((tree, fillup, bits)),
{
    let bytes = container(tree, fillup, bits);
    let count = tree.len() as u16;
    lemma_u16_bytes(count);
    lemma_tree_bytes(tree);
    lemma_unpack_pack(bits);
    assert(bytes[0] == u16_bytes(count)[0]);
    assert(bytes[1] == u16_bytes(count)[1]);
    assert(bytes.len() == 3 + 5 * count + bits.len() / 8);
    assert(bytes[2 + 5 * count] == fillup);
    assert(bytes.skip(3 + 5 * count) == bytes_of_bits(bits));
    assert forall|i: int| 0 <= i < tree.len() implies nodes_at(bytes, 2, count as nat)[i]
        == tree[i] by {
        let inner = tree_bytes(tree);
        assert(bytes[2 + 5 * i] == inner[5 * i]);
        assert(bytes[2 + 5 * i + 1] == inner[5 * i + 1]);
        assert(bytes[2 + 5 * i + 2] == inner[5 * i + 2]);
        assert(bytes[2 + 5 * i + 3] == inner[5 * i + 3]);
        assert(bytes[2 + 5 * i + 4] == inner[5 * i + 4]);
    }
    assert(nodes_at(bytes, 2, count as nat) =~= tree);
}

/// Round trip through the container: the container of the encoding of an
/// input that is not empty decodes to the input.
pub proof fn lemma_container_round_trip(input: Seq<u8>)
    requires
        input.len() > 0,
    ensures
        decompressed(compressed(input)) == Ok::<Seq<u8>, CodecError>(input),
{
    let tree = huffman_tree(input);
    let bits = padded_payload(input);
    lemma_padding(payload(input).len());
    let fillup = pad_count(payload(input).len()) as u8;
    lemma_tree_size(input, tree, bits, fillup);
    lemma_tree_shape(input);
    lemma_encoding_padded(input, tree, bits, fillup);
    lemma_round_trip(input, tree, bits, fillup);
    lemma_parsed_container(tree, fillup, bits);
}

/// Determinism on the wire: two encodings of the same bytes have the same
/// container, byte for byte.
pub proof fn lemma_container_unique(
    input: Seq<u8>,
    tree: Seq<ShortHufTreeNode>,
    bits: Seq<bool>,
    fillup: u8,
    other_tree: Seq<ShortHufTreeNode>,
    other_bits: Seq<bool>,
    other_fillup: u8,
)
    requires
        encodes(input, tree, bits, fillup),
        encodes(input, other_tree, other_bits, other_fillup),
    ensures
        tree_bytes(tree) == tree_bytes(other_tree),
        bytes_of_bits(bits) == bytes_of_bits(other_bits),
        container(tree, fillup, bits) == container(other_tree, other_fillup, other_bits),
        container(tree, fillup, bits) == compressed(input),
{
    lemma_padding(payload(input).len());
}

/// Appends the five bytes of a node.
pub fn write_node(output: &mut Vec<u8>, node: ShortHufTreeNode)
    ensures
        final(output)@ == old(output)@ + node_bytes(node),
{
    let left = le_i16(node.left);
    let right = le_i16(node.right);
    output.push(node.val);
    output.push(left[0]);
    output.push(left[1]);
    output.push(right[0]);
    output.push(right[1]);
    assert(output@ == old(output)@ + node_bytes(node));
}

/// Appends the bytes of the nodes of a tree, in the order of the arena.
pub fn write_tree(output: &mut Vec<u8>, huffman_tree: &[ShortHufTreeNode])
    ensures
        final(output)@ == old(output)@ + tree_bytes(huffman_tree@),
{
    let mut i: usize = 0;
    assert(old(output)@ + tree_bytes(huffman_tree@.take(0)) == old(output)@);
    while i < huffman_tree.len()
        invariant
            i <= huffman_tree@.len(),
            output@ == old(output)@ + tree_bytes(huffman_tree@.take(i as int)),
        decreases huffman_tree@.len() - i,
    {
        write_node(output, huffman_tree[i]);
        i += 1;
        proof {
            let now = huffman_tree@.take(i as int);
            assert(now.drop_last() == huffman_tree@.take(i - 1));
            assert(output@ == old(output)@ + tree_bytes(now));
        }
    }
    assert(huffman_tree@.take(i as int) == huffman_tree@);
}

/// Reads `size` nodes from the bytes of `input` that begin at `at`, or
/// reports that the input ends before the last of them.
pub fn read_tree(input: &[u8], at: usize, size: u16) -> (result: Result<
    Vec<ShortHufTreeNode>,
    CodecError,
>)
    requires
        at <= input@.len(),
    ensures
        match result {
            Ok(tree) => at + 5 * size <= input@.len() && tree@ == nodes_at(
                input@,
                at as int,
                size as nat,
            ),
            Err(error) => at + 5 * size > input@.len() && error == CodecError::TruncatedContainer,
        },
{
    let need = 5 * (size as usize);
    let len = input.len();
    if len - at < need {
        return Err(CodecError::TruncatedContainer);
    }
    let mut result: Vec<ShortHufTreeNode> = Vec::new();
    let mut i: usize = 0;
    while i < size as usize
        invariant
            i <= size,
            len == input@.len(),
            at + 5 * size <= input@.len(),
            result@ == nodes_at(input@, at as int, i as nat),
        decreases size - i,
    {
        let from = at + 5 * i;
        let val = input[from];
        let left = read_le_i16(input, from + 1);
        let right = read_le_i16(input, from + 3);
        result.push(ShortHufTreeNode::new(val, left, right));
        i += 1;
        assert(result@ == nodes_at(input@, at as int, i as nat));
    }
    Ok(result)
}

/// The container of a tree, a pad count and a padded payload.
pub fn write_container(huffman_tree: &[ShortHufTreeNode], bits: &BitBuffer, fillup: u8) -> (output:
    Vec<u8>)
    requires
        huffman_tree@.len() <= u16::MAX,
        bits@.len() % 8 == 0,
    ensures
        output@ == container(huffman_tree@, fillup, bits@),
{
    let mut output: Vec<u8> = Vec::new();
    let count = le_u16(huffman_tree.len() as u16);
    output.push(count[0]);
    output.push(count[1]);
    assert(output@ == u16_bytes(huffman_tree@.len() as u16));
    write_tree(&mut output, huffman_tree);
    output.push(fillup);
    let mut raw = bits.to_bytes();
    output.append(&mut raw);
    assert(output@ == container(huffman_tree@, fillup, bits@));
    output
}

/// Encodes the bytes and gives the encoding as a container.
///
/// The payload and its padding must fit one buffer, as for `encode_data`.
pub fn compress(input_data: &[u8]) -> (result: Result<Vec<u8>, CodecError>)
    requires
        input_data@.len() <= MAX_INPUT_LEN || payload(input_data@).len() + 7 <= MAX_BITS,
    ensures
        match result {
            Ok(output) => input_data@.len() > 0 && output@ == compressed(input_data@),
            Err(error) => input_data@.len() == 0 && error == CodecError::EmptyInput,
        },
{
    match encode_data(input_data) {
        Ok(encoded) => {
            let output = write_container(encoded.0.as_slice(), &encoded.1, encoded.2);
            Ok(output)
        },
        Err(error) => Err(error),
    }
}

/// Decodes a container: reads its tree and its pad count, and decodes its
/// payload behind the padding.
///
/// The bits of the container must fit one buffer.
pub fn decompress(input: &[u8]) -> (result: Result<Vec<u8>, CodecError>)
    requires
        8 * input@.len() <= MAX_BITS,
    ensures
        match result {
            Ok(bytes) => decompressed(input@) == Ok::<Seq<u8>, CodecError>(bytes@),
            Err(error) => decompressed(input@) == Err::<Seq<u8>, CodecError>(error),
        },
{
    let len = input.len();
    if len < 2 {
        return Err(CodecError::TruncatedContainer);
    }
    let huffman_tree_size = read_le_u16(input, 0);
    let huffman_tree = match read_tree(input, 2, huffman_tree_size) {
        Ok(tree) => tree,
        Err(error) => {
            return Err(error);
        },
    };
    let at = 2 + 5 * (huffman_tree_size as usize);
    if len - at < 1 {
        return Err(CodecError::TruncatedContainer);
    }
    let fillup = input[at];
    let rest = slice_subrange(input, at + 1, len);
    assert(rest@ == input@.skip(at + 1));
    if fillup > 7 || fillup as usize > 8 * rest.len() {
        return Err(CodecError::InvalidPadCount);
    }
    let bitsequence = BitBuffer::from_bytes(rest);
    let bits = bitsequence.slice(fillup as usize, bitsequence.len());
    assert(bits@ == bitsequence@.skip(fillup as int));
    decode(huffman_tree.as_slice(), &bits)
}

} // verus!
