//! Encoding: from the bytes to the tree, the padded payload and the pad
//! count.

use crate::bits::{repeated, BitBuffer, MAX_BITS};
use crate::codes::{code_map, code_of, encode_bits, find_code, lemma_path_len, CodeTable};
use crate::error::CodecError;
use crate::forest::{
    all_leaves, build_tree, huffman_nodes, leaves_first, lemma_leaves_wf, lemma_merge_all,
    lemma_merge_all_leaves_first, Forest,
};
use crate::frequency::{
    count, leaf_nodes, lemma_count_positive, lemma_slot, lemma_symbol_order, lemma_symbols_below,
    sorted_leaves, symbol_order, symbols_below,
};
use crate::tree_util::{arena_ordered, root_of, shorten, ShortHufTreeNode};
use vstd::prelude::*;

verus! {

/// The tree of an input: its leaves in leaf order, then the merged nodes in
/// the order of their creation, the root last.
pub open spec fn huffman_tree(input: Seq<u8>) -> Seq<ShortHufTreeNode> {
    shorten(huffman_nodes(leaf_nodes(input, symbol_order(input))))
}

/// The payload of an input: the codewords of its bytes in its tree, one
/// after the other.
pub open spec fn payload(input: Seq<u8>) -> Seq<bool> {
    encode_bits(huffman_tree(input), input)
}

/// The number of bits that bring a payload of `len` bits to a whole number
/// of bytes.
pub open spec fn pad_count(len: nat) -> nat {
    ((8 - len % 8) % 8) as nat
}

/// The payload behind its padding of zero bits.
pub open spec fn padded_payload(input: Seq<u8>) -> Seq<bool> {
    repeated(false, pad_count(payload(input).len())) + payload(input)
}

/// What encoding gives for an input that is not empty: its tree, its
/// payload behind the padding, and the number of padding bits.
pub open spec fn encodes(
    input: Seq<u8>,
    tree: Seq<ShortHufTreeNode>,
    bits: Seq<bool>,
    fillup: u8,
) -> bool {
    &&& input.len() > 0
    &&& tree == huffman_tree(input)
    &&& bits == padded_payload(input)
    &&& fillup == pad_count(payload(input).len())
}

/// The number of byte values below `bound` that occur in `input`.
pub open spec fn distinct_below(input: Seq<u8>, bound: nat) -> nat
    decreases bound,
{
    if bound == 0 {
        0
    } else {
        distinct_below(input, (bound - 1) as nat) + if count(input, (bound - 1) as u8) > 0 {
            1nat
        } else {
            0nat
        }
    }
}

/// The number of distinct byte values in `input`.
pub open spec fn distinct_count(input: Seq<u8>) -> nat {
    distinct_below(input, 256)
}

/// There is one symbol for each distinct byte value.
pub proof fn lemma_symbols_distinct(input: Seq<u8>, bound: nat)
    requires
        bound <= 256,
    ensures
        symbols_below(input, bound).len() == distinct_below(input, bound),
    decreases bound,
{
    if bound > 0 {
        lemma_symbols_distinct(input, (bound - 1) as nat);
        lemma_symbols_below(input, (bound - 1) as nat);
        lemma_slot(input, symbols_below(input, (bound - 1) as nat), (bound - 1) as u8);
    }
}

/// The shape of the tree of an input that is not empty: children precede
/// their parents, the nodes are one less than twice the distinct byte values,
/// and every byte value of the input has a codeword.
pub proof fn lemma_tree_shape(input: Seq<u8>)
    requires
        input.len() > 0,
    ensures
        arena_ordered(huffman_tree(input)),
        huffman_tree(input).len() == 2 * distinct_count(input) - 1,
        0 < distinct_count(input) <= 256,
        forall|value: u8| count(input, value) > 0 ==> code_of(huffman_tree(input), value) is Some,
{
    let syms = symbol_order(input);
    let leaves = leaf_nodes(input, syms);
    let tree = huffman_tree(input);
    lemma_symbol_order(input);
    lemma_symbols_distinct(input, 256);
    lemma_leaves_wf(leaves);
    lemma_merge_all(Forest::of_leaves(leaves));
    assert forall|value: u8| count(input, value) > 0 implies code_of(tree, value) is Some by {
        assert(syms.contains(value));
        let i = choose|i: int| 0 <= i < syms.len() && syms[i] == value;
        assert(leaves[i].val == value);
        assert(Forest::of_leaves(leaves).covers(value));
        assert(find_code(tree, root_of(tree), value) is Some);
    }
}

/// The greatest length of an input, in bytes, whose payload fits a buffer
/// whatever its bytes are (`lemma_input_fits`).
pub const MAX_INPUT_LEN: usize = (MAX_BITS - 7) / 255;

/// The codeword of a byte value in the tree of an input has at least one bit
/// and at most 255.
pub proof fn lemma_code_len(input: Seq<u8>, value: u8)
    requires
        input.len() > 0,
        code_of(huffman_tree(input), value) is Some,
    ensures
        1 <= code_of(huffman_tree(input), value).unwrap().len() <= 255,
{
    let syms = symbol_order(input);
    let leaves = leaf_nodes(input, syms);
    let tree = huffman_tree(input);
    lemma_tree_shape(input);
    lemma_symbol_order(input);
    lemma_symbols_distinct(input, 256);
    lemma_leaves_wf(leaves);
    assert(leaves_first(Forest::of_leaves(leaves).tree(), syms.len()));
    lemma_merge_all_leaves_first(Forest::of_leaves(leaves), syms.len());
    if !tree[root_of(tree)].is_leaf() {
        lemma_path_len(tree, syms.len(), root_of(tree), value);
    }
}

/// The codewords of bytes whose codewords have at most 255 bits take at most
/// 255 bits per byte.
proof fn lemma_encode_bits_bound(tree: Seq<ShortHufTreeNode>, input: Seq<u8>)
    requires
        forall|i: int|
            0 <= i < input.len() ==> code_of(tree, #[trigger] input[i]) is Some && code_of(
                tree,
                input[i],
            ).unwrap().len() <= 255,
    ensures
        encode_bits(tree, input).len() <= 255 * input.len(),
    decreases input.len(),
{
    if input.len() > 0 {
        let before = input.drop_last();
        assert forall|i: int| 0 <= i < before.len() implies code_of(
            tree,
            #[trigger] before[i],
        ) is Some && code_of(tree, before[i]).unwrap().len() <= 255 by {
            assert(before[i] == input[i]);
        }
        lemma_encode_bits_bound(tree, before);
        assert(input.last() == input[input.len() - 1]);
    }
}

/// The payload of an input takes at most 255 bits per byte.
pub proof fn lemma_payload_bound(input: Seq<u8>)
    ensures
        payload(input).len() <= 255 * input.len(),
{
    if input.len() > 0 {
        let tree = huffman_tree(input);
        lemma_tree_shape(input);
        assert forall|i: int| 0 <= i < input.len() implies code_of(
            tree,
            #[trigger] input[i],
        ) is Some && code_of(tree, input[i]).unwrap().len() <= 255 by {
            lemma_count_positive(input, i);
            lemma_code_len(input, input[i]);
        }
        lemma_encode_bits_bound(tree, input);
    }
}

/// An input of at most `MAX_INPUT_LEN` bytes can be encoded.
pub proof fn lemma_input_fits(input: Seq<u8>)
    requires
        input.len() <= MAX_INPUT_LEN,
    ensures
        payload(input).len() + 7 <= MAX_BITS,
{
    lemma_payload_bound(input);
}

/// The codewords of the first bytes of an input take no more bits than the
/// codewords of all of them.
pub proof fn lemma_encode_bits_grow(tree: Seq<ShortHufTreeNode>, input: Seq<u8>, n: int)
    requires
        0 <= n <= input.len(),
    ensures
        encode_bits(tree, input.take(n)).len() <= encode_bits(tree, input).len(),
    decreases input.len(),
{
    if n == input.len() {
        assert(input.take(n) == input);
    } else {
        lemma_encode_bits_grow(tree, input.drop_last(), n);
        assert(input.drop_last().take(n) == input.take(n));
    }
}

/// Encodes the bytes: the tree with its root last, the payload behind its
/// padding, and the number of padding bits.
///
/// The payload holds the codewords of the bytes in order. It is preceded by
/// as many zero bits as bring it to a whole number of bytes, at most 7. An
/// input without bytes has no tree and is refused.
///
/// The payload and its padding must fit one buffer, as they do for every
/// input of at most `MAX_INPUT_LEN` bytes.
pub fn encode_data(input_data: &[u8]) -> (result: Result<
    (Vec<ShortHufTreeNode>, BitBuffer, u8),
    CodecError,
>)
    requires
        input_data@.len() <= MAX_INPUT_LEN || payload(input_data@).len() + 7 <= MAX_BITS,
    ensures
        match result {
            Ok(encoded) => {
                &&& encodes(input_data@, encoded.0@, encoded.1@, encoded.2)
                &&& 1 <= distinct_count(input_data@) <= 256
                &&& encoded.0@.len() == 2 * distinct_count(input_data@) - 1
                &&& encoded.2 <= 7
                &&& encoded.1@.len() % 8 == 0
            },
            Err(error) => input_data@.len() == 0 && error == CodecError::EmptyInput,
        },
{
    if input_data.len() == 0 {
        return Err(CodecError::EmptyInput);
    }
    let ghost input = input_data@;
    let ghost tree = huffman_tree(input);
    proof {
        if input.len() <= MAX_INPUT_LEN {
            lemma_input_fits(input);
        }
    }

    // frequency analysis, and one leaf for each byte value that occurs
    let leaves = sorted_leaves(input_data);
    proof {
        lemma_tree_shape(input);
        assert(all_leaves(leaves@));
    }

    // creating huffman tree
    let huffman_tree = build_tree(leaves);
    assert(shorten(huffman_tree@) == tree);

    // create lookup table for codewords
    let table = CodeTable::generate(&huffman_tree);

    // encoding the input
    let mut bitsequence = BitBuffer::new();
    let mut i: usize = 0;
    while i < input_data.len()
        invariant
            i <= input.len(),
            input == input_data@,
            arena_ordered(tree),
            table.wf(),
            table@ == code_map(tree),
            forall|value: u8| count(input, value) > 0 ==> code_of(tree, value) is Some,
            encode_bits(tree, input).len() + 7 <= MAX_BITS,
            bitsequence@ == encode_bits(tree, input.take(i as int)),
        decreases input.len() - i,
    {
        let c = input_data[i];
        proof {
            lemma_count_positive(input, i as int);
            lemma_encode_bits_grow(tree, input, i + 1);
            assert(input.take(i + 1).drop_last() == input.take(i as int));
        }
        table.append_code(c, &mut bitsequence);
        i += 1;
    }
    assert(input.take(i as int) == input);

    let actual_len = bitsequence.len();
    let fillup = (8 - actual_len % 8) % 8;
    let aligned_len = actual_len + fillup;
    bitsequence.resize(aligned_len, false);
    bitsequence.shift_end(fillup);
    proof {
        let filled = payload(input) + repeated(false, fillup as nat);
        assert(filled.take(aligned_len - fillup) == payload(input));
    }

    let mut short_tree: Vec<ShortHufTreeNode> = Vec::new();
    let mut j: usize = 0;
    while j < huffman_tree.len()
        invariant
            j <= huffman_tree@.len(),
            short_tree@ == shorten(huffman_tree@).take(j as int),
        decreases huffman_tree@.len() - j,
    {
        short_tree.push(huffman_tree[j].to_short());
        j += 1;
        assert(short_tree@ == shorten(huffman_tree@).take(j as int));
    }
    assert(shorten(huffman_tree@).take(j as int) == shorten(huffman_tree@));

    Ok((short_tree, bitsequence, fillup as u8))
}

} // verus!
