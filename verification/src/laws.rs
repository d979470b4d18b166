//! What holds of encoding and decoding together.

use crate::codes::{code_of, encode_bits, find_code};
use crate::decode::{decoded, run, start, step, DecoderState};
use crate::encode::{
    distinct_count, encodes, huffman_tree, lemma_code_len, lemma_symbols_distinct,
    lemma_tree_shape, pad_count, payload,
};
use crate::error::CodecError;
use crate::forest::{
    freq_of, leaves_first, lemma_after_orderly, lemma_leaves_load, lemma_leaves_wf,
    lemma_merge_all_after, lemma_merge_all_leaves_first, lemma_step_orderly, queue_sum, Forest,
};
use crate::frequency::{
    count, leaf_nodes, lemma_count_bound, lemma_count_positive, lemma_leaves_weight,
    lemma_symbol_order, symbol_order,
};
use crate::tree_util::{
    arena_ordered, node_ordered, node_valid, root_of, shorten, tree_valid, ShortHufTreeNode,
};
use vstd::prelude::*;

verus! {

/// To read two runs of bits one after the other is to read them as one.
pub proof fn lemma_run_concat(
    tree: Seq<ShortHufTreeNode>,
    s: DecoderState,
    first: Seq<bool>,
    second: Seq<bool>,
)
    ensures
        run(tree, s, first + second) == run(tree, run(tree, s, first), second),
    decreases second.len(),
{
    if second.len() == 0 {
        assert(first + second == first);
    } else {
        lemma_run_concat(tree, s, first, second.drop_last());
        assert((first + second).drop_last() == first + second.drop_last());
    }
}

/// To read a single bit is to take one step.
pub proof fn lemma_run_one(tree: Seq<ShortHufTreeNode>, s: DecoderState, bit: bool)
    ensures
        run(tree, s, seq![bit]) == step(tree, s, bit),
{
    assert(seq![bit].drop_last() == Seq::<bool>::empty());
    assert(run(tree, s, seq![bit].drop_last()) == s);
}

/// From a node that is no leaf, the path to a byte value leads the automaton
/// to the leaf of that value: it emits the value and is back at the root.
pub proof fn lemma_run_path(tree: Seq<ShortHufTreeNode>, s: DecoderState, value: u8)
    requires
        arena_ordered(tree),
        0 <= s.node < tree.len(),
        !tree[s.node].is_leaf(),
        !s.stuck,
        find_code(tree, s.node, value) is Some,
    ensures
        run(tree, s, find_code(tree, s.node, value).unwrap()) == (DecoderState {
            node: root_of(tree),
            output: s.output.push(value),
            pending: 0,
            stuck: false,
        }),
    decreases s.node,
{
    let code = find_code(tree, s.node, value).unwrap();
    assert(node_ordered(tree, s.node));
    let bit = find_code(tree, tree[s.node].right as int, value) is Some;
    let child = if bit {
        tree[s.node].right as int
    } else {
        tree[s.node].left as int
    };
    let rest = find_code(tree, child, value).unwrap();
    assert(code == seq![bit] + rest);
    lemma_run_concat(tree, s, seq![bit], rest);
    lemma_run_one(tree, s, bit);
    let next = step(tree, s, bit);
    if tree[child].is_leaf() {
        assert(rest.len() == 0);
    } else {
        lemma_run_path(tree, next, value);
    }
}

/// At the root, the codeword of a byte value makes the automaton emit that
/// value and leaves it at the root.
pub proof fn lemma_run_codeword(tree: Seq<ShortHufTreeNode>, s: DecoderState, value: u8)
    requires
        arena_ordered(tree),
        tree.len() > 0,
        s.node == root_of(tree),
        s.pending == 0,
        !s.stuck,
        code_of(tree, value) is Some,
    ensures
        run(tree, s, code_of(tree, value).unwrap()) == (DecoderState {
            output: s.output.push(value),
            ..s
        }),
{
    if tree[root_of(tree)].is_leaf() {
        lemma_run_one(tree, s, false);
    } else {
        lemma_run_path(tree, s, value);
    }
}

/// The automaton turns the codewords of a sequence of bytes back into the
/// bytes, and ends at the root.
pub proof fn lemma_run_encoded(tree: Seq<ShortHufTreeNode>, input: Seq<u8>)
    requires
        arena_ordered(tree),
        tree.len() > 0,
        forall|i: int| 0 <= i < input.len() ==> code_of(tree, #[trigger] input[i]) is Some,
    ensures
        run(tree, start(tree), encode_bits(tree, input)) == (DecoderState {
            output: input,
            ..start(tree)
        }),
    decreases input.len(),
{
    if input.len() > 0 {
        let before = input.drop_last();
        assert forall|i: int| 0 <= i < before.len() implies code_of(
            tree,
            #[trigger] before[i],
        ) is Some by {
            assert(before[i] == input[i]);
        }
        lemma_run_encoded(tree, before);
        assert(input.last() == input[input.len() - 1]);
        let code = code_of(tree, input.last()).unwrap();
        lemma_run_concat(tree, start(tree), encode_bits(tree, before), code);
        lemma_run_codeword(tree, run(tree, start(tree), encode_bits(tree, before)), input.last());
        assert(before.push(input.last()) == input);
    } else {
        assert(input == Seq::<u8>::empty());
    }
}

/// Within a path the automaton emits nothing: after the first `n` steps of
/// the path from a node that is no leaf, it has `n` more bits pending.
pub proof fn lemma_run_path_begun(tree: Seq<ShortHufTreeNode>, s: DecoderState, value: u8, n: int)
    requires
        arena_ordered(tree),
        0 <= s.node < tree.len(),
        !tree[s.node].is_leaf(),
        !s.stuck,
        find_code(tree, s.node, value) is Some,
        0 <= n < find_code(tree, s.node, value).unwrap().len(),
    ensures
        run(tree, s, find_code(tree, s.node, value).unwrap().take(n)).output == s.output,
        run(tree, s, find_code(tree, s.node, value).unwrap().take(n)).pending == s.pending + n,
    decreases s.node,
{
    let code = find_code(tree, s.node, value).unwrap();
    if n == 0 {
        assert(code.take(0) == Seq::<bool>::empty());
    } else {
        assert(node_ordered(tree, s.node));
        let bit = find_code(tree, tree[s.node].right as int, value) is Some;
        let child = if bit {
            tree[s.node].right as int
        } else {
            tree[s.node].left as int
        };
        let rest = find_code(tree, child, value).unwrap();
        assert(code == seq![bit] + rest);
        assert(code.take(n) == seq![bit] + rest.take(n - 1));
        lemma_run_concat(tree, s, seq![bit], rest.take(n - 1));
        lemma_run_one(tree, s, bit);
        lemma_run_path_begun(tree, step(tree, s, bit), value, n - 1);
    }
}

/// A payload that is cut within its last codeword is reported: where the
/// last `cut` bits of the payload of an encoding are missing and the codeword
/// of the last byte is longer than that, decoding gives no bytes but the
/// number of bits that were left of that codeword.
pub proof fn lemma_cut_payload(
    input: Seq<u8>,
    tree: Seq<ShortHufTreeNode>,
    bits: Seq<bool>,
    fillup: u8,
    cut: int,
)
    requires
        encodes(input, tree, bits, fillup),
        code_of(tree, input.last()) is Some,
        0 < cut < code_of(tree, input.last()).unwrap().len(),
    ensures
        fillup + cut <= bits.len(),
        decoded(tree, bits.subrange(fillup as int, bits.len() - cut)) == Err::<
            Seq<u8>,
            CodecError,
        >(
            CodecError::TruncatedOrInvalidPayload {
                unconsumed: (code_of(tree, input.last()).unwrap().len() - cut) as usize,
            },
        ),
{
    lemma_tree_shape(input);
    lemma_ordered_valid(tree);
    let before = input.drop_last();
    let code = code_of(tree, input.last()).unwrap();
    let kept = code.len() - cut;
    assert forall|i: int| 0 <= i < before.len() implies code_of(
        tree,
        #[trigger] before[i],
    ) is Some by {
        lemma_count_positive(input, i);
        assert(before[i] == input[i]);
    }
    lemma_count_positive(input, input.len() - 1);
    lemma_code_len(input, input.last());
    lemma_run_encoded(tree, before);
    let at_root = run(tree, start(tree), encode_bits(tree, before));
    assert(payload(input) == encode_bits(tree, before) + code);
    assert(bits.subrange(fillup as int, bits.len() - cut) == encode_bits(tree, before) + code.take(
        kept,
    ));
    lemma_run_concat(tree, start(tree), encode_bits(tree, before), code.take(kept));
    lemma_run_path_begun(tree, at_root, input.last(), kept);
}

/// A tree in which children precede their parents is valid for decoding.
pub proof fn lemma_ordered_valid(tree: Seq<ShortHufTreeNode>)
    requires
        arena_ordered(tree),
        tree.len() > 0,
    ensures
        tree_valid(tree),
{
    assert forall|i: int| 0 <= i < tree.len() implies node_valid(tree, i) by {
        assert(node_ordered(tree, i));
    }
}

/// Round trip: decoding the payload of an encoding, behind its padding, with
/// the tree of the encoding gives the input back.
pub proof fn lemma_round_trip(
    input: Seq<u8>,
    tree: Seq<ShortHufTreeNode>,
    bits: Seq<bool>,
    fillup: u8,
)
    requires
        encodes(input, tree, bits, fillup),
    ensures
        fillup <= bits.len(),
        decoded(tree, bits.skip(fillup as int)) == Ok::<Seq<u8>, CodecError>(input),
{
    lemma_tree_shape(input);
    lemma_ordered_valid(tree);
    assert forall|i: int| 0 <= i < input.len() implies code_of(
        tree,
        #[trigger] input[i],
    ) is Some by {
        lemma_count_positive(input, i);
    }
    lemma_run_encoded(tree, input);
    assert(bits.skip(fillup as int) == payload(input));
}

/// Tree size: the tree of an input with `k` distinct byte values has
/// `2k - 1` nodes, of which the first `k` are its leaves.
pub proof fn lemma_tree_size(
    input: Seq<u8>,
    tree: Seq<ShortHufTreeNode>,
    bits: Seq<bool>,
    fillup: u8,
)
    requires
        encodes(input, tree, bits, fillup),
    ensures
        distinct_count(input) >= 1,
        tree.len() == 2 * distinct_count(input) - 1,
        leaves_first(tree, distinct_count(input)),
{
    let leaves = leaf_nodes(input, symbol_order(input));
    lemma_tree_shape(input);
    lemma_symbol_order(input);
    lemma_symbols_distinct(input, 256);
    lemma_leaves_wf(leaves);
    assert(leaves_first(Forest::of_leaves(leaves).tree(), leaves.len()));
    lemma_merge_all_leaves_first(Forest::of_leaves(leaves), leaves.len());
}

/// The state of the construction of the tree of an input before the first
/// merge.
pub open spec fn first_forest(input: Seq<u8>) -> Forest {
    Forest::of_leaves(leaf_nodes(input, symbol_order(input)))
}

/// The leaves of an input, all of them queued, are an orderly state.
pub proof fn lemma_first_forest_orderly(input: Seq<u8>)
    requires
        0 < input.len() <= usize::MAX,
    ensures
        first_forest(input).orderly(),
        first_forest(input).remaining() == distinct_count(input),
{
    let syms = symbol_order(input);
    let leaves = leaf_nodes(input, syms);
    let f = first_forest(input);
    lemma_symbol_order(input);
    lemma_symbols_distinct(input, 256);
    lemma_leaves_wf(leaves);
    lemma_leaves_load(leaves);
    lemma_leaves_weight(input, 256);
    assert(queue_sum(f.merged, freq_of(f.nodes)) == 0);
    assert forall|i: int, j: int| 0 <= i <= j < f.sorted.len() implies f.freq(
        #[trigger] f.sorted[i],
    ) <= f.freq(#[trigger] f.sorted[j]) by {
        lemma_count_bound(input, syms[i]);
        lemma_count_bound(input, syms[j]);
    }
    assert(f.bounded_below(0));
}

/// Every merge takes the two rarest roots: in the construction of the tree
/// of an input, before each merge, the root taken first is as rare as any
/// queued root, and the root taken second is as rare as any that is then
/// left. The tree is the arena after the last merge.
pub proof fn lemma_merges_take_rarest(input: Seq<u8>, n: nat)
    requires
        0 < input.len() <= usize::MAX,
        n + 1 < distinct_count(input),
    ensures
        first_forest(input).after(n).takes_rarest(),
        first_forest(input).after(n).after_pick().takes_rarest(),
        huffman_tree(input) == shorten(
            first_forest(input).after((distinct_count(input) - 1) as nat).nodes,
        ),
{
    let f = first_forest(input);
    lemma_first_forest_orderly(input);
    lemma_after_orderly(f, n);
    lemma_step_orderly(f.after(n));
    lemma_merge_all_after(f);
}

/// Padding: the pad count is at most 7, and the payload with its padding is
/// a whole number of bytes.
pub proof fn lemma_padding(len: nat)
    ensures
        0 <= pad_count(len) <= 7,
        (len + pad_count(len)) % 8 == 0,
{
}

/// Padding of an encoding: at most 7 bits, all zero, in front of the
/// payload, and the whole a multiple of 8 bits long.
pub proof fn lemma_encoding_padded(
    input: Seq<u8>,
    tree: Seq<ShortHufTreeNode>,
    bits: Seq<bool>,
    fillup: u8,
)
    requires
        encodes(input, tree, bits, fillup),
    ensures
        0 <= fillup <= 7,
        bits.len() == fillup + payload(input).len(),
        bits.len() % 8 == 0,
        forall|i: int| 0 <= i < fillup ==> !bits[i],
{
    lemma_padding(payload(input).len());
}

/// Determinism: two encodings of the same bytes have the same nodes, the
/// same bits and the same pad count.
pub proof fn lemma_encoding_unique(
    input: Seq<u8>,
    tree: Seq<ShortHufTreeNode>,
    bits: Seq<bool>,
    fillup: u8,
    other_tree: Seq<ShortHufTreeNode>,
    other_bits: Seq<bool>,
    other_fillup: u8,
)
    requires
        encodes(input, tree, bits, fillup),
        encodes(input, other_tree, other_bits, other_fillup),
    ensures
        tree == other_tree,
        bits == other_bits,
        fillup == other_fillup,
{
}

} // verus!
