//! Decoding: an automaton walks the tree, one step per bit, and emits the
//! value of each leaf it reaches.

use crate::bits::BitBuffer;
use crate::error::CodecError;
use crate::tree_util::{node_valid, root_of, tree_valid, ShortHufTreeNode};
use vstd::prelude::*;

verus! {

/// The state of the automaton between two bits.
pub struct DecoderState {
    /// The index of the current node.
    pub node: int,
    /// The bytes emitted so far.
    pub output: Seq<u8>,
    /// The number of bits read since the last byte was emitted.
    pub pending: nat,
    /// Whether a bit was met that no codeword begins with. This happens only
    /// in a tree of a single leaf, whose one codeword is a zero bit.
    pub stuck: bool,
}

/// The state before the first bit: at the root, with nothing emitted.
pub open spec fn start(tree: Seq<ShortHufTreeNode>) -> DecoderState {
    DecoderState { node: root_of(tree), output: Seq::empty(), pending: 0, stuck: false }
}

/// The state after one more bit. A zero bit leads to the left child and a one
/// bit to the right child; at a leaf its value is emitted and the walk goes
/// on from the root. Where the root is itself a leaf, a zero bit emits its
/// value and a one bit ends the decoding.
pub open spec fn step(tree: Seq<ShortHufTreeNode>, s: DecoderState, bit: bool) -> DecoderState {
    if s.stuck {
        DecoderState { pending: s.pending + 1, ..s }
    } else if tree[s.node].is_leaf() {
        if bit {
            DecoderState { pending: s.pending + 1, stuck: true, ..s }
        } else {
            DecoderState { output: s.output.push(tree[s.node].val), ..s }
        }
    } else {
        let next = if bit {
            tree[s.node].right as int
        } else {
            tree[s.node].left as int
        };
        if tree[next].is_leaf() {
            DecoderState {
                node: root_of(tree),
                output: s.output.push(tree[next].val),
                pending: 0,
                stuck: false,
            }
        } else {
            DecoderState { node: next, pending: s.pending + 1, ..s }
        }
    }
}

/// The state after the bits `bits`, read from the state `s`.
pub open spec fn run(tree: Seq<ShortHufTreeNode>, s: DecoderState, bits: Seq<bool>) -> DecoderState
    decreases bits.len(),
{
    if bits.len() == 0 {
        s
    } else {
        step(tree, run(tree, s, bits.drop_last()), bits.last())
    }
}

/// What decoding `bits` with `tree` gives: the emitted bytes where the tree
/// is valid and the bits end with a codeword, and else which of the two
/// fails.
pub open spec fn decoded(tree: Seq<ShortHufTreeNode>, bits: Seq<bool>) -> Result<
    Seq<u8>,
    CodecError,
> {
    if !tree_valid(tree) {
        Err(CodecError::MalformedTree)
    } else {
        let end = run(tree, start(tree), bits);
        if end.pending != 0 {
            Err(CodecError::TruncatedOrInvalidPayload { unconsumed: end.pending as usize })
        } else {
            Ok(end.output)
        }
    }
}

/// What holds of every state that the automaton reaches in a valid tree.
pub open spec fn state_valid(tree: Seq<ShortHufTreeNode>, s: DecoderState) -> bool {
    &&& 0 <= s.node < tree.len()
    &&& tree[s.node].is_leaf() ==> s.node == root_of(tree)
    &&& s.stuck ==> s.pending > 0
}

/// A step in a valid tree leads from a valid state to a valid state.
pub proof fn lemma_step_valid(tree: Seq<ShortHufTreeNode>, s: DecoderState, bit: bool)
    requires
        tree_valid(tree),
        state_valid(tree, s),
    ensures
        state_valid(tree, step(tree, s, bit)),
        step(tree, s, bit).pending <= s.pending + 1,
{
    assert(node_valid(tree, s.node));
}

/// Whether the tree is valid: it is not empty, and each node is a leaf or has
/// two children within the tree.
pub fn validate_tree(tree: &[ShortHufTreeNode]) -> (valid: bool)
    ensures
        valid == tree_valid(tree@),
{
    let len = tree.len();
    if len == 0 {
        return false;
    }
    let mut i: usize = 0;
    while i < len
        invariant
            i <= len,
            len == tree@.len(),
            forall|j: int| 0 <= j < i ==> node_valid(tree@, j),
        decreases len - i,
    {
        let node = tree[i];
        let leaf = node.left == -1 && node.right == -1;
        let inner = node.left >= 0 && node.right >= 0 && (node.left as usize) < len && (
        node.right as usize) < len;
        if !leaf && !inner {
            assert(!node_valid(tree@, i as int));
            return false;
        }
        i += 1;
    }
    true
}

/// Decodes the bits with the tree whose root is its last node.
///
/// Each bit is one step of the automaton. The result is the bytes emitted
/// where the bits end with a whole codeword, and an error with the number of
/// left-over bits where they do not; a tree that is not valid is reported
/// before any bit is read.
pub fn decode(tree: &[ShortHufTreeNode], input_data: &BitBuffer) -> (result: Result<
    Vec<u8>,
    CodecError,
>)
    ensures
        match result {
            Ok(bytes) => decoded(tree@, input_data@) == Ok::<Seq<u8>, CodecError>(bytes@),
            Err(error) => decoded(tree@, input_data@) == Err::<Seq<u8>, CodecError>(error),
        },
{
    if !validate_tree(tree) {
        return Err(CodecError::MalformedTree);
    }
    let mut result: Vec<u8> = Vec::new();
    let root = tree.len() - 1;
    let len = input_data.len();
    let mut cur = root;
    let mut pending: usize = 0;
    let mut stuck = false;
    let mut i: usize = 0;
    while i < len
        invariant
            tree_valid(tree@),
            root == root_of(tree@),
            len == input_data@.len(),
            i <= len,
            pending <= i,
            state_valid(tree@, run(tree@, start(tree@), input_data@.take(i as int))),
            run(tree@, start(tree@), input_data@.take(i as int)) == (DecoderState {
                node: cur as int,
                output: result@,
                pending: pending as nat,
                stuck,
            }),
        decreases len - i,
    {
        let bit = input_data.bit_at(i);
        let ghost before = run(tree@, start(tree@), input_data@.take(i as int));
        proof {
            assert(input_data@.take(i + 1).drop_last() == input_data@.take(i as int));
            assert(node_valid(tree@, cur as int));
            lemma_step_valid(tree@, before, bit);
        }
        let node = tree[cur];
        if stuck {
            pending += 1;
        } else if node.left == -1 {
            if bit {
                stuck = true;
                pending += 1;
            } else {
                result.push(node.val);
            }
        } else {
            let next = if bit {
                node.right as usize
            } else {
                node.left as usize
            };
            let below = tree[next];
            proof {
                assert(node_valid(tree@, next as int));
            }
            if below.left == -1 {
                result.push(below.val);
                cur = root;
                pending = 0;
            } else {
                cur = next;
                pending += 1;
            }
        }
        i += 1;
    }
    proof {
        assert(input_data@.take(i as int) == input_data@);
    }
    if pending != 0 {
        Err(CodecError::TruncatedOrInvalidPayload { unconsumed: pending })
    } else {
        Ok(result)
    }
}

} // verus!
