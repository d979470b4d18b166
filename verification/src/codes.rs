//! Codewords: the path from the root of the tree to the leaf of a byte value,
//! `false` for a step to the left child and `true` for a step to the right.

use crate::bits::{BitBuffer, MAX_BITS};
use crate::tree_util::{arena_ordered, node_ordered, root_of, shorten, HufTreeNode, ShortHufTreeNode};
use ahash::AHashMap;
use vstd::prelude::*;

verus! {

/// The path from `node` down to a leaf that carries `value`, if the subtree
/// has one. Where several leaves carry the value, the path leads to the one
/// that a walk from left to right meets last.
pub open spec fn find_code(tree: Seq<ShortHufTreeNode>, node: int, value: u8) -> Option<Seq<bool>>
    decreases node,
{
    if node < 0 || node >= tree.len() {
        None
    } else if tree[node].is_leaf() {
        if tree[node].val == value {
            Some(Seq::empty())
        } else {
            None
        }
    } else if !node_ordered(tree, node) {
        None
    } else {
        match find_code(tree, tree[node].right as int, value) {
            Some(code) => Some(seq![true] + code),
            None => match find_code(tree, tree[node].left as int, value) {
                Some(code) => Some(seq![false] + code),
                None => None,
            },
        }
    }
}

/// The number of leaves that a walk through the subtree of `node` meets.
pub open spec fn visits(tree: Seq<ShortHufTreeNode>, node: int) -> nat
    decreases node,
{
    if node < 0 || node >= tree.len() {
        0
    } else if tree[node].is_leaf() {
        1
    } else if !node_ordered(tree, node) {
        0
    } else {
        visits(tree, tree[node].left as int) + visits(tree, tree[node].right as int)
    }
}

/// The codeword of `value` in a tree: its path from the root. In a tree that
/// is a single leaf the path would be empty, so the codeword is one zero bit.
pub open spec fn code_of(tree: Seq<ShortHufTreeNode>, value: u8) -> Option<Seq<bool>> {
    if tree.len() > 0 && tree[root_of(tree)].is_leaf() {
        if tree[root_of(tree)].val == value {
            Some(seq![false])
        } else {
            None
        }
    } else {
        find_code(tree, root_of(tree), value)
    }
}

/// The codewords of the bytes of `input`, one after the other.
pub open spec fn encode_bits(tree: Seq<ShortHufTreeNode>, input: Seq<u8>) -> Seq<bool>
    decreases input.len(),
{
    if input.len() == 0 {
        Seq::empty()
    } else {
        encode_bits(tree, input.drop_last()) + code_of(tree, input.last()).unwrap()
    }
}

/// The first sequence begins the second.
pub open spec fn is_prefix(a: Seq<bool>, b: Seq<bool>) -> bool {
    a.len() <= b.len() && b.take(a.len() as int) == a
}

/// A node that is appended changes no path below the nodes that were there.
pub proof fn lemma_find_code_push(
    tree: Seq<ShortHufTreeNode>,
    extra: ShortHufTreeNode,
    node: int,
    value: u8,
)
    requires
        node < tree.len(),
    ensures
        find_code(tree.push(extra), node, value) == find_code(tree, node, value),
    decreases node,
{
    if node >= 0 && !tree[node].is_leaf() && node_ordered(tree, node) {
        lemma_find_code_push(tree, extra, tree[node].right as int, value);
        lemma_find_code_push(tree, extra, tree[node].left as int, value);
    }
}

/// A node that is appended changes no count of leaves below the nodes that
/// were there.
pub proof fn lemma_visits_push(tree: Seq<ShortHufTreeNode>, extra: ShortHufTreeNode, node: int)
    requires
        node < tree.len(),
    ensures
        visits(tree.push(extra), node) == visits(tree, node),
    decreases node,
{
    if node >= 0 && !tree[node].is_leaf() && node_ordered(tree, node) {
        lemma_visits_push(tree, extra, tree[node].right as int);
        lemma_visits_push(tree, extra, tree[node].left as int);
    }
}

/// Where the first `count` nodes are the leaves and all others have two
/// children, the path from a node to a leaf passes no more nodes than lie
/// between the leaves and that node.
pub proof fn lemma_path_len(tree: Seq<ShortHufTreeNode>, count: nat, node: int, value: u8)
    requires
        forall|i: int| 0 <= i < tree.len() ==> ((#[trigger] tree[i]).is_leaf() <==> i < count),
        find_code(tree, node, value) is Some,
    ensures
        node < count ==> find_code(tree, node, value).unwrap().len() == 0,
        node >= count ==> 1 <= find_code(tree, node, value).unwrap().len() <= node - count + 1,
    decreases node,
{
    if !tree[node].is_leaf() {
        if find_code(tree, tree[node].right as int, value) is Some {
            lemma_path_len(tree, count, tree[node].right as int, value);
        } else {
            lemma_path_len(tree, count, tree[node].left as int, value);
        }
    }
}

/// No path to one byte value begins the path to another.
pub proof fn lemma_paths_prefix_free(tree: Seq<ShortHufTreeNode>, node: int, a: u8, b: u8)
    requires
        a != b,
        find_code(tree, node, a) is Some,
        find_code(tree, node, b) is Some,
    ensures
        !is_prefix(find_code(tree, node, a).unwrap(), find_code(tree, node, b).unwrap()),
    decreases node,
{
    let right = tree[node].right as int;
    let left = tree[node].left as int;
    let code_a = find_code(tree, node, a).unwrap();
    let code_b = find_code(tree, node, b).unwrap();
    let a_right = find_code(tree, right, a) is Some;
    let b_right = find_code(tree, right, b) is Some;
    if a_right == b_right {
        let child = if a_right {
            right
        } else {
            left
        };
        lemma_paths_prefix_free(tree, child, a, b);
        let below_a = find_code(tree, child, a).unwrap();
        let below_b = find_code(tree, child, b).unwrap();
        if is_prefix(code_a, code_b) {
            assert(code_a == seq![a_right] + below_a);
            assert(code_b == seq![a_right] + below_b);
            assert(below_b.take(below_a.len() as int) =~= code_b.take(code_a.len() as int).skip(1));
            assert(below_a =~= code_a.skip(1));
        }
    } else {
        assert(code_a[0] == a_right);
        assert(code_b[0] == b_right);
        if is_prefix(code_a, code_b) {
            assert(code_b.take(code_a.len() as int)[0] == code_a[0]);
        }
    }
}

/// No codeword of a tree begins the codeword of another byte value.
pub proof fn lemma_codes_prefix_free(tree: Seq<ShortHufTreeNode>, a: u8, b: u8)
    requires
        a != b,
        code_of(tree, a) is Some,
        code_of(tree, b) is Some,
    ensures
        !is_prefix(code_of(tree, a).unwrap(), code_of(tree, b).unwrap()),
{
    if !(tree.len() > 0 && tree[root_of(tree)].is_leaf()) {
        lemma_paths_prefix_free(tree, root_of(tree), a, b);
    }
}

/// The codewords of a tree: each byte value that has a leaf, with its
/// codeword.
pub open spec fn code_map(tree: Seq<ShortHufTreeNode>) -> Map<u8, Seq<bool>> {
    Map::new(|value: u8| code_of(tree, value) is Some, |value: u8| code_of(tree, value).unwrap())
}

/// The entries of a lookup table: byte value to the bit range `start..end`
/// of its codeword in the buffer of codewords.
pub uninterp spec fn ranged(table: AHashMap<u8, (usize, usize)>) -> Map<u8, (usize, usize)>;

/// `AHashMap::new`: a table without entries.
#[verifier::external_body]
fn new_ranges() -> (table: AHashMap<u8, (usize, usize)>)
    ensures
        ranged(table) == (Map::<u8, (usize, usize)>::empty()),
{
    AHashMap::new()
}

/// `AHashMap::get`: the range entered for `value`, if there is one.
#[verifier::external_body]
fn range_at(table: &AHashMap<u8, (usize, usize)>, value: u8) -> (found: Option<(usize, usize)>)
    ensures
        found == (if ranged(*table).dom().contains(value) {
            Some(ranged(*table)[value])
        } else {
            None
        }),
{
    table.get(&value).copied()
}

/// `AHashMap::insert`: `value` now has the range `range`, and every other
/// entry is as it was.
#[verifier::external_body]
fn set_range(table: &mut AHashMap<u8, (usize, usize)>, value: u8, range: (usize, usize))
    ensures
        ranged(*final(table)) == ranged(*old(table)).insert(value, range),
{
    table.insert(value, range);
}

/// Every range of the table lies within the first `len` bits.
pub open spec fn ranges_within(table: AHashMap<u8, (usize, usize)>, len: nat) -> bool {
    forall|value: u8| #[trigger]
        ranged(table).dom().contains(value) ==> ranged(table)[value].0 <= ranged(table)[value].1
            <= len
}

/// The longest path that the traversal of a tree of at most 511 nodes
/// records, in bits.
pub const MAX_CODE_BITS: usize = 512;

/// Walks the subtree of `cur_index` and enters the codeword of each leaf
/// into the table.
///
/// `path` holds the steps from the root to `cur_index`. A step is pushed
/// before each descent and the buffer is cut back to its mark after the
/// return, so it is the same after the call as before. At a leaf the path is
/// copied to the end of `codewords`, and `lookup_table` gets the range of the
/// copy. A byte value that several leaves carry keeps the range of the leaf
/// met last.
///
/// No path may grow beyond `MAX_CODE_BITS` bits, and `codewords` must have
/// room for that many bits for each leaf that the walk meets.
fn traverse_tree(
    cur_index: usize,
    path: &mut BitBuffer,
    codewords: &mut BitBuffer,
    lookup_table: &mut AHashMap<u8, (usize, usize)>,
    huffman_tree: &[HufTreeNode],
)
    requires
        arena_ordered(shorten(huffman_tree@)),
        cur_index < huffman_tree@.len(),
        old(path)@.len() + cur_index < MAX_CODE_BITS,
        old(codewords)@.len() + visits(shorten(huffman_tree@), cur_index as int) * MAX_CODE_BITS
            <= MAX_BITS,
        ranges_within(*old(lookup_table), old(codewords)@.len()),
    ensures
        final(path)@ == old(path)@,
        final(codewords)@.len() <= old(codewords)@.len() + visits(
            shorten(huffman_tree@),
            cur_index as int,
        ) * MAX_CODE_BITS,
        old(codewords)@.len() <= final(codewords)@.len(),
        final(codewords)@.take(old(codewords)@.len() as int) == old(codewords)@,
        ranges_within(*final(lookup_table), final(codewords)@.len()),
        forall|value: u8|
            match find_code(shorten(huffman_tree@), cur_index as int, value) {
                Some(code) => {
                    &&& #[trigger] ranged(*final(lookup_table)).dom().contains(value)
                    &&& final(codewords)@.subrange(
                        ranged(*final(lookup_table))[value].0 as int,
                        ranged(*final(lookup_table))[value].1 as int,
                    ) == old(path)@ + code
                },
                None => {
                    &&& ranged(*final(lookup_table)).dom().contains(value) == ranged(
                        *old(lookup_table),
                    ).dom().contains(value)
                    &&& ranged(*final(lookup_table)).dom().contains(value) ==> ranged(
                        *final(lookup_table),
                    )[value] == ranged(*old(lookup_table))[value]
                },
            },
    decreases cur_index,
{
    let ghost tree = shorten(huffman_tree@);
    let ghost path0 = path@;
    let ghost codewords0 = codewords@;
    let ghost table0 = ranged(*lookup_table);
    let cur_node = huffman_tree[cur_index];
    assert(node_ordered(tree, cur_index as int));
    assert(tree[cur_index as int] == cur_node.short());

    // a node without a left child is a leaf
    if cur_node.left == -1 {
        let start = codewords.bit_len();
        let height = path.bit_len();
        codewords.extend_from_range(path, 0, height);
        set_range(lookup_table, cur_node.val, (start, start + height));
        proof {
            assert(path0.subrange(0, height as int) == path0);
            assert(codewords@.subrange(start as int, start + height) == path0);
            assert(codewords@.take(codewords0.len() as int) == codewords0);
            assert forall|value: u8|
                find_code(tree, cur_index as int, value) is Some implies #[trigger] ranged(
                *lookup_table,
            ).dom().contains(value) && codewords@.subrange(
                ranged(*lookup_table)[value].0 as int,
                ranged(*lookup_table)[value].1 as int,
            ) == path0 + find_code(tree, cur_index as int, value).unwrap() by {
                assert(path0 + Seq::<bool>::empty() == path0);
            }
        }
        return ;
    }
    let left = cur_node.left as usize;
    let right = cur_node.right as usize;
    let mark = path.bit_len();

    path.push(false);
    traverse_tree(left, path, codewords, lookup_table, huffman_tree);
    // cut the path back to where this node was entered
    path.truncate(mark);
    let ghost codewords1 = codewords@;
    let ghost table1 = ranged(*lookup_table);
    proof {
        assert(path@ == path0) by {
            assert(path0.push(false).take(mark as int) == path0);
        }
        assert(visits(tree, cur_index as int) == visits(tree, left as int) + visits(
            tree,
            right as int,
        ));
        assert((visits(tree, left as int) + visits(tree, right as int)) * MAX_CODE_BITS == visits(
            tree,
            left as int,
        ) * MAX_CODE_BITS + visits(tree, right as int) * MAX_CODE_BITS) by (nonlinear_arith);
    }

    path.push(true);
    traverse_tree(right, path, codewords, lookup_table, huffman_tree);
    path.truncate(mark);
    proof {
        assert(path@ == path0) by {
            assert(path0.push(true).take(mark as int) == path0);
        }
        assert(codewords@.take(codewords0.len() as int) == codewords0) by {
            assert(codewords@.take(codewords1.len() as int).take(codewords0.len() as int)
                == codewords@.take(codewords0.len() as int));
        }
        assert forall|value: u8|
            match find_code(tree, cur_index as int, value) {
                Some(code) => {
                    &&& #[trigger] ranged(*lookup_table).dom().contains(value)
                    &&& codewords@.subrange(
                        ranged(*lookup_table)[value].0 as int,
                        ranged(*lookup_table)[value].1 as int,
                    ) == path0 + code
                },
                None => {
                    &&& ranged(*lookup_table).dom().contains(value) == table0.dom().contains(value)
                    &&& ranged(*lookup_table).dom().contains(value) ==> ranged(
                        *lookup_table,
                    )[value] == table0[value]
                },
            } by {
            let range = ranged(*lookup_table)[value];
            let entered = ranged(*lookup_table).dom().contains(value);
            let entered1 = table1.dom().contains(value);
            assert(find_code(tree, right as int, value) is None ==> entered == entered1);
            match find_code(tree, right as int, value) {
                Some(code) => {
                    assert(path0.push(true) + code == path0 + (seq![true] + code));
                },
                None => {
                    match find_code(tree, left as int, value) {
                        Some(code) => {
                            assert(table1.dom().contains(value));
                            assert(range == table1[value]);
                            assert(codewords@.subrange(range.0 as int, range.1 as int)
                                == codewords@.take(codewords1.len() as int).subrange(
                                range.0 as int,
                                range.1 as int,
                            ));
                            assert(path0.push(false) + code == path0 + (seq![false] + code));
                        },
                        None => {},
                    }
                },
            }
        }
    }
}

/// The codeword of each byte value of a tree.
///
/// The codewords stand one after the other in a single buffer, and a lookup
/// table gives the range of each.
#[derive(Debug)]
pub struct CodeTable {
    codewords: BitBuffer,
    lookup_table: AHashMap<u8, (usize, usize)>,
}

impl CodeTable {
    /// Every range of the lookup table lies within the codewords.
    pub closed spec fn wf(&self) -> bool {
        ranges_within(self.lookup_table, self.codewords@.len())
    }
}

impl View for CodeTable {
    type V = Map<u8, Seq<bool>>;

    /// Byte value to codeword.
    closed spec fn view(&self) -> Map<u8, Seq<bool>> {
        Map::new(
            |value: u8| ranged(self.lookup_table).dom().contains(value),
            |value: u8|
                self.codewords@.subrange(
                    ranged(self.lookup_table)[value].0 as int,
                    ranged(self.lookup_table)[value].1 as int,
                ),
        )
    }
}

impl CodeTable {
    /// The codewords of the tree whose root is the last node of
    /// `huffman_tree`. No codeword begins another.
    ///
    /// The tree may have at most 511 nodes, and one buffer must have room for
    /// `MAX_CODE_BITS` bits for each leaf that a walk through the tree meets.
    pub fn generate(huffman_tree: &[HufTreeNode]) -> (table: CodeTable)
        requires
            arena_ordered(shorten(huffman_tree@)),
            0 < huffman_tree@.len() < MAX_CODE_BITS,
            visits(shorten(huffman_tree@), huffman_tree@.len() - 1) * MAX_CODE_BITS <= MAX_BITS,
        ensures
            table.wf(),
            table@ == code_map(shorten(huffman_tree@)),
            forall|a: u8, b: u8|
                a != b && table@.dom().contains(a) && table@.dom().contains(b) ==> !is_prefix(
                    table@[a],
                    table@[b],
                ),
    {
        let ghost tree = shorten(huffman_tree@);
        let root = huffman_tree.len() - 1;
        let mut path = BitBuffer::new();
        let mut codewords = BitBuffer::new();
        let mut lookup_table = new_ranges();
        let single = huffman_tree[root].left == -1;
        proof {
            assert(node_ordered(tree, root as int));
            assert(tree[root as int] == huffman_tree@[root as int].short());
        }
        if single {
            // a tree of one leaf: its codeword is one zero bit
            path.push(false);
        }
        traverse_tree(root, &mut path, &mut codewords, &mut lookup_table, huffman_tree);
        let table = CodeTable { codewords, lookup_table };
        proof {
            assert forall|value: u8| table@.dom().contains(value) == code_map(tree).dom().contains(
                value,
            ) by {}
            assert forall|value: u8| #[trigger]
                table@.dom().contains(value) implies table@[value] == code_map(tree)[value] by {
                let code = find_code(tree, root as int, value).unwrap();
                if single {
                    assert(seq![false] + code == seq![false]);
                } else {
                    assert(Seq::<bool>::empty() + code == code);
                }
            }
            assert(table@ =~= code_map(tree));
            assert forall|a: u8, b: u8|
                a != b && table@.dom().contains(a) && table@.dom().contains(b) implies !is_prefix(
                table@[a],
                table@[b],
            ) by {
                lemma_codes_prefix_free(tree, a, b);
            }
        }
        table
    }

    /// The codeword of `value`, one `bool` per bit, if the table has one.
    pub fn codeword(&self, value: u8) -> (code: Option<Vec<bool>>)
        requires
            self.wf(),
        ensures
            code is Some <==> self@.dom().contains(value),
            code is Some ==> code.unwrap()@ == self@[value],
    {
        match range_at(&self.lookup_table, value) {
            Some(range) => {
                let part = self.codewords.slice(range.0, range.1);
                Some(part.to_bools())
            },
            None => None,
        }
    }

    /// Appends the codeword of `value` to `out`.
    pub fn append_code(&self, value: u8, out: &mut BitBuffer)
        requires
            self.wf(),
            self@.dom().contains(value),
            old(out)@.len() + self@[value].len() <= MAX_BITS,
        ensures
            final(out)@ == old(out)@ + self@[value],
    {
        match range_at(&self.lookup_table, value) {
            Some(range) => {
                out.extend_from_range(&self.codewords, range.0, range.1);
            },
            None => {},
        }
    }
}

} // verus!
