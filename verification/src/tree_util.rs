//! The two node types of the tree arena and what it means for an arena to be
//! well formed.

use vstd::prelude::*;

verus! {

/// One node of the tree while it is being built.
///
/// `left` and `right` index the arena that holds the node; `-1` stands for
/// an absent child. `val` means something only at a leaf; `freq` is the
/// number of occurrences at a leaf and the sum of the children elsewhere.
#[derive(Debug, Clone, Copy, PartialEq, Eq, Structural)]
pub struct HufTreeNode {
    pub val: u8,
    pub freq: usize,
    pub left: i16,
    pub right: i16,
}

/// The projection of a `HufTreeNode` that decoding needs and that is written
/// to the wire: the frequency is dropped.
#[derive(Debug, Clone, Copy, PartialEq, Eq, Structural)]
pub struct ShortHufTreeNode {
    pub val: u8,
    pub left: i16,
    pub right: i16,
}

impl HufTreeNode {
    #[inline]
    pub fn new(val: u8, freq: usize, left: i16, right: i16) -> (node: Self)
        ensures
            node == (HufTreeNode { val, freq, left, right }),
    {
        Self { val, freq, left, right }
    }

    /// The node without its frequency.
    pub open spec fn short(self) -> ShortHufTreeNode {
        ShortHufTreeNode { val: self.val, left: self.left, right: self.right }
    }

    #[inline]
    pub fn to_short(self) -> (node: ShortHufTreeNode)
        ensures
            node == self.short(),
    {
        ShortHufTreeNode { val: self.val, left: self.left, right: self.right }
    }
}

impl ShortHufTreeNode {
    #[inline]
    pub fn new(val: u8, left: i16, right: i16) -> (node: Self)
        ensures
            node == (ShortHufTreeNode { val, left, right }),
    {
        Self { val, left, right }
    }

    /// A leaf has neither child.
    pub open spec fn is_leaf(self) -> bool {
        self.left == -1 && self.right == -1
    }
}

/// The arena with the frequencies dropped, node by node.
pub open spec fn shorten(nodes: Seq<HufTreeNode>) -> Seq<ShortHufTreeNode> {
    Seq::new(nodes.len(), |i: int| nodes[i].short())
}

/// Node `i` is a leaf, or both its children are nodes of the arena.
pub open spec fn node_valid(tree: Seq<ShortHufTreeNode>, i: int) -> bool {
    tree[i].is_leaf() || (0 <= tree[i].left < tree.len() && 0 <= tree[i].right < tree.len())
}

/// What decoding asks of a tree: it has a root, the last node, and no node
/// has exactly one child or a child outside the arena.
pub open spec fn tree_valid(tree: Seq<ShortHufTreeNode>) -> bool {
    &&& tree.len() > 0
    &&& forall|i: int| 0 <= i < tree.len() ==> node_valid(tree, i)
}

/// Node `i` is a leaf, or both its children were appended before it.
pub open spec fn node_ordered(tree: Seq<ShortHufTreeNode>, i: int) -> bool {
    tree[i].is_leaf() || (0 <= tree[i].left < i && 0 <= tree[i].right < i)
}

/// The arena order that construction gives: children precede their parent,
/// so the graph has no cycle.
pub open spec fn arena_ordered(tree: Seq<ShortHufTreeNode>) -> bool {
    forall|i: int| 0 <= i < tree.len() ==> node_ordered(tree, i)
}

/// The index of the root: the node appended last.
pub open spec fn root_of(tree: Seq<ShortHufTreeNode>) -> int {
    tree.len() - 1
}

} // verus!
