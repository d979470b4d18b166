//! Tree construction: the leaves, rarest first, are merged two at a time. Two
//! queues of node indices, the leaves and the merged nodes, each hold their
//! nodes in the order of creation, and the next node to merge is at the front
//! of one of them.

use crate::codes::{find_code, lemma_find_code_push, lemma_visits_push, visits};
use crate::frequency::weight;
use crate::tree_util::{arena_ordered, node_ordered, shorten, HufTreeNode, ShortHufTreeNode};
use std::collections::VecDeque;
use vstd::prelude::*;

verus! {

/// The state of the construction: the arena so far and the two queues of
/// roots that are still to be merged.
pub struct Forest {
    /// The arena: the leaves, then the parents in the order of their merges.
    pub nodes: Seq<HufTreeNode>,
    /// The leaves that are still roots, the rarest at the front.
    pub sorted: Seq<usize>,
    /// The merged nodes that are still roots, the oldest at the front.
    pub merged: Seq<usize>,
}

/// The indices `0..n` in order.
pub open spec fn first_indices(n: nat) -> Seq<usize> {
    Seq::new(n, |i: int| i as usize)
}

impl Forest {
    /// The state before the first merge: the leaves alone, all of them queued.
    pub open spec fn of_leaves(leaves: Seq<HufTreeNode>) -> Forest {
        Forest { nodes: leaves, sorted: first_indices(leaves.len()), merged: Seq::empty() }
    }

    /// The arena without the frequencies.
    pub open spec fn tree(self) -> Seq<ShortHufTreeNode> {
        shorten(self.nodes)
    }

    /// The number of roots that are still queued.
    pub open spec fn remaining(self) -> nat {
        self.sorted.len() + self.merged.len()
    }

    /// Whether the next root comes from the queue of leaves: it does where
    /// the other queue is empty or its front is not rarer than this one's.
    pub open spec fn takes_sorted(self) -> bool {
        self.sorted.len() > 0 && (self.merged.len() == 0 || self.nodes[self.sorted[0] as int].freq
            <= self.nodes[self.merged[0] as int].freq)
    }

    /// The root that is taken next.
    pub open spec fn picked(self) -> usize {
        if self.takes_sorted() {
            self.sorted[0]
        } else {
            self.merged[0]
        }
    }

    /// The state once the next root has left its queue.
    pub open spec fn after_pick(self) -> Forest {
        if self.takes_sorted() {
            Forest { sorted: self.sorted.drop_first(), ..self }
        } else {
            Forest { merged: self.merged.drop_first(), ..self }
        }
    }

    /// The node that one merge appends: the parent of the two roots taken.
    pub open spec fn parent(self) -> HufTreeNode {
        let first = self.picked();
        let second = self.after_pick().picked();
        HufTreeNode {
            val: 0,
            freq: (self.nodes[first as int].freq + self.nodes[second as int].freq) as usize,
            left: first as i16,
            right: second as i16,
        }
    }

    /// One merge: the two rarest roots leave the queues, their parent is
    /// appended to the arena and queued behind the merged nodes.
    pub open spec fn merge_step(self) -> Forest {
        let rest = self.after_pick().after_pick();
        Forest {
            nodes: self.nodes.push(self.parent()),
            sorted: rest.sorted,
            merged: rest.merged.push(self.nodes.len() as usize),
        }
    }

    /// The arena once a single root is left.
    pub open spec fn merge_all(self) -> Seq<HufTreeNode>
        decreases self.remaining(),
    {
        if self.remaining() <= 1 {
            self.nodes
        } else {
            self.merge_step().merge_all()
        }
    }

    /// Whether `root` is queued.
    pub open spec fn holds(self, root: usize) -> bool {
        self.sorted.contains(root) || self.merged.contains(root)
    }

    /// Whether a queued root has a leaf for `value` below it.
    pub open spec fn covers(self, value: u8) -> bool {
        exists|root: usize| #[trigger] self.holds(root) && find_code(self.tree(), root as int, value) is Some
    }

    /// What every state of a construction satisfies: a root is queued, the
    /// queued roots are nodes of the arena, children precede their parents,
    /// the node appended last is at the back of its queue, and the finished
    /// arena will have at most 511 nodes.
    pub open spec fn wf(self) -> bool {
        &&& self.remaining() >= 1
        &&& self.nodes.len() + self.remaining() <= 512
        &&& forall|i: int| 0 <= i < self.sorted.len() ==> self.sorted[i] < self.nodes.len()
        &&& forall|i: int| 0 <= i < self.merged.len() ==> self.merged[i] < self.nodes.len()
        &&& arena_ordered(self.tree())
        &&& if self.merged.len() > 0 {
            self.merged.last() == self.nodes.len() - 1
        } else {
            self.sorted.last() == self.nodes.len() - 1
        }
    }

    /// The sum of `measure` over the queued roots.
    pub open spec fn load(self, measure: Seq<nat>) -> nat {
        queue_sum(self.sorted, measure) + queue_sum(self.merged, measure)
    }

    /// The frequency of the node at `root`.
    pub open spec fn freq(self, root: usize) -> nat {
        self.nodes[root as int].freq as nat
    }

    /// Each queue holds its roots by ascending frequency.
    pub open spec fn ascending(self) -> bool {
        &&& forall|i: int, j: int|
            0 <= i <= j < self.sorted.len() ==> self.freq(#[trigger] self.sorted[i]) <= self.freq(
                #[trigger] self.sorted[j],
            )
        &&& forall|i: int, j: int|
            0 <= i <= j < self.merged.len() ==> self.freq(#[trigger] self.merged[i]) <= self.freq(
                #[trigger] self.merged[j],
            )
    }

    /// No queued root is rarer than `floor`, and the node merged last is at
    /// most twice as frequent.
    pub open spec fn bounded_below(self, floor: nat) -> bool {
        &&& forall|i: int|
            0 <= i < self.sorted.len() ==> self.freq(#[trigger] self.sorted[i]) >= floor
        &&& forall|i: int|
            0 <= i < self.merged.len() ==> self.freq(#[trigger] self.merged[i]) >= floor
        &&& self.merged.len() > 0 ==> self.freq(self.merged.last()) <= 2 * floor
    }

    /// What makes the front of a queue the rarest root: the state is well
    /// formed, each queue ascends, the merged nodes keep pace with the roots
    /// that are left, and the frequencies add up within `usize`.
    pub open spec fn orderly(self) -> bool {
        &&& self.wf()
        &&& self.ascending()
        &&& exists|floor: nat| self.bounded_below(floor)
        &&& self.load(freq_of(self.nodes)) <= usize::MAX
    }

    /// The root that is taken next is a rarest of the queued roots.
    pub open spec fn takes_rarest(self) -> bool {
        forall|root: usize| #[trigger] self.holds(root) ==> self.freq(self.picked()) <= self.freq(root)
    }

    /// The state after `n` merges.
    pub open spec fn after(self, n: nat) -> Forest
        decreases n,
    {
        if n == 0 {
            self
        } else {
            self.after((n - 1) as nat).merge_step()
        }
    }
}

/// The arena that the merges build from the leaves.
pub open spec fn huffman_nodes(leaves: Seq<HufTreeNode>) -> Seq<HufTreeNode> {
    Forest::of_leaves(leaves).merge_all()
}

/// The sum of `measure` over the indices in `queue`.
pub open spec fn queue_sum(queue: Seq<usize>, measure: Seq<nat>) -> nat
    decreases queue.len(),
{
    if queue.len() == 0 {
        0
    } else {
        measure[queue[0] as int] + queue_sum(queue.drop_first(), measure)
    }
}

/// The frequency of the node at an index.
pub open spec fn freq_of(nodes: Seq<HufTreeNode>) -> Seq<nat> {
    Seq::new(nodes.len(), |i: int| nodes[i].freq as nat)
}

/// The number of leaves below the node at an index.
pub open spec fn visits_of(tree: Seq<ShortHufTreeNode>) -> Seq<nat> {
    Seq::new(tree.len(), |i: int| visits(tree, i))
}

/// Every node in `leaves` is a leaf.
pub open spec fn all_leaves(leaves: Seq<HufTreeNode>) -> bool {
    forall|i: int| 0 <= i < leaves.len() ==> (#[trigger] leaves[i]).short().is_leaf()
}

proof fn lemma_queue_sum_push(queue: Seq<usize>, index: usize, measure: Seq<nat>)
    ensures
        queue_sum(queue.push(index), measure) == queue_sum(queue, measure) + measure[index as int],
    decreases queue.len(),
{
    if queue.len() == 0 {
        assert(queue.push(index).drop_first() == queue);
    } else {
        lemma_queue_sum_push(queue.drop_first(), index, measure);
        assert(queue.push(index).drop_first() == queue.drop_first().push(index));
    }
}

proof fn lemma_queue_sum_same(
    queue: Seq<usize>,
    measure: Seq<nat>,
    other: Seq<nat>,
)
    requires
        forall|i: int|
            0 <= i < queue.len() ==> measure[(#[trigger] queue[i]) as int] == other[queue[i] as int],
    ensures
        queue_sum(queue, measure) == queue_sum(queue, other),
    decreases queue.len(),
{
    if queue.len() > 0 {
        assert(measure[queue[0] as int] == other[queue[0] as int]);
        assert forall|i: int| 0 <= i < queue.drop_first().len() implies measure[(
        #[trigger] queue.drop_first()[i]) as int] == other[queue.drop_first()[i] as int] by {
            assert(queue.drop_first()[i] == queue[i + 1]);
        }
        lemma_queue_sum_same(queue.drop_first(), measure, other);
    }
}

/// A merge keeps the sum of a measure over the queued roots, where the
/// measure of the parent is the sum of its children's and the arena's growth
/// changes it at no other node.
proof fn lemma_step_load(f: Forest, before: Seq<nat>, after: Seq<nat>)
    requires
        f.wf(),
        f.remaining() >= 2,
        before.len() == f.nodes.len(),
        after == before.push(before[f.picked() as int] + before[f.after_pick().picked() as int]),
    ensures
        f.merge_step().load(after) == f.load(before),
{
    let g = f.after_pick();
    let h = g.after_pick();
    assert(g.load(before) + before[f.picked() as int] == f.load(before));
    assert(h.load(before) + before[g.picked() as int] == g.load(before));
    lemma_queue_sum_push(h.merged, f.nodes.len() as usize, after);
    assert forall|i: int| 0 <= i < h.sorted.len() implies before[(#[trigger] h.sorted[i]) as int]
        == after[h.sorted[i] as int] by {
        assert(h.sorted[i] == f.sorted[i] || h.sorted[i] == f.sorted[i + 1] || h.sorted[i]
            == f.sorted[i + 2]);
    }
    assert forall|i: int| 0 <= i < h.merged.len() implies before[(#[trigger] h.merged[i]) as int]
        == after[h.merged[i] as int] by {
        assert(h.merged[i] == f.merged[i] || h.merged[i] == f.merged[i + 1] || h.merged[i]
            == f.merged[i + 2]);
    }
    lemma_queue_sum_same(h.sorted, before, after);
    lemma_queue_sum_same(h.merged, before, after);
}

/// The two roots that a merge takes weigh no more than all queued roots.
proof fn lemma_picks_load(f: Forest, measure: Seq<nat>)
    requires
        f.wf(),
        f.remaining() >= 2,
    ensures
        measure[f.picked() as int] + measure[f.after_pick().picked() as int] <= f.load(measure),
{
    let g = f.after_pick();
    let h = g.after_pick();
    assert(g.load(measure) + measure[f.picked() as int] == f.load(measure));
    assert(h.load(measure) + measure[g.picked() as int] == g.load(measure));
}

/// A merge leads from one well-formed state to the next, and changes the
/// arena only by the parent that it appends.
pub proof fn lemma_step_wf(f: Forest)
    requires
        f.wf(),
        f.remaining() >= 2,
    ensures
        f.merge_step().wf(),
        f.merge_step().remaining() == f.remaining() - 1,
        f.picked() < f.nodes.len(),
        f.after_pick().picked() < f.nodes.len(),
        f.merge_step().tree() == f.tree().push(f.parent().short()),
        f.parent().short().left == f.picked(),
        f.parent().short().right == f.after_pick().picked(),
{
    let g = f.after_pick();
    let h = g.after_pick();
    let next = f.merge_step();
    let n = f.nodes.len() as int;
    assert(next.tree() =~= f.tree().push(f.parent().short()));
    assert forall|i: int| 0 <= i < next.sorted.len() implies next.sorted[i] < next.nodes.len() by {
        assert(h.sorted[i] == f.sorted[i] || h.sorted[i] == f.sorted[i + 1] || h.sorted[i]
            == f.sorted[i + 2]);
    }
    assert forall|i: int| 0 <= i < next.merged.len() implies next.merged[i] < next.nodes.len() by {
        if i < h.merged.len() {
            assert(h.merged[i] == f.merged[i] || h.merged[i] == f.merged[i + 1] || h.merged[i]
                == f.merged[i + 2]);
        }
    }
    assert forall|i: int| 0 <= i < next.tree().len() implies node_ordered(next.tree(), i) by {
        if i < n {
            assert(node_ordered(f.tree(), i));
        }
    }
}

/// Where each queue ascends, the root that is taken next is a rarest one.
pub proof fn lemma_takes_rarest(f: Forest)
    requires
        f.remaining() >= 1,
        f.ascending(),
    ensures
        f.takes_rarest(),
{
    assert forall|root: usize| #[trigger] f.holds(root) implies f.freq(f.picked()) <= f.freq(
        root,
    ) by {
        if f.sorted.contains(root) {
            let i = choose|i: int| 0 <= i < f.sorted.len() && f.sorted[i] == root;
            assert(f.freq(f.sorted[0]) <= f.freq(f.sorted[i]));
        } else {
            let i = choose|i: int| 0 <= i < f.merged.len() && f.merged[i] == root;
            assert(f.freq(f.merged[0]) <= f.freq(f.merged[i]));
        }
    }
}

/// A merge of an orderly state takes the two rarest roots, one after the
/// other, and leads to an orderly state.
pub proof fn lemma_step_orderly(f: Forest)
    requires
        f.orderly(),
        f.remaining() >= 2,
    ensures
        f.takes_rarest(),
        f.after_pick().takes_rarest(),
        f.merge_step().orderly(),
{
    lemma_step_wf(f);
    let g = f.after_pick();
    let h = g.after_pick();
    let next = f.merge_step();
    let first = f.picked();
    let second = g.picked();
    let floor = choose|floor: nat| f.bounded_below(floor);
    let freqs = freq_of(f.nodes);
    lemma_picks_load(f, freqs);
    assert(next.nodes.last().freq == f.freq(first) + f.freq(second));
    assert(freq_of(next.nodes) =~= freqs.push(freqs[first as int] + freqs[second as int]));
    lemma_step_load(f, freqs, freq_of(next.nodes));

    assert forall|i: int| 0 <= i < g.sorted.len() implies g.sorted[i] == f.sorted[i + (
    f.sorted.len() - g.sorted.len())] by {}
    assert forall|i: int| 0 <= i < g.merged.len() implies g.merged[i] == f.merged[i + (
    f.merged.len() - g.merged.len())] by {}
    assert forall|i: int| 0 <= i < h.sorted.len() implies h.sorted[i] == g.sorted[i + (
    g.sorted.len() - h.sorted.len())] by {}
    assert forall|i: int| 0 <= i < h.merged.len() implies h.merged[i] == g.merged[i + (
    g.merged.len() - h.merged.len())] by {}
    assert(g.ascending());
    assert(h.ascending());
    lemma_takes_rarest(f);
    lemma_takes_rarest(g);

    // the roots taken are queued in `f`, and every root left is queued in `g`
    assert(f.holds(first)) by {
        if f.takes_sorted() {
            assert(f.sorted[0] == first);
        } else {
            assert(f.merged[0] == first);
        }
    }
    assert(g.holds(second) && f.holds(second)) by {
        if g.takes_sorted() {
            assert(g.sorted[0] == second);
            assert(f.sorted[f.sorted.len() - g.sorted.len()] == second);
        } else {
            assert(g.merged[0] == second);
            assert(f.merged[f.merged.len() - g.merged.len()] == second);
        }
    }
    assert(f.freq(first) >= floor && f.freq(second) >= floor) by {
        if f.takes_sorted() {
            assert(f.freq(f.sorted[0]) >= floor);
        } else {
            assert(f.freq(f.merged[0]) >= floor);
        }
        if g.takes_sorted() {
            assert(f.freq(f.sorted[f.sorted.len() - g.sorted.len()]) >= floor);
        } else {
            assert(f.freq(f.merged[f.merged.len() - g.merged.len()]) >= floor);
        }
    }
    let pace = f.freq(second);
    assert forall|i: int| 0 <= i < next.sorted.len() implies next.freq(
        #[trigger] next.sorted[i],
    ) >= pace && next.freq(next.sorted[i]) == f.freq(next.sorted[i]) by {
        assert(g.sorted[i + (g.sorted.len() - h.sorted.len())] == h.sorted[i]);
        assert(g.holds(h.sorted[i]));
    }
    assert forall|i: int| 0 <= i < h.merged.len() implies next.freq(#[trigger] next.merged[i])
        >= pace && next.freq(next.merged[i]) == f.freq(next.merged[i]) && f.freq(next.merged[i])
        <= 2 * floor by {
        assert(g.merged[i + (g.merged.len() - h.merged.len())] == h.merged[i]);
        assert(g.holds(h.merged[i]));
        let at = i + (f.merged.len() - h.merged.len());
        assert(f.merged[at] == h.merged[i]);
        assert(f.freq(f.merged[at]) <= f.freq(f.merged[f.merged.len() - 1]));
    }
    assert(next.bounded_below(pace));
    assert(next.ascending());
}

/// After any number of merges that leaves a root, an orderly state is
/// orderly, with one root less for each merge.
pub proof fn lemma_after_orderly(f: Forest, n: nat)
    requires
        f.orderly(),
        n < f.remaining(),
    ensures
        f.after(n).orderly(),
        f.after(n).remaining() == f.remaining() - n,
    decreases n,
{
    if n > 0 {
        lemma_after_orderly(f, (n - 1) as nat);
        lemma_step_orderly(f.after((n - 1) as nat));
        lemma_step_wf(f.after((n - 1) as nat));
    }
}

/// The arena that the merges lead to is the arena after as many merges as
/// leave one root.
pub proof fn lemma_merge_all_after(f: Forest)
    requires
        f.wf(),
    ensures
        f.merge_all() == f.after((f.remaining() - 1) as nat).nodes,
    decreases f.remaining(),
{
    if f.remaining() > 1 {
        lemma_step_wf(f);
        lemma_merge_all_after(f.merge_step());
        lemma_after_shift(f, (f.remaining() - 2) as nat);
    }
}

/// To merge once and then `n` times is to merge `n` times and then once.
proof fn lemma_after_shift(f: Forest, n: nat)
    ensures
        f.merge_step().after(n) == f.after(n).merge_step(),
    decreases n,
{
    if n > 0 {
        lemma_after_shift(f, (n - 1) as nat);
    }
}

/// A byte value that has a leaf below a queued root has one after a merge.
pub proof fn lemma_step_covers(f: Forest, value: u8)
    requires
        f.wf(),
        f.remaining() >= 2,
        f.covers(value),
    ensures
        f.merge_step().covers(value),
{
    lemma_step_wf(f);
    let g = f.after_pick();
    let h = g.after_pick();
    let next = f.merge_step();
    let n = f.nodes.len() as usize;
    let first = f.picked();
    let second = g.picked();
    let root = choose|root: usize| #[trigger]
        f.holds(root) && find_code(f.tree(), root as int, value) is Some;
    lemma_find_code_push(f.tree(), f.parent().short(), first as int, value);
    lemma_find_code_push(f.tree(), f.parent().short(), second as int, value);
    lemma_find_code_push(f.tree(), f.parent().short(), root as int, value);
    if root == first || root == second {
        assert(next.merged.last() == n);
        assert(next.holds(n));
        assert(node_ordered(next.tree(), n as int));
        assert(find_code(next.tree(), n as int, value) is Some);
    } else {
        if f.sorted.contains(root) {
            let i = choose|i: int| 0 <= i < f.sorted.len() && f.sorted[i] == root;
            if f.takes_sorted() {
                if g.takes_sorted() {
                    assert(h.sorted[i - 2] == root);
                } else {
                    assert(h.sorted[i - 1] == root);
                }
            } else {
                if g.takes_sorted() {
                    assert(h.sorted[i - 1] == root);
                } else {
                    assert(h.sorted[i] == root);
                }
            }
            assert(next.sorted.contains(root));
        } else {
            let i = choose|i: int| 0 <= i < f.merged.len() && f.merged[i] == root;
            if f.takes_sorted() {
                if g.takes_sorted() {
                    assert(next.merged[i] == root);
                } else {
                    assert(next.merged[i - 1] == root);
                }
            } else {
                if g.takes_sorted() {
                    assert(next.merged[i - 1] == root);
                } else {
                    assert(next.merged[i - 2] == root);
                }
            }
            assert(next.merged.contains(root));
        }
        assert(next.holds(root));
    }
}

/// What the merges lead to from a well-formed state: an arena in which
/// children precede their parents, with one node more for each root but one
/// that was queued, and whose last node has a leaf below it for every byte
/// value that had one below a queued root.
pub proof fn lemma_merge_all(f: Forest)
    requires
        f.wf(),
    ensures
        arena_ordered(shorten(f.merge_all())),
        f.merge_all().len() == f.nodes.len() + f.remaining() - 1,
        forall|value: u8|
            f.covers(value) ==> find_code(
                shorten(f.merge_all()),
                f.merge_all().len() - 1,
                value,
            ) is Some,
    decreases f.remaining(),
{
    if f.remaining() <= 1 {
        assert forall|value: u8| f.covers(value) implies find_code(
            shorten(f.merge_all()),
            f.merge_all().len() - 1,
            value,
        ) is Some by {
            let root = choose|root: usize| #[trigger]
                f.holds(root) && find_code(f.tree(), root as int, value) is Some;
            if f.sorted.contains(root) {
                let i = choose|i: int| 0 <= i < f.sorted.len() && f.sorted[i] == root;
                assert(i == 0);
            } else {
                let i = choose|i: int| 0 <= i < f.merged.len() && f.merged[i] == root;
                assert(i == 0);
            }
            assert(root == f.nodes.len() - 1);
        }
    } else {
        lemma_step_wf(f);
        lemma_merge_all(f.merge_step());
        assert forall|value: u8| f.covers(value) implies find_code(
            shorten(f.merge_all()),
            f.merge_all().len() - 1,
            value,
        ) is Some by {
            lemma_step_covers(f, value);
        }
    }
}

/// The first `count` nodes of the arena are its leaves, and no other node is
/// a leaf.
pub open spec fn leaves_first(tree: Seq<ShortHufTreeNode>, count: nat) -> bool {
    forall|i: int| 0 <= i < tree.len() ==> ((#[trigger] tree[i]).is_leaf() <==> i < count)
}

/// The merges append no leaf.
pub proof fn lemma_merge_all_leaves_first(f: Forest, count: nat)
    requires
        f.wf(),
        count <= f.nodes.len(),
        leaves_first(f.tree(), count),
    ensures
        leaves_first(shorten(f.merge_all()), count),
    decreases f.remaining(),
{
    if f.remaining() > 1 {
        lemma_step_wf(f);
        let next = f.merge_step();
        assert forall|i: int| 0 <= i < next.tree().len() implies ((#[trigger] next.tree()[i]).is_leaf()
            <==> i < count) by {
            if i < f.tree().len() {
                assert(next.tree()[i] == f.tree()[i]);
            } else {
                assert(next.tree()[i] == f.parent().short());
            }
        }
        lemma_merge_all_leaves_first(next, count);
    }
}

/// The leaves alone are a well-formed state that covers the value of each.
pub proof fn lemma_leaves_wf(leaves: Seq<HufTreeNode>)
    requires
        0 < leaves.len() <= 256,
        all_leaves(leaves),
    ensures
        Forest::of_leaves(leaves).wf(),
        forall|i: int| 0 <= i < leaves.len() ==> Forest::of_leaves(leaves).covers(leaves[i].val),
{
    let f = Forest::of_leaves(leaves);
    assert forall|i: int| 0 <= i < f.tree().len() implies node_ordered(f.tree(), i) by {
        assert(leaves[i].short().is_leaf());
    }
    assert forall|i: int| 0 <= i < leaves.len() implies f.covers(leaves[i].val) by {
        assert(leaves[i].short().is_leaf());
        assert(f.sorted[i] == i as usize);
        assert(f.holds(i as usize));
        assert(find_code(f.tree(), i as int, leaves[i].val) is Some);
    }
}

/// The queued leaves weigh what the leaves weigh, and a walk meets each once.
pub proof fn lemma_leaves_load(leaves: Seq<HufTreeNode>)
    requires
        leaves.len() <= 256,
        all_leaves(leaves),
    ensures
        queue_sum(first_indices(leaves.len()), freq_of(leaves)) == weight(leaves),
        queue_sum(first_indices(leaves.len()), visits_of(shorten(leaves))) == leaves.len(),
    decreases leaves.len(),
{
    if leaves.len() > 0 {
        let fewer = leaves.drop_last();
        let queue = first_indices(leaves.len());
        let last = (leaves.len() - 1) as usize;
        lemma_leaves_load(fewer);
        assert(queue == first_indices(fewer.len()).push(last));
        lemma_queue_sum_push(first_indices(fewer.len()), last, freq_of(leaves));
        lemma_queue_sum_push(first_indices(fewer.len()), last, visits_of(shorten(leaves)));
        assert forall|i: int| 0 <= i < fewer.len() implies freq_of(leaves)[i] == freq_of(
            fewer,
        )[i] by {
            assert(fewer[i] == leaves[i]);
        }
        lemma_queue_sum_same(first_indices(fewer.len()), freq_of(leaves), freq_of(fewer));
        assert forall|i: int| 0 <= i < fewer.len() implies visits_of(shorten(leaves))[i]
            == visits_of(shorten(fewer))[i] by {
            assert(leaves[i].short().is_leaf());
            assert(fewer[i].short().is_leaf());
        }
        lemma_queue_sum_same(
            first_indices(fewer.len()),
            visits_of(shorten(leaves)),
            visits_of(shorten(fewer)),
        );
        assert(leaves.last().short().is_leaf());
    }
}

/// Takes the rarer of the two queues' front nodes out of its queue, the
/// first queue's where they are equally frequent, and returns its index and
/// its frequency.
pub fn take_less(
    queue1: &mut VecDeque<usize>,
    queue2: &mut VecDeque<usize>,
    huffman_tree: &[HufTreeNode],
) -> (taken: (usize, usize))
    requires
        old(queue1)@.len() + old(queue2)@.len() >= 1,
        forall|i: int| 0 <= i < old(queue1)@.len() ==> old(queue1)@[i] < huffman_tree@.len(),
        forall|i: int| 0 <= i < old(queue2)@.len() ==> old(queue2)@[i] < huffman_tree@.len(),
    ensures
        ({
            let f = Forest { nodes: huffman_tree@, sorted: old(queue1)@, merged: old(queue2)@ };
            &&& taken.0 == f.picked()
            &&& taken.1 == huffman_tree@[f.picked() as int].freq
            &&& final(queue1)@ == f.after_pick().sorted
            &&& final(queue2)@ == f.after_pick().merged
        }),
{
    if queue1.len() > 0 {
        let i1 = queue1[0];
        let freq1 = huffman_tree[i1].freq;
        if queue2.len() > 0 {
            let i2 = queue2[0];
            let freq2 = huffman_tree[i2].freq;
            if freq1 <= freq2 {
                queue1.pop_front();
                (i1, freq1)
            } else {
                queue2.pop_front();
                (i2, freq2)
            }
        } else {
            queue1.pop_front();
            (i1, freq1)
        }
    } else {
        let i2 = queue2[0];
        let freq2 = huffman_tree[i2].freq;
        queue2.pop_front();
        (i2, freq2)
    }
}

/// Builds the tree over the given leaves: while more than one root is
/// queued, the two at the fronts that `take_less` prefers are merged. The
/// root is the last node.
///
/// There may be at most 256 leaves, one for each byte value, so that every
/// index fits a child field, and their frequencies must add up within
/// `usize`.
pub fn build_tree(leaves: Vec<HufTreeNode>) -> (huffman_tree: Vec<HufTreeNode>)
    requires
        0 < leaves@.len() <= 256,
        all_leaves(leaves@),
        weight(leaves@) <= usize::MAX,
    ensures
        huffman_tree@ == huffman_nodes(leaves@),
        huffman_tree@.len() == 2 * leaves@.len() - 1,
        arena_ordered(shorten(huffman_tree@)),
        visits(shorten(huffman_tree@), huffman_tree@.len() - 1) == leaves@.len(),
{
    let ghost start = Forest::of_leaves(leaves@);
    let count = leaves.len();
    let mut huffman_tree = leaves;
    let mut queue1: VecDeque<usize> = VecDeque::with_capacity(count);
    let mut queue2: VecDeque<usize> = VecDeque::with_capacity(count);
    let mut i: usize = 0;
    while i < count
        invariant
            i <= count,
            queue1@ == first_indices(i as nat),
        decreases count - i,
    {
        queue1.push_back(i);
        i += 1;
        assert(queue1@ == first_indices(i as nat));
    }
    proof {
        lemma_leaves_wf(start.nodes);
        lemma_leaves_load(start.nodes);
        assert(queue_sum(Seq::<usize>::empty(), freq_of(start.nodes)) == 0);
        assert(queue_sum(Seq::<usize>::empty(), visits_of(start.tree())) == 0);
    }
    let mut j = huffman_tree.len();
    while queue1.len() + queue2.len() > 1
        invariant
            j == huffman_tree@.len(),
            count == start.nodes.len(),
            (Forest { nodes: huffman_tree@, sorted: queue1@, merged: queue2@ }).wf(),
            (Forest { nodes: huffman_tree@, sorted: queue1@, merged: queue2@ }).merge_all()
                == start.merge_all(),
            (Forest { nodes: huffman_tree@, sorted: queue1@, merged: queue2@ }).load(
                freq_of(huffman_tree@),
            ) <= usize::MAX,
            (Forest { nodes: huffman_tree@, sorted: queue1@, merged: queue2@ }).load(
                visits_of(shorten(huffman_tree@)),
            ) == count,
            huffman_tree@.len() + queue1@.len() + queue2@.len() == 2 * count,
        decreases queue1@.len() + queue2@.len(),
    {
        let ghost f = Forest { nodes: huffman_tree@, sorted: queue1@, merged: queue2@ };
        proof {
            lemma_step_wf(f);
            lemma_picks_load(f, freq_of(f.nodes));
        }
        let (elem1, freq1) = take_less(&mut queue1, &mut queue2, &huffman_tree);
        let (elem2, freq2) = take_less(&mut queue1, &mut queue2, &huffman_tree);
        huffman_tree.push(HufTreeNode::new(0, freq1 + freq2, elem1 as i16, elem2 as i16));
        queue2.push_back(j);
        j += 1;
        proof {
            let next = f.merge_step();
            assert(huffman_tree@ == next.nodes);
            assert(queue1@ == next.sorted);
            assert(queue2@ == next.merged);
            assert(freq_of(next.nodes) =~= freq_of(f.nodes).push(
                freq_of(f.nodes)[f.picked() as int] + freq_of(f.nodes)[f.after_pick().picked() as int],
            ));
            lemma_step_load(f, freq_of(f.nodes), freq_of(next.nodes));
            let tree = f.tree();
            let grown = next.tree();
            assert forall|i: int| 0 <= i < tree.len() implies visits(grown, i) == visits(
                tree,
                i,
            ) by {
                lemma_visits_push(tree, f.parent().short(), i);
            }
            assert(node_ordered(grown, tree.len() as int));
            assert(visits_of(grown) =~= visits_of(tree).push(
                visits_of(tree)[f.picked() as int] + visits_of(tree)[f.after_pick().picked() as int],
            ));
            lemma_step_load(f, visits_of(tree), visits_of(grown));
        }
    }
    proof {
        let f = Forest { nodes: huffman_tree@, sorted: queue1@, merged: queue2@ };
        lemma_merge_all(start);
        assert(visits(shorten(huffman_tree@), huffman_tree@.len() - 1) == count) by {
            let measure = visits_of(shorten(huffman_tree@));
            let queue = if f.merged.len() > 0 {
                f.merged
            } else {
                f.sorted
            };
            assert(queue.len() == 1);
            assert(queue.drop_first().len() == 0);
            assert(queue_sum(queue.drop_first(), measure) == 0);
            assert(queue_sum(queue, measure) == measure[queue[0] as int]);
            assert(queue.last() == queue[0]);
        }
    }
    huffman_tree
}

} // verus!
