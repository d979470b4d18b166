//! Frequency analysis: how often each byte value occurs, and the order in
//! which the occurring values become the leaves of the tree.

use crate::tree_util::HufTreeNode;
use ahash::AHashMap;
use vstd::prelude::*;

verus! {

/// `ahash::AHashMap`, the hash map of the tables of counts and of codeword
/// ranges. Verus sees nothing inside it.
#[verifier::external_type_specification]
#[verifier::external_body]
#[verifier::reject_recursive_types(K)]
#[verifier::reject_recursive_types(V)]
#[verifier::reject_recursive_types(S)]
pub struct ExAHashMap<K, V, S>(ahash::AHashMap<K, V, S>);

/// `ahash::RandomState`, the hasher that such a map has by default.
#[verifier::external_type_specification]
#[verifier::external_body]
pub struct ExRandomState(ahash::RandomState);

/// The entries of a table of counts: byte value to count.
pub uninterp spec fn counted(table: AHashMap<u8, usize>) -> Map<u8, usize>;

/// `AHashMap::new`: a table without entries.
#[verifier::external_body]
fn new_counts() -> (table: AHashMap<u8, usize>)
    ensures
        counted(table) == (Map::<u8, usize>::empty()),
{
    AHashMap::new()
}

/// `AHashMap::get`: the count entered for `value`, if there is one.
#[verifier::external_body]
fn count_at(table: &AHashMap<u8, usize>, value: u8) -> (found: Option<usize>)
    ensures
        found == (if counted(*table).dom().contains(value) {
            Some(counted(*table)[value])
        } else {
            None
        }),
{
    table.get(&value).copied()
}

/// `AHashMap::insert`: `value` now has the count `count`, and every other
/// entry is as it was.
#[verifier::external_body]
fn set_count(table: &mut AHashMap<u8, usize>, value: u8, count: usize)
    ensures
        counted(*final(table)) == counted(*old(table)).insert(value, count),
{
    table.insert(value, count);
}

/// How often `value` occurs in `input`.
pub open spec fn count(input: Seq<u8>, value: u8) -> nat
    decreases input.len(),
{
    if input.len() == 0 {
        0
    } else {
        count(input.drop_last(), value) + if input.last() == value {
            1nat
        } else {
            0nat
        }
    }
}

/// The table holds, for each byte value that occurs in `input`, its count,
/// and no other entry.
pub open spec fn counts_match(table: AHashMap<u8, usize>, input: Seq<u8>) -> bool {
    forall|value: u8|
        {
            &&& #[trigger] counted(table).dom().contains(value) <==> count(input, value) > 0
            &&& counted(table).dom().contains(value) ==> counted(table)[value] == count(
                input,
                value,
            )
        }
}

/// The order of two occurring byte values as leaves: the rarer one first,
/// and of two equally frequent ones the smaller value first.
pub open spec fn leaf_before(input: Seq<u8>, a: u8, b: u8) -> bool {
    count(input, a) < count(input, b) || (count(input, a) == count(input, b) && a < b)
}

/// Where `value` enters the ordered symbols `syms`: behind the last symbol
/// that is no more frequent than `value`.
pub open spec fn slot(input: Seq<u8>, syms: Seq<u8>, value: u8) -> nat
    decreases syms.len(),
{
    if syms.len() == 0 {
        0
    } else if count(input, syms.last()) <= count(input, value) {
        syms.len()
    } else {
        slot(input, syms.drop_last(), value)
    }
}

/// The byte values below `bound` that occur in `input`, in leaf order. Each
/// value in turn, from 0 upwards, enters at its slot.
pub open spec fn symbols_below(input: Seq<u8>, bound: nat) -> Seq<u8>
    decreases bound,
{
    if bound == 0 {
        Seq::empty()
    } else {
        let earlier = symbols_below(input, (bound - 1) as nat);
        let value = (bound - 1) as u8;
        if count(input, value) == 0 {
            earlier
        } else {
            earlier.insert(slot(input, earlier, value) as int, value)
        }
    }
}

/// The byte values that occur in `input`, ordered by ascending count and,
/// among equal counts, by ascending value (`lemma_symbol_order`).
pub open spec fn symbol_order(input: Seq<u8>) -> Seq<u8> {
    symbols_below(input, 256)
}

/// The leaf that stands for `value`.
pub open spec fn leaf_node(input: Seq<u8>, value: u8) -> HufTreeNode {
    HufTreeNode { val: value, freq: count(input, value) as usize, left: -1i16, right: -1i16 }
}

/// The leaves of the tree: one per symbol, in the symbols' order.
pub open spec fn leaf_nodes(input: Seq<u8>, syms: Seq<u8>) -> Seq<HufTreeNode> {
    Seq::new(syms.len(), |i: int| leaf_node(input, syms[i]))
}

/// The sum of the counts of the byte values below `bound`.
pub open spec fn counts_below(input: Seq<u8>, bound: nat) -> nat
    decreases bound,
{
    if bound == 0 {
        0
    } else {
        counts_below(input, (bound - 1) as nat) + count(input, (bound - 1) as u8)
    }
}

/// The sum of the frequencies of `nodes`.
pub open spec fn weight(nodes: Seq<HufTreeNode>) -> nat
    decreases nodes.len(),
{
    if nodes.len() == 0 {
        0
    } else {
        weight(nodes.drop_last()) + nodes.last().freq as nat
    }
}

/// No byte value occurs more often than the input is long.
pub proof fn lemma_count_bound(input: Seq<u8>, value: u8)
    ensures
        count(input, value) <= input.len(),
    decreases input.len(),
{
    if input.len() > 0 {
        lemma_count_bound(input.drop_last(), value);
    }
}

/// A byte of the input occurs in it.
pub proof fn lemma_count_positive(input: Seq<u8>, i: int)
    requires
        0 <= i < input.len(),
    ensures
        count(input, input[i]) > 0,
    decreases input.len(),
{
    if i < input.len() - 1 {
        lemma_count_positive(input.drop_last(), i);
    }
}

/// One more byte adds one to the sum of the counts below `bound`, if it is
/// below `bound` itself.
proof fn lemma_counts_below_push(input: Seq<u8>, byte: u8, bound: nat)
    requires
        bound <= 256,
    ensures
        counts_below(input.push(byte), bound) == counts_below(input, bound) + if byte < bound {
            1nat
        } else {
            0nat
        },
    decreases bound,
{
    if bound > 0 {
        lemma_counts_below_push(input, byte, (bound - 1) as nat);
        assert(input.push(byte).drop_last() == input);
    }
}

/// The counts of all byte values add up to the length of the input.
pub proof fn lemma_counts_total(input: Seq<u8>)
    ensures
        counts_below(input, 256) == input.len(),
    decreases input.len(),
{
    if input.len() == 0 {
        lemma_counts_below_zero(input, 256);
    } else {
        lemma_counts_total(input.drop_last());
        lemma_counts_below_push(input.drop_last(), input.last(), 256);
        assert(input.drop_last().push(input.last()) == input);
    }
}

proof fn lemma_counts_below_zero(input: Seq<u8>, bound: nat)
    requires
        input.len() == 0,
    ensures
        counts_below(input, bound) == 0,
    decreases bound,
{
    if bound > 0 {
        lemma_counts_below_zero(input, (bound - 1) as nat);
    }
}

/// A node that enters a sequence adds its frequency to the weight.
pub proof fn lemma_weight_insert(nodes: Seq<HufTreeNode>, at: int, node: HufTreeNode)
    requires
        0 <= at <= nodes.len(),
    ensures
        weight(nodes.insert(at, node)) == weight(nodes) + node.freq,
    decreases nodes.len() - at,
{
    let grown = nodes.insert(at, node);
    if at == nodes.len() {
        assert(grown.drop_last() == nodes);
    } else {
        lemma_weight_insert(nodes.drop_last(), at, node);
        assert(grown.drop_last() == nodes.drop_last().insert(at, node));
    }
}

/// The slot of a value lies within the symbols, no symbol before it is more
/// frequent than the value, and every symbol from it on is.
pub proof fn lemma_slot(input: Seq<u8>, syms: Seq<u8>, value: u8)
    requires
        forall|i: int, j: int|
            0 <= i < j < syms.len() ==> count(input, syms[i]) <= count(input, syms[j]),
    ensures
        slot(input, syms, value) <= syms.len(),
        forall|i: int|
            0 <= i < slot(input, syms, value) ==> count(input, #[trigger] syms[i]) <= count(
                input,
                value,
            ),
        forall|i: int|
            slot(input, syms, value) <= i < syms.len() ==> count(input, #[trigger] syms[i])
                > count(input, value),
    decreases syms.len(),
{
    if syms.len() > 0 && count(input, syms.last()) > count(input, value) {
        lemma_slot(input, syms.drop_last(), value);
        assert forall|i: int| 0 <= i < slot(input, syms, value) implies count(
            input,
            #[trigger] syms[i],
        ) <= count(input, value) by {
            assert(syms[i] == syms.drop_last()[i]);
        }
        assert forall|i: int| slot(input, syms, value) <= i < syms.len() implies count(
            input,
            #[trigger] syms[i],
        ) > count(input, value) by {
            if i < syms.len() - 1 {
                assert(syms[i] == syms.drop_last()[i]);
            }
        }
    }
}

/// What `symbols_below` holds: exactly the occurring values below the bound,
/// each once, in leaf order.
pub proof fn lemma_symbols_below(input: Seq<u8>, bound: nat)
    requires
        bound <= 256,
    ensures
        symbols_below(input, bound).len() <= bound,
        forall|i: int|
            0 <= i < symbols_below(input, bound).len() ==> {
                &&& (#[trigger] symbols_below(input, bound)[i]) < bound
                &&& count(input, symbols_below(input, bound)[i]) > 0
            },
        forall|i: int, j: int|
            0 <= i < j < symbols_below(input, bound).len() ==> leaf_before(
                input,
                #[trigger] symbols_below(input, bound)[i],
                #[trigger] symbols_below(input, bound)[j],
            ),
        forall|value: u8|
            value < bound && count(input, value) > 0 ==> symbols_below(input, bound).contains(
                value,
            ),
    decreases bound,
{
    if bound > 0 {
        let earlier = symbols_below(input, (bound - 1) as nat);
        let value = (bound - 1) as u8;
        let now = symbols_below(input, bound);
        lemma_symbols_below(input, (bound - 1) as nat);
        if count(input, value) > 0 {
            lemma_slot(input, earlier, value);
            let at = slot(input, earlier, value) as int;
            assert(now == earlier.insert(at, value));
            assert forall|i: int, j: int| 0 <= i < j < now.len() implies leaf_before(
                input,
                #[trigger] now[i],
                #[trigger] now[j],
            ) by {
                if i < at && j > at {
                    assert(now[i] == earlier[i]);
                    assert(now[j] == earlier[j - 1]);
                }
            }
            assert forall|other: u8| other < bound && count(input, other) > 0 implies now.contains(
                other,
            ) by {
                if other == value {
                    assert(now[at] == value);
                } else {
                    assert(other < bound - 1);
                    assert(earlier.contains(other));
                    let i = choose|i: int| 0 <= i < earlier.len() && earlier[i] == other;
                    if i < at {
                        assert(now[i] == other);
                    } else {
                        assert(now[i + 1] == other);
                    }
                }
            }
        } else {
            assert forall|other: u8| other < bound && count(input, other) > 0 implies now.contains(
                other,
            ) by {
                assert(other < bound - 1);
            }
        }
    }
}

/// The symbols of an input: every byte value that occurs, once, the rarer
/// before the more frequent and equally frequent ones by ascending value.
pub proof fn lemma_symbol_order(input: Seq<u8>)
    ensures
        symbol_order(input).len() <= 256,
        input.len() > 0 ==> symbol_order(input).len() > 0,
        forall|i: int|
            0 <= i < symbol_order(input).len() ==> count(input, #[trigger] symbol_order(input)[i])
                > 0,
        forall|i: int, j: int|
            0 <= i < j < symbol_order(input).len() ==> leaf_before(
                input,
                #[trigger] symbol_order(input)[i],
                #[trigger] symbol_order(input)[j],
            ),
        forall|value: u8| count(input, value) > 0 ==> symbol_order(input).contains(value),
{
    lemma_symbols_below(input, 256);
    if input.len() > 0 {
        lemma_count_positive(input, 0);
        assert(symbol_order(input).contains(input[0]));
    }
}

/// The leaves of the byte values below a bound weigh as much as those values
/// occur, and all leaves of an input weigh as much as the input is long.
pub proof fn lemma_leaves_weight(input: Seq<u8>, bound: nat)
    requires
        input.len() <= usize::MAX,
        bound <= 256,
    ensures
        weight(leaf_nodes(input, symbols_below(input, bound))) == counts_below(input, bound),
        bound == 256 ==> weight(leaf_nodes(input, symbol_order(input))) == input.len(),
    decreases bound,
{
    if bound > 0 {
        let earlier = symbols_below(input, (bound - 1) as nat);
        let value = (bound - 1) as u8;
        lemma_leaves_weight(input, (bound - 1) as nat);
        lemma_symbols_below(input, (bound - 1) as nat);
        if count(input, value) > 0 {
            lemma_slot(input, earlier, value);
            lemma_count_bound(input, value);
            let at = slot(input, earlier, value) as int;
            lemma_weight_insert(leaf_nodes(input, earlier), at, leaf_node(input, value));
            assert(leaf_nodes(input, earlier).insert(at, leaf_node(input, value)) == leaf_nodes(
                input,
                earlier.insert(at, value),
            ));
        }
    }
    if bound == 256 {
        lemma_counts_total(input);
    }
}

/// Counts the occurrences of each byte value.
pub fn count_frequencies(input: &[u8]) -> (table: AHashMap<u8, usize>)
    ensures
        counts_match(table, input@),
{
    let mut table = new_counts();
    let mut i: usize = 0;
    while i < input.len()
        invariant
            i <= input@.len(),
            counts_match(table, input@.take(i as int)),
        decreases input@.len() - i,
    {
        let byte = input[i];
        let ghost before = input@.take(i as int);
        let ghost after = input@.take(i + 1);
        proof {
            assert(after.drop_last() == before);
            lemma_count_bound(before, byte);
            assert(counted(table).dom().contains(byte) <==> count(before, byte) > 0);
        }
        match count_at(&table, byte) {
            Some(n) => set_count(&mut table, byte, n + 1),
            None => set_count(&mut table, byte, 1),
        }
        i += 1;
        proof {
            assert forall|value: u8|
                {
                    &&& #[trigger] counted(table).dom().contains(value) <==> count(after, value)
                        > 0
                    &&& counted(table).dom().contains(value) ==> counted(table)[value] == count(
                        after,
                        value,
                    )
                } by {
                if value != byte {
                    assert(counted(table).dom().contains(value) <==> count(before, value) > 0);
                }
            }
        }
    }
    assert(input@.take(i as int) == input@);
    table
}

/// The leaves of the tree for `input`: one per occurring byte value, in leaf
/// order.
pub fn sorted_leaves(input: &[u8]) -> (leaves: Vec<HufTreeNode>)
    ensures
        leaves@ == leaf_nodes(input@, symbol_order(input@)),
        weight(leaves@) == input@.len(),
        leaves@.len() <= 256,
        input@.len() > 0 ==> leaves@.len() > 0,
{
    let table = count_frequencies(input);
    let total = input.len();
    let mut leaves: Vec<HufTreeNode> = Vec::new();
    let mut bound: usize = 0;
    while bound < 256
        invariant
            bound <= 256,
            total == input@.len(),
            counts_match(table, input@),
            leaves@ == leaf_nodes(input@, symbols_below(input@, bound as nat)),
            weight(leaves@) == counts_below(input@, bound as nat),
        decreases 256 - bound,
    {
        let value = bound as u8;
        let ghost earlier = symbols_below(input@, bound as nat);
        proof {
            lemma_count_bound(input@, value);
            assert(counted(table).dom().contains(value) <==> count(input@, value) > 0);
            lemma_symbols_below(input@, bound as nat);
        }
        match count_at(&table, value) {
            Some(n) => {
                let mut at = leaves.len();
                assert(earlier.take(at as int) == earlier);
                while at > 0 && leaves[at - 1].freq > n
                    invariant
                        at <= leaves@.len(),
                        total == input@.len(),
                        leaves@ == leaf_nodes(input@, earlier),
                        n == count(input@, value),
                        slot(input@, earlier, value) == slot(input@, earlier.take(at as int), value),
                    decreases at,
                {
                    proof {
                        lemma_count_bound(input@, earlier[at - 1]);
                        assert(earlier.take(at as int).drop_last() == earlier.take(at - 1));
                    }
                    at -= 1;
                }
                proof {
                    if at > 0 {
                        lemma_count_bound(input@, earlier[at - 1]);
                        assert(earlier.take(at as int).last() == earlier[at - 1]);
                    }
                    assert(slot(input@, earlier, value) == at);
                    assert(symbols_below(input@, (bound + 1) as nat) == earlier.insert(
                        at as int,
                        value,
                    ));
                    lemma_weight_insert(leaves@, at as int, leaf_node(input@, value));
                    assert(leaves@.insert(at as int, leaf_node(input@, value)) == leaf_nodes(
                        input@,
                        earlier.insert(at as int, value),
                    ));
                }
                leaves.insert(at, HufTreeNode::new(value, n, -1, -1));
            },
            None => {
                assert(symbols_below(input@, (bound + 1) as nat) == earlier);
            },
        }
        bound += 1;
    }
    proof {
        lemma_counts_total(input@);
        lemma_symbol_order(input@);
    }
    leaves
}

} // verus!
