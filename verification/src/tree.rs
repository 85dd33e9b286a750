//! The prefix-code tree and how it is built from a frequency table.
//!
//! The tree is built by repeated merging of the two lightest pending nodes.
//! Ties are broken by a fixed rule, so that a frequency table has exactly one
//! tree: among nodes of equal weight, leaves are taken in ascending symbol
//! order, and a merged node is taken after every node of its weight that was
//! pending when it was made.

use crate::bits::max_bits;
use crate::error::HuffmanError;
use crate::frequency::{
    distinct_symbols, entries_map, has_symbol, lemma_ascending_distinct, lemma_position_unique,
    position_of, sorted_entries, total_count, valid_entries, FrequencyTable,
};
use vstd::multiset::Multiset;
use vstd::prelude::*;

verus! {

/// A node of a prefix-code tree.
#[derive(Debug, PartialEq, Eq)]
pub enum HuffmanNode {
    /// One symbol, with the number of its occurrences.
    Leaf { symbol: char, weight: usize },
    /// Two subtrees; bit 0 leads to the left one, bit 1 to the right one.
    Internal { weight: usize, left: Box<HuffmanNode>, right: Box<HuffmanNode> },
}

impl HuffmanNode {
    /// The weight recorded in the node.
    pub open spec fn weight_of(self) -> nat {
        match self {
            HuffmanNode::Leaf { weight, .. } => weight as nat,
            HuffmanNode::Internal { weight, .. } => weight as nat,
        }
    }

    /// The leaves below the node, left to right, as entries.
    pub open spec fn leaves(self) -> Seq<(char, usize)>
        decreases self,
    {
        match self {
            HuffmanNode::Leaf { symbol, weight } => seq![(symbol, weight)],
            HuffmanNode::Internal { left, right, .. } => left.leaves() + right.leaves(),
        }
    }

    /// The number of edges on the longest path down from the node.
    pub open spec fn height(self) -> nat
        decreases self,
    {
        match self {
            HuffmanNode::Leaf { .. } => 0,
            HuffmanNode::Internal { left, right, .. } => {
                let l = left.height();
                let r = right.height();
                if l >= r {
                    l + 1
                } else {
                    r + 1
                }
            },
        }
    }

    /// The weight of every internal node is the sum of the weights of its
    /// two children.
    pub open spec fn conserves_weight(self) -> bool
        decreases self,
    {
        match self {
            HuffmanNode::Leaf { .. } => true,
            HuffmanNode::Internal { weight, left, right } => {
                &&& weight == left.weight_of() + right.weight_of()
                &&& left.conserves_weight()
                &&& right.conserves_weight()
            },
        }
    }

    /// The tree conserves weight and no two of its leaves hold the same
    /// symbol.
    pub open spec fn wf(self) -> bool {
        &&& self.conserves_weight()
        &&& distinct_symbols(self.leaves())
    }

    /// The mapping from the symbols of the leaves to their weights.
    pub open spec fn leaf_map(self) -> Map<char, nat> {
        entries_map(self.leaves())
    }

    /// The weight recorded in the node.
    pub fn weight(&self) -> (w: usize)
        ensures
            w == self.weight_of(),
    {
        match self {
            HuffmanNode::Leaf { weight, .. } => *weight,
            HuffmanNode::Internal { weight, .. } => *weight,
        }
    }

    /// Whether the node is a leaf.
    pub fn is_leaf(&self) -> (b: bool)
        ensures
            b == (self is Leaf),
    {
        match self {
            HuffmanNode::Leaf { .. } => true,
            HuffmanNode::Internal { .. } => false,
        }
    }
}

/// The leaf that stands for an entry.
pub open spec fn leaf_for(e: (char, usize)) -> HuffmanNode {
    HuffmanNode::Leaf { symbol: e.0, weight: e.1 }
}

/// The node that merges `a`, as the left child, and `b`, as the right one.
pub open spec fn join(a: HuffmanNode, b: HuffmanNode) -> HuffmanNode {
    HuffmanNode::Internal {
        weight: (a.weight_of() + b.weight_of()) as usize,
        left: Box::new(a),
        right: Box::new(b),
    }
}

/// Where a node of weight `w` goes into the pending nodes, which are kept
/// heaviest first: before the trailing run of nodes that weigh no more.
pub open spec fn sink_index(q: Seq<HuffmanNode>, w: nat) -> int
    decreases q.len(),
{
    if q.len() == 0 || q.last().weight_of() > w {
        q.len() as int
    } else {
        sink_index(q.drop_last(), w)
    }
}

/// The pending nodes with `n` added at its place.
pub open spec fn enqueue(q: Seq<HuffmanNode>, n: HuffmanNode) -> Seq<HuffmanNode> {
    q.insert(sink_index(q, n.weight_of()), n)
}

/// The pending nodes at the start: one leaf for each entry, added in the
/// order of the entries.
pub open spec fn leaf_queue(entries: Seq<(char, usize)>) -> Seq<HuffmanNode>
    decreases entries.len(),
{
    if entries.len() == 0 {
        Seq::empty()
    } else {
        enqueue(leaf_queue(entries.drop_last()), leaf_for(entries.last()))
    }
}

/// The tree that remains when the two lightest pending nodes, which stand
/// last, are merged again and again. The lightest becomes the left child.
pub open spec fn merge_queue(q: Seq<HuffmanNode>) -> HuffmanNode
    decreases q.len(),
{
    if q.len() <= 1 {
        q[0]
    } else {
        proof {
            lemma_sink_index_range(
                q.take(q.len() - 2),
                join(q[q.len() - 1], q[q.len() - 2]).weight_of(),
            );
        }
        merge_queue(enqueue(q.take(q.len() - 2), join(q[q.len() - 1], q[q.len() - 2])))
    }
}

/// The prefix-code tree of a frequency mapping.
pub open spec fn huffman_tree(m: Map<char, nat>) -> HuffmanNode {
    merge_queue(leaf_queue(sorted_entries(m)))
}

/// The sum of the weights of the pending nodes.
pub open spec fn queue_weight(q: Seq<HuffmanNode>) -> nat
    decreases q.len(),
{
    if q.len() == 0 {
        0
    } else {
        queue_weight(q.drop_last()) + q.last().weight_of()
    }
}

/// The leaves of all the pending nodes.
pub open spec fn queue_leaves(q: Seq<HuffmanNode>) -> Seq<(char, usize)>
    decreases q.len(),
{
    if q.len() == 0 {
        Seq::empty()
    } else {
        queue_leaves(q.drop_last()) + q.last().leaves()
    }
}

/// Every pending node conserves weight.
pub open spec fn queue_conserves(q: Seq<HuffmanNode>) -> bool {
    forall|i: int| 0 <= i < q.len() ==> (#[trigger] q[i]).conserves_weight()
}

/// A node goes somewhere among the pending nodes or behind them.
pub proof fn lemma_sink_index_range(q: Seq<HuffmanNode>, w: nat)
    ensures
        0 <= sink_index(q, w) <= q.len(),
    decreases q.len(),
{
    if q.len() > 0 && q.last().weight_of() <= w {
        lemma_sink_index_range(q.drop_last(), w);
    }
}

/// What inserting a node anywhere does to the sums over the pending nodes.
proof fn lemma_queue_insert(q: Seq<HuffmanNode>, i: int, n: HuffmanNode)
    requires
        0 <= i <= q.len(),
    ensures
        queue_weight(q.insert(i, n)) == queue_weight(q) + n.weight_of(),
        queue_leaves(q.insert(i, n)).to_multiset() == queue_leaves(q).to_multiset().add(
            n.leaves().to_multiset(),
        ),
        queue_conserves(q) && n.conserves_weight() ==> queue_conserves(q.insert(i, n)),
    decreases q.len(),
{
    let t = q.insert(i, n);
    if i == q.len() {
        assert(t.drop_last() =~= q);
        vstd::seq_lib::lemma_multiset_commutative(queue_leaves(q), n.leaves());
    } else {
        let q1 = q.drop_last();
        assert(t.drop_last() =~= q1.insert(i, n));
        lemma_queue_insert(q1, i, n);
        vstd::seq_lib::lemma_multiset_commutative(queue_leaves(q1.insert(i, n)), q.last().leaves());
        vstd::seq_lib::lemma_multiset_commutative(queue_leaves(q1), q.last().leaves());
        assert(queue_leaves(t).to_multiset() =~= queue_leaves(q).to_multiset().add(
            n.leaves().to_multiset(),
        ));
    }
    if queue_conserves(q) && n.conserves_weight() {
        assert forall|k: int| 0 <= k < t.len() implies (#[trigger] t[k]).conserves_weight() by {
            if k < i {
                assert(t[k] == q[k]);
            } else if k > i {
                assert(t[k] == q[k - 1]);
            }
        }
    }
}

/// What adding a node at its place does to the sums over the pending nodes.
pub proof fn lemma_enqueue(q: Seq<HuffmanNode>, n: HuffmanNode)
    ensures
        enqueue(q, n).len() == q.len() + 1,
        queue_weight(enqueue(q, n)) == queue_weight(q) + n.weight_of(),
        queue_leaves(enqueue(q, n)).to_multiset() == queue_leaves(q).to_multiset().add(
            n.leaves().to_multiset(),
        ),
        queue_conserves(q) && n.conserves_weight() ==> queue_conserves(enqueue(q, n)),
{
    lemma_sink_index_range(q, n.weight_of());
    lemma_queue_insert(q, sink_index(q, n.weight_of()), n);
}

/// The pending nodes at the start hold the entries, one leaf each.
pub proof fn lemma_leaf_queue(entries: Seq<(char, usize)>)
    ensures
        leaf_queue(entries).len() == entries.len(),
        queue_weight(leaf_queue(entries)) == total_count(entries),
        queue_leaves(leaf_queue(entries)).to_multiset() == entries.to_multiset(),
        queue_conserves(leaf_queue(entries)),
    decreases entries.len(),
{
    broadcast use vstd::seq_lib::group_to_multiset_ensures;

    if entries.len() == 0 {
        assert(queue_leaves(leaf_queue(entries)) =~= entries);
    } else {
        let rest = entries.drop_last();
        let leaf = leaf_for(entries.last());
        lemma_leaf_queue(rest);
        lemma_enqueue(leaf_queue(rest), leaf);
        assert(leaf.leaves() =~= seq![entries.last()]);
        assert(entries =~= rest.push(entries.last()));
        assert(seq![entries.last()].to_multiset() =~= Multiset::<(char, usize)>::empty().insert(
            entries.last(),
        )) by {
            assert(seq![entries.last()] =~= Seq::<(char, usize)>::empty().push(entries.last()));
        }
        assert(queue_leaves(leaf_queue(entries)).to_multiset() =~= entries.to_multiset());
    }
}

/// What taking the last two pending nodes away does to the sums.
proof fn lemma_queue_split(q: Seq<HuffmanNode>)
    requires
        q.len() >= 2,
    ensures
        queue_weight(q) == queue_weight(q.take(q.len() - 2)) + q[q.len() - 2].weight_of() + q[q.len()
            - 1].weight_of(),
        queue_leaves(q) == queue_leaves(q.take(q.len() - 2)) + q[q.len() - 2].leaves() + q[q.len()
            - 1].leaves(),
        queue_conserves(q) ==> queue_conserves(q.take(q.len() - 2)) && q[q.len()
            - 2].conserves_weight() && q[q.len() - 1].conserves_weight(),
{
    let rest = q.take(q.len() - 2);
    let q1 = q.drop_last();
    assert(q1.drop_last() =~= rest);
    assert(q1.last() == q[q.len() - 2]);
    assert(queue_weight(q1) == queue_weight(rest) + q1.last().weight_of());
    assert(queue_leaves(q1) == queue_leaves(rest) + q1.last().leaves());
    if queue_conserves(q) {
        assert forall|k: int| 0 <= k < rest.len() implies (#[trigger] rest[k]).conserves_weight() by {
            assert(rest[k] == q[k]);
        }
    }
}

/// The total of the entries of a concatenation.
pub proof fn lemma_total_concat(a: Seq<(char, usize)>, b: Seq<(char, usize)>)
    ensures
        total_count(a + b) == total_count(a) + total_count(b),
    decreases b.len(),
{
    if b.len() == 0 {
        assert(a + b =~= a);
    } else {
        assert((a + b).drop_last() =~= a + b.drop_last());
        lemma_total_concat(a, b.drop_last());
    }
}

/// In a tree that conserves weight, the weight of the root is the sum of
/// the weights of the leaves.
pub proof fn lemma_weight_is_leaf_total(node: HuffmanNode)
    requires
        node.conserves_weight(),
    ensures
        node.weight_of() == total_count(node.leaves()),
    decreases node,
{
    match node {
        HuffmanNode::Leaf { symbol, weight } => {
            assert(node.leaves().drop_last() =~= Seq::<(char, usize)>::empty());
            assert(total_count(node.leaves().drop_last()) == 0);
        },
        HuffmanNode::Internal { weight, left, right } => {
            lemma_weight_is_leaf_total(*left);
            lemma_weight_is_leaf_total(*right);
            lemma_total_concat(left.leaves(), right.leaves());
        },
    }
}

/// Merging keeps what the pending nodes hold: the tree conserves weight,
/// weighs what they weighed together, and has their leaves.
pub proof fn lemma_merge_queue(q: Seq<HuffmanNode>)
    requires
        q.len() >= 1,
        queue_conserves(q),
        queue_weight(q) <= usize::MAX,
    ensures
        merge_queue(q).conserves_weight(),
        merge_queue(q).weight_of() == queue_weight(q),
        merge_queue(q).leaves().to_multiset() == queue_leaves(q).to_multiset(),
    decreases q.len(),
{
    if q.len() == 1 {
        assert(q.drop_last() =~= Seq::<HuffmanNode>::empty());
        assert(queue_weight(q.drop_last()) == 0);
        assert(queue_leaves(q.drop_last()) =~= Seq::<(char, usize)>::empty());
        assert(queue_leaves(q) =~= q[0].leaves());
    } else {
        let a = q[q.len() - 1];
        let b = q[q.len() - 2];
        let rest = q.take(q.len() - 2);
        let n = join(a, b);
        lemma_queue_split(q);
        lemma_enqueue(rest, n);
        assert(n.conserves_weight());
        lemma_merge_queue(enqueue(rest, n));
        vstd::seq_lib::lemma_multiset_commutative(a.leaves(), b.leaves());
        vstd::seq_lib::lemma_multiset_commutative(queue_leaves(rest), b.leaves());
        vstd::seq_lib::lemma_multiset_commutative(queue_leaves(rest) + b.leaves(), a.leaves());
        assert(queue_leaves(enqueue(rest, n)).to_multiset() =~= queue_leaves(q).to_multiset());
    }
}

/// Entries with the same elements as entries with distinct symbols have
/// distinct symbols too, and stand for the same mapping.
pub proof fn lemma_same_entries(s: Seq<(char, usize)>, t: Seq<(char, usize)>)
    requires
        s.to_multiset() == t.to_multiset(),
        distinct_symbols(t),
    ensures
        distinct_symbols(s),
        entries_map(s) == entries_map(t),
{
    broadcast use vstd::seq_lib::group_to_multiset_ensures;

    assert forall|e: (char, usize)| s.contains(e) <==> t.contains(e) by {
        assert(s.contains(e) <==> s.to_multiset().count(e) > 0);
        assert(t.contains(e) <==> t.to_multiset().count(e) > 0);
    }
    assert(t.no_duplicates()) by {
        assert forall|i: int, j: int| 0 <= i < t.len() && 0 <= j < t.len() && i != j implies t[i]
            != t[j] by {
            if i < j {
                assert(t[i].0 != t[j].0);
            } else {
                assert(t[j].0 != t[i].0);
            }
        }
    }
    t.lemma_multiset_has_no_duplicates();
    s.lemma_multiset_has_no_duplicates_conv();
    assert forall|i: int, j: int| 0 <= i < j < s.len() implies (#[trigger] s[i]).0 != (
    #[trigger] s[j]).0 by {
        assert(s[i] != s[j]);
        assert(s.contains(s[i]));
        assert(s.contains(s[j]));
        assert(t.contains(s[i]));
        assert(t.contains(s[j]));
        let a = choose|a: int| 0 <= a < t.len() && t[a] == s[i];
        let b = choose|b: int| 0 <= b < t.len() && t[b] == s[j];
        if a < b {
            assert(t[a].0 != t[b].0);
        } else if b < a {
            assert(t[b].0 != t[a].0);
        }
    }
    assert forall|c: char| has_symbol(s, c) <==> has_symbol(t, c) by {
        if has_symbol(s, c) {
            let i = position_of(s, c);
            assert(s.contains(s[i]));
            assert(t.contains(s[i]));
            let a = choose|a: int| 0 <= a < t.len() && t[a] == s[i];
            assert(t[a].0 == c);
        }
        if has_symbol(t, c) {
            let i = position_of(t, c);
            assert(t.contains(t[i]));
            assert(s.contains(t[i]));
            let a = choose|a: int| 0 <= a < s.len() && s[a] == t[i];
            assert(s[a].0 == c);
        }
    }
    assert forall|c: char| has_symbol(s, c) implies entries_map(s)[c] == entries_map(t)[c] by {
        let i = position_of(s, c);
        assert(s.contains(s[i]));
        assert(t.contains(s[i]));
        let a = choose|a: int| 0 <= a < t.len() && t[a] == s[i];
        lemma_position_unique(s, i);
        lemma_position_unique(t, a);
    }
    assert(entries_map(s) =~= entries_map(t));
}

/// The tree of valid, non-empty entries: it is well formed, its leaves are
/// the entries, and its root weighs their total.
pub proof fn lemma_tree_of_entries(entries: Seq<(char, usize)>)
    requires
        valid_entries(entries),
        entries.len() > 0,
    ensures
        merge_queue(leaf_queue(entries)).wf(),
        merge_queue(leaf_queue(entries)).leaf_map() == entries_map(entries),
        merge_queue(leaf_queue(entries)).leaves().to_multiset() == entries.to_multiset(),
        merge_queue(leaf_queue(entries)).leaves().len() == entries.len(),
        merge_queue(leaf_queue(entries)).weight_of() == total_count(entries),
{
    broadcast use vstd::seq_lib::group_to_multiset_ensures;

    lemma_leaf_queue(entries);
    lemma_merge_queue(leaf_queue(entries));
    lemma_ascending_distinct(entries);
    let leaves = merge_queue(leaf_queue(entries)).leaves();
    lemma_same_entries(leaves, entries);
    assert(leaves.len() == leaves.to_multiset().len());
    assert(entries.len() == entries.to_multiset().len());
}

/// The pending nodes stand heaviest first, so that the two lightest stand
/// last.
pub open spec fn heaviest_first(q: Seq<HuffmanNode>) -> bool {
    forall|i: int, j: int|
        0 <= i < j < q.len() ==> (#[trigger] q[i]).weight_of() >= (#[trigger] q[j]).weight_of()
}

/// Among nodes that stand heaviest first, a node goes behind all that are
/// heavier and before all that are not.
pub proof fn lemma_sink_index(q: Seq<HuffmanNode>, w: nat)
    requires
        heaviest_first(q),
    ensures
        0 <= sink_index(q, w) <= q.len(),
        forall|j: int| 0 <= j < sink_index(q, w) ==> (#[trigger] q[j]).weight_of() > w,
        forall|j: int| sink_index(q, w) <= j < q.len() ==> (#[trigger] q[j]).weight_of() <= w,
    decreases q.len(),
{
    if q.len() > 0 {
        if q.last().weight_of() > w {
            assert forall|j: int| 0 <= j < q.len() implies (#[trigger] q[j]).weight_of() > w by {
                if j < q.len() - 1 {
                    assert(q[j].weight_of() >= q[q.len() - 1].weight_of());
                }
            }
        } else {
            let q1 = q.drop_last();
            assert forall|i: int, j: int| 0 <= i < j < q1.len() implies (#[trigger] q1[i]).weight_of()
                >= (#[trigger] q1[j]).weight_of() by {
                assert(q[i].weight_of() >= q[j].weight_of());
            }
            lemma_sink_index(q1, w);
            assert forall|j: int| 0 <= j < sink_index(q, w) implies (#[trigger] q[j]).weight_of()
                > w by {
                assert(q1[j].weight_of() > w);
            }
            assert forall|j: int| sink_index(q, w) <= j < q.len() implies (#[trigger] q[j]).weight_of()
                <= w by {
                if j < q1.len() {
                    assert(q1[j].weight_of() <= w);
                }
            }
        }
    }
}

/// Adding a node at its place keeps the pending nodes heaviest first.
pub proof fn lemma_enqueue_heaviest_first(q: Seq<HuffmanNode>, n: HuffmanNode)
    requires
        heaviest_first(q),
    ensures
        heaviest_first(enqueue(q, n)),
{
    let w = n.weight_of();
    let k = sink_index(q, w);
    let t = enqueue(q, n);
    lemma_sink_index(q, w);
    assert forall|i: int, j: int| 0 <= i < j < t.len() implies (#[trigger] t[i]).weight_of() >= (
    #[trigger] t[j]).weight_of() by {
        let i0 = if i < k { i } else { i - 1 };
        let j0 = if j < k { j } else { j - 1 };
        if i != k && j != k {
            assert(q[i0].weight_of() >= q[j0].weight_of());
        } else if i == k {
            assert(q[j0].weight_of() <= w);
        } else {
            assert(q[i0].weight_of() > w);
        }
    }
}

/// The pending nodes at the start stand heaviest first.
pub proof fn lemma_leaf_queue_heaviest_first(entries: Seq<(char, usize)>)
    ensures
        heaviest_first(leaf_queue(entries)),
    decreases entries.len(),
{
    if entries.len() > 0 {
        lemma_leaf_queue_heaviest_first(entries.drop_last());
        lemma_enqueue_heaviest_first(leaf_queue(entries.drop_last()), leaf_for(entries.last()));
    }
}

/// Each merge takes the two lightest pending nodes, and leaves the pending
/// nodes heaviest first again.
pub proof fn lemma_merge_takes_lightest(q: Seq<HuffmanNode>)
    requires
        q.len() >= 2,
        heaviest_first(q),
    ensures
        forall|i: int| 0 <= i < q.len() ==> q[q.len() - 1].weight_of() <= (#[trigger] q[i]).weight_of(),
        forall|i: int|
            0 <= i < q.len() - 1 ==> q[q.len() - 2].weight_of() <= (#[trigger] q[i]).weight_of(),
        heaviest_first(enqueue(q.take(q.len() - 2), join(q[q.len() - 1], q[q.len() - 2]))),
{
    let rest = q.take(q.len() - 2);
    assert forall|i: int| 0 <= i < q.len() implies q[q.len() - 1].weight_of() <= (
    #[trigger] q[i]).weight_of() by {
        if i < q.len() - 1 {
            assert(q[i].weight_of() >= q[q.len() - 1].weight_of());
        }
    }
    assert forall|i: int| 0 <= i < q.len() - 1 implies q[q.len() - 2].weight_of() <= (
    #[trigger] q[i]).weight_of() by {
        if i < q.len() - 2 {
            assert(q[i].weight_of() >= q[q.len() - 2].weight_of());
        }
    }
    assert forall|i: int, j: int| 0 <= i < j < rest.len() implies (#[trigger] rest[i]).weight_of()
        >= (#[trigger] rest[j]).weight_of() by {
        assert(q[i].weight_of() >= q[j].weight_of());
    }
    lemma_enqueue_heaviest_first(rest, join(q[q.len() - 1], q[q.len() - 2]));
}

/// The pending nodes after `k` merges, or after as many as there can be.
pub open spec fn merge_steps(q: Seq<HuffmanNode>, k: nat) -> Seq<HuffmanNode>
    decreases k,
{
    if k == 0 || q.len() < 2 {
        q
    } else {
        merge_steps(
            enqueue(q.take(q.len() - 2), join(q[q.len() - 1], q[q.len() - 2])),
            (k - 1) as nat,
        )
    }
}

/// However many merges are made, the pending nodes stand heaviest first,
/// so that the next merge takes the two lightest, and the tree that remains
/// in the end is the same.
pub proof fn lemma_merge_steps(q: Seq<HuffmanNode>, k: nat)
    requires
        heaviest_first(q),
    ensures
        heaviest_first(merge_steps(q, k)),
        merge_queue(merge_steps(q, k)) == merge_queue(q),
    decreases k,
{
    if k > 0 && q.len() >= 2 {
        lemma_merge_takes_lightest(q);
        lemma_merge_steps(
            enqueue(q.take(q.len() - 2), join(q[q.len() - 1], q[q.len() - 2])),
            (k - 1) as nat,
        );
    }
}

/// A tree is lower than it has leaves.
pub proof fn lemma_height_below_leaves(node: HuffmanNode)
    ensures
        node.height() < node.leaves().len(),
    decreases node,
{
    match node {
        HuffmanNode::Leaf { .. } => {},
        HuffmanNode::Internal { weight, left, right } => {
            lemma_height_below_leaves(*left);
            lemma_height_below_leaves(*right);
        },
    }
}

/// Adds a node to the pending nodes at its place.
fn insert_node(queue: &mut Vec<HuffmanNode>, node: HuffmanNode)
    ensures
        final(queue)@ == enqueue(old(queue)@, node),
{
    let w = node.weight();
    let mut i: usize = queue.len();
    assert(queue@.take(i as int) =~= queue@);
    while i > 0 && queue[i - 1].weight() <= w
        invariant
            i <= queue@.len(),
            sink_index(queue@, w as nat) == sink_index(queue@.take(i as int), w as nat),
        decreases i,
    {
        assert(queue@.take(i as int).drop_last() =~= queue@.take(i - 1));
        i -= 1;
    }
    assert(sink_index(queue@.take(i as int), w as nat) == i);
    queue.insert(i, node);
}

/// Builds the prefix-code tree of a frequency table.
///
/// An empty table has no tree. A table with one entry has a tree of one
/// leaf. The tree depends on the mapping alone.
pub fn build_huffman_tree(table: &FrequencyTable) -> (r: Result<HuffmanNode, HuffmanError>)
    ensures
        r is Err <==> table.entries().len() == 0,
        r matches Err(e) ==> e == HuffmanError::InvalidInput,
        r matches Ok(tree) ==> {
            &&& tree == huffman_tree(table@)
            &&& tree == merge_queue(leaf_queue(table.entries()))
            &&& tree.wf()
            &&& tree.leaf_map() == table@
            &&& tree.leaves().len() == table.entries().len()
            &&& tree.weight_of() == table.total_spec()
            &&& tree.height() < tree.leaves().len() <= 0x110000
            &&& tree.height() <= max_bits()
        },
{
    proof {
        use_type_invariant(table);
        table.lemma_wf();
    }
    let n = table.len();
    if n == 0 {
        return Err(HuffmanError::InvalidInput);
    }
    let ghost entries = table.entries();
    let mut queue: Vec<HuffmanNode> = Vec::new();
    let mut i: usize = 0;
    assert(entries.take(0) =~= Seq::<(char, usize)>::empty());
    while i < n
        invariant
            i <= n == entries.len(),
            entries == table.entries(),
            queue@ == leaf_queue(entries.take(i as int)),
        decreases n - i,
    {
        let e = table.entry(i);
        assert(entries.take(i + 1).drop_last() =~= entries.take(i as int));
        insert_node(&mut queue, HuffmanNode::Leaf { symbol: e.0, weight: e.1 });
        i += 1;
    }
    assert(entries.take(n as int) =~= entries);
    proof {
        lemma_leaf_queue(entries);
    }
    while queue.len() > 1
        invariant
            queue@.len() >= 1,
            queue_weight(queue@) <= usize::MAX,
            merge_queue(queue@) == merge_queue(leaf_queue(entries)),
        decreases queue@.len(),
    {
        proof {
            lemma_queue_split(queue@);
        }
        let ghost before = queue@;
        let a = queue.pop().unwrap();
        let b = queue.pop().unwrap();
        assert(queue@ =~= before.take(before.len() - 2));
        let weight = a.weight() + b.weight();
        let node = HuffmanNode::Internal { weight, left: Box::new(a), right: Box::new(b) };
        assert(node == join(a, b));
        proof {
            lemma_enqueue(queue@, node);
        }
        insert_node(&mut queue, node);
    }
    let root = queue.pop().unwrap();
    proof {
        lemma_tree_of_entries(entries);
        lemma_height_below_leaves(root);
    }
    Ok(root)
}

} // verus!
