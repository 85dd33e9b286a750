//! The code table: for each symbol, the path from the root to its leaf.

use crate::bits::{max_bits, BitSequence};
use crate::frequency::{has_symbol, position_of};
use crate::tree::HuffmanNode;
use std::collections::HashMap;
use vstd::assert_by_contradiction;
use vstd::prelude::*;

verus! {

/// The path from `node` down to the leaf that holds `c`: `false` for a step
/// to the left, `true` for a step to the right. Where several leaves hold
/// `c`, the rightmost counts.
pub open spec fn code_of(node: HuffmanNode, c: char) -> Option<Seq<bool>>
    decreases node,
{
    match node {
        HuffmanNode::Leaf { symbol, .. } => if symbol == c {
            Some(Seq::empty())
        } else {
            None
        },
        HuffmanNode::Internal { left, right, .. } => match code_of(*right, c) {
            Some(p) => Some(seq![true] + p),
            None => match code_of(*left, c) {
                Some(p) => Some(seq![false] + p),
                None => None,
            },
        },
    }
}

/// The codes of all the symbols of a tree.
pub open spec fn code_map(root: HuffmanNode) -> Map<char, Seq<bool>> {
    Map::new(|c: char| code_of(root, c) is Some, |c: char| code_of(root, c).unwrap())
}

/// No code of a mapping is a prefix of the code of another symbol.
pub open spec fn prefix_free(codes: Map<char, Seq<bool>>) -> bool {
    forall|a: char, b: char|
        codes.contains_key(a) && codes.contains_key(b) && a != b ==> !(#[trigger] codes[a]).is_prefix_of(
            #[trigger] codes[b],
        )
}

/// Whether `k` is the number of a symbol.
pub open spec fn is_symbol_key(k: u32) -> bool {
    (k as char) as u32 == k
}

/// The code of the symbol with the number `k`.
pub open spec fn key_code(node: HuffmanNode, k: u32) -> Option<Seq<bool>> {
    if is_symbol_key(k) {
        code_of(node, k as char)
    } else {
        None
    }
}

/// Every symbol is found again from its number.
pub proof fn lemma_symbol_key(c: char)
    ensures
        is_symbol_key(c as u32),
        (c as u32) as char == c,
{
}

/// The symbols that have a code are those of the leaves.
pub proof fn lemma_code_of_leaf(node: HuffmanNode, c: char)
    ensures
        code_of(node, c) is Some <==> has_symbol(node.leaves(), c),
    decreases node,
{
    match node {
        HuffmanNode::Leaf { symbol, weight } => {
            if symbol == c {
                assert(node.leaves()[0].0 == c);
            }
            if has_symbol(node.leaves(), c) {
                let i = position_of(node.leaves(), c);
                assert(node.leaves()[i].0 == c);
            }
        },
        HuffmanNode::Internal { weight, left, right } => {
            lemma_code_of_leaf(*left, c);
            lemma_code_of_leaf(*right, c);
            let l = left.leaves();
            let r = right.leaves();
            if has_symbol(l, c) {
                let i = position_of(l, c);
                assert((l + r)[i].0 == c);
            }
            if has_symbol(r, c) {
                let i = position_of(r, c);
                assert((l + r)[l.len() + i].0 == c);
            }
            if has_symbol(l + r, c) {
                let i = position_of(l + r, c);
                if i < l.len() {
                    assert(l[i].0 == c);
                } else {
                    assert(r[i - l.len()].0 == c);
                }
            }
        },
    }
}

/// In any tree, the code of one symbol is never a prefix of the code of
/// another.
pub proof fn lemma_prefix_free(node: HuffmanNode, a: char, b: char)
    requires
        a != b,
        code_of(node, a) is Some,
        code_of(node, b) is Some,
    ensures
        !code_of(node, a).unwrap().is_prefix_of(code_of(node, b).unwrap()),
    decreases node,
{
    match node {
        HuffmanNode::Leaf { .. } => {},
        HuffmanNode::Internal { weight, left, right } => {
            let pa = code_of(node, a).unwrap();
            let pb = code_of(node, b).unwrap();
            let a_right = code_of(*right, a) is Some;
            let b_right = code_of(*right, b) is Some;
            if a_right == b_right {
                let sub = if a_right { *right } else { *left };
                lemma_prefix_free(sub, a, b);
                let qa = code_of(sub, a).unwrap();
                let qb = code_of(sub, b).unwrap();
                assert(pa.len() == qa.len() + 1 && pb.len() == qb.len() + 1);
                assert_by_contradiction!(!pa.is_prefix_of(pb), {
                    assert(pa =~= pb.subrange(0, pa.len() as int));
                    assert forall|i: int| 0 <= i < qa.len() implies qa[i] == qb[i] by {
                        assert(qa[i] == pa[i + 1]);
                        assert(pa[i + 1] == pb.subrange(0, pa.len() as int)[i + 1]);
                        assert(qb[i] == pb[i + 1]);
                    }
                    assert(qa =~= qb.subrange(0, qa.len() as int));
                    assert(qa.is_prefix_of(qb));
                });
            } else {
                assert(pa[0] == a_right);
                assert(pb[0] == b_right);
                assert_by_contradiction!(!pa.is_prefix_of(pb), {
                    assert(pa =~= pb.subrange(0, pa.len() as int));
                    assert(pa[0] == pb.subrange(0, pa.len() as int)[0]);
                    assert(pa[0] == pb[0]);
                });
            }
        },
    }
}

/// The codes of any tree are prefix-free.
pub proof fn lemma_code_map_prefix_free(root: HuffmanNode)
    ensures
        prefix_free(code_map(root)),
{
    let codes = code_map(root);
    assert forall|a: char, b: char|
        codes.contains_key(a) && codes.contains_key(b) && a != b implies !(#[trigger] codes[a]).is_prefix_of(
        #[trigger] codes[b],
    ) by {
        lemma_prefix_free(root, a, b);
    }
}

/// A mapping from symbols to their codes. The view is the mapping.
#[derive(Debug)]
pub struct CodeTable {
    codes: HashMap<u32, BitSequence>,
}

impl View for CodeTable {
    type V = Map<char, Seq<bool>>;

    closed spec fn view(&self) -> Map<char, Seq<bool>> {
        Map::new(|c: char| self.codes@.contains_key(c as u32), |c: char| self.codes@[c as u32]@)
    }
}

impl CodeTable {
    /// The code of `c`, if it has one.
    pub fn get(&self, c: char) -> (code: Option<&BitSequence>)
        ensures
            code is Some <==> self@.contains_key(c),
            code matches Some(bits) ==> bits@ == self@[c],
    {
        broadcast use vstd::std_specs::hash::group_hash_axioms;

        self.codes.get(&(c as u32))
    }

    /// Whether `c` has a code.
    pub fn contains(&self, c: char) -> (b: bool)
        ensures
            b == self@.contains_key(c),
    {
        self.get(c).is_some()
    }
}

/// Walks the tree below `node`, which is reached by `path`, and records the
/// code of every leaf. The path is extended before each descent and cut back
/// after it.
fn traverse(node: &HuffmanNode, path: &mut BitSequence, codes: &mut HashMap<u32, BitSequence>)
    requires
        old(path)@.len() + node.height() <= max_bits(),
    ensures
        final(path)@ == old(path)@,
        forall|k: u32| #[trigger]
            final(codes)@.contains_key(k) <==> old(codes)@.contains_key(k) || key_code(*node, k) is Some,
        forall|k: u32|
            key_code(*node, k) is Some ==> (#[trigger] final(codes)@[k])@ == old(path)@ + key_code(
                *node,
                k,
            ).unwrap(),
        forall|k: u32|
            key_code(*node, k) is None && old(codes)@.contains_key(k) ==> #[trigger] final(codes)@[k]
                == old(codes)@[k],
    decreases node,
{
    broadcast use vstd::std_specs::hash::group_hash_axioms;

    match node {
        HuffmanNode::Leaf { symbol, .. } => {
            let code = path.duplicate();
            proof {
                lemma_symbol_key(*symbol);
            }
            codes.insert(*symbol as u32, code);
            assert forall|k: u32| key_code(*node, k) is Some implies (#[trigger] codes@[k])@
                == path@ + key_code(*node, k).unwrap() by {
                assert(k == *symbol as u32);
                assert(path@ + Seq::<bool>::empty() =~= path@);
            }
        },
        HuffmanNode::Internal { left, right, .. } => {
            let ghost start = path@;
            let ghost codes0 = codes@;
            path.push(false);
            traverse(left, path, codes);
            path.pop();
            let ghost codes1 = codes@;
            assert(path@ =~= start);
            path.push(true);
            traverse(right, path, codes);
            path.pop();
            assert(path@ =~= start);
            assert forall|k: u32|
                key_code(*node, k) is Some implies (#[trigger] codes@[k])@ == start + key_code(
                *node,
                k,
            ).unwrap() by {
                if key_code(**right, k) is Some {
                    let p = key_code(**right, k).unwrap();
                    assert(start.push(true) + p =~= start + (seq![true] + p));
                } else {
                    let p = key_code(**left, k).unwrap();
                    assert(codes@[k] == codes1[k]);
                    assert(start.push(false) + p =~= start + (seq![false] + p));
                }
            }
            assert forall|k: u32|
                key_code(*node, k) is None && codes0.contains_key(k) implies #[trigger] codes@[k]
                == codes0[k] by {
                assert(codes@[k] == codes1[k]);
            }
        },
    }
}

/// Derives the code table of a tree: every leaf's symbol with the path from
/// the root to the leaf. A tree of one leaf gives its symbol the empty code.
pub fn build_encoding_table(root: &HuffmanNode) -> (table: CodeTable)
    requires
        root.height() <= max_bits(),
    ensures
        table@ == code_map(*root),
        prefix_free(table@),
{
    broadcast use vstd::std_specs::hash::group_hash_axioms;

    proof {
        lemma_code_map_prefix_free(*root);
    }
    let mut codes: HashMap<u32, BitSequence> = HashMap::new();
    let mut path = BitSequence::new();
    traverse(root, &mut path, &mut codes);
    let table = CodeTable { codes };
    proof {
        assert forall|c: char| table@.contains_key(c) <==> code_of(*root, c) is Some by {
            lemma_symbol_key(c);
        }
        assert forall|c: char| table@.contains_key(c) implies table@[c] == code_of(
            *root,
            c,
        ).unwrap() by {
            lemma_symbol_key(c);
            assert(Seq::<bool>::empty() + code_of(*root, c).unwrap() =~= code_of(*root, c).unwrap());
        }
        assert(table@ =~= code_map(*root));
    }
    table
}

} // verus!
