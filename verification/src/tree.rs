//! Leaf and internal nodes of a code tree, and the tree built by joining
//! the two lightest heap entries until one node is left.

use crate::heap::{
    root_removed, sift_down, sift_up, swap_seq, weights_sum, Heap,
};
use vstd::multiset::Multiset;
use vstd::prelude::*;

verus! {

/// A leaf or internal node of the code tree. A leaf's weight is the
/// frequency of its letter; an internal node's weight is the sum of its
/// children's.
#[derive(Debug)]
pub struct Node {
    pub weight: usize,
    pub value: Option<String>,
    pub left: Option<Box<Node>>,
    pub right: Option<Box<Node>>,
    pub is_leaf: bool,
}

impl Node {
    /// A node from its parts.
    pub fn new(
        weight: usize,
        value: Option<String>,
        left: Option<Box<Node>>,
        right: Option<Box<Node>>,
        is_leaf: bool,
    ) -> (r: Self)
        ensures
            r.weight == weight,
            r.value == value,
            r.left == left,
            r.right == right,
            r.is_leaf == is_leaf,
    {
        Node { weight, value, left, right, is_leaf }
    }

    /// The node's weight.
    pub fn weight(&self) -> (r: usize)
        ensures
            r == self.weight,
    {
        self.weight
    }
}

impl Clone for Node {
    /// An exact copy, children included.
    fn clone(&self) -> (r: Self)
        ensures
            r == *self,
        decreases *self,
    {
        Node {
            weight: self.weight,
            value: match &self.value {
                Option::Some(s) => Some(s.clone()),
                Option::None => None,
            },
            left: match &self.left {
                Option::Some(b) => Some(Box::new((**b).clone())),
                Option::None => None,
            },
            right: match &self.right {
                Option::Some(b) => Some(Box::new((**b).clone())),
                Option::None => None,
            },
            is_leaf: self.is_leaf,
        }
    }
}

/// The leaf nodes under a node, as a multiset: a node flagged a leaf
/// stands for itself; an internal node holds its children's leaves.
pub open spec fn leaves_of(n: Node) -> Multiset<Node>
    decreases n,
{
    if n.is_leaf {
        Multiset::empty().insert(n)
    } else {
        (match n.left {
            Option::Some(b) => leaves_of(*b),
            Option::None => Multiset::empty(),
        }).add(
            match n.right {
                Option::Some(b) => leaves_of(*b),
                Option::None => Multiset::empty(),
            },
        )
    }
}

/// The leaves under every node of an array, together.
pub open spec fn leaves_of_seq(s: Seq<Node>) -> Multiset<Node>
    decreases s.len(),
{
    if s.len() == 0 {
        Multiset::empty()
    } else {
        leaves_of_seq(s.drop_last()).add(leaves_of(s.last()))
    }
}

/// Replacing one slot trades its leaves for the new node's.
proof fn lemma_leaves_update(s: Seq<Node>, i: int, x: Node)
    requires
        0 <= i < s.len(),
    ensures
        leaves_of_seq(s.update(i, x)).add(leaves_of(s[i])) =~= leaves_of_seq(s).add(leaves_of(x)),
    decreases s.len(),
{
    broadcast use vstd::multiset::group_multiset_axioms;

    let s2 = s.update(i, x);
    if i == s.len() - 1 {
        assert(s2.drop_last() =~= s.drop_last());
        assert(s2.last() == x);
        assert(s.last() == s[i]);
        assert forall|n: Node|
            leaves_of_seq(s2).add(leaves_of(s[i])).count(n) == leaves_of_seq(s).add(
                leaves_of(x),
            ).count(n) by {
            assert(leaves_of_seq(s2).count(n) == leaves_of_seq(s.drop_last()).count(n)
                + leaves_of(x).count(n));
            assert(leaves_of_seq(s).count(n) == leaves_of_seq(s.drop_last()).count(n)
                + leaves_of(s[i]).count(n));
        }
    } else {
        let d = s.drop_last();
        assert(s2.drop_last() =~= d.update(i, x));
        assert(s2.last() == s.last());
        assert(d[i] == s[i]);
        lemma_leaves_update(d, i, x);
        assert forall|n: Node|
            leaves_of_seq(s2).add(leaves_of(s[i])).count(n) == leaves_of_seq(s).add(
                leaves_of(x),
            ).count(n) by {
            assert(leaves_of_seq(d.update(i, x)).add(leaves_of(d[i])).count(n) == leaves_of_seq(
                d,
            ).add(leaves_of(x)).count(n));
            assert(leaves_of_seq(s2).count(n) == leaves_of_seq(d.update(i, x)).count(n)
                + leaves_of(s.last()).count(n));
            assert(leaves_of_seq(s).count(n) == leaves_of_seq(d).count(n) + leaves_of(
                s.last(),
            ).count(n));
        }
    }
}

/// Swapping two slots leaves the leaves together unchanged.
proof fn lemma_leaves_swap(s: Seq<Node>, i: int, j: int)
    requires
        0 <= i < s.len(),
        0 <= j < s.len(),
    ensures
        leaves_of_seq(swap_seq(s, i, j)) =~= leaves_of_seq(s),
{
    broadcast use vstd::multiset::group_multiset_axioms;

    if i == j {
        assert(swap_seq(s, i, j) =~= s);
    } else {
        let s1 = s.update(i, s[j]);
        lemma_leaves_update(s, i, s[j]);
        assert(s1[j] == s[j]);
        lemma_leaves_update(s1, j, s[i]);
        assert(leaves_of_seq(swap_seq(s, i, j)).add(leaves_of(s[j])).add(leaves_of(s[i]))
            =~= leaves_of_seq(s).add(leaves_of(s[j])).add(leaves_of(s[i])));
        assert forall|n: Node|
            leaves_of_seq(swap_seq(s, i, j)).count(n) == leaves_of_seq(s).count(n) by {
            assert(leaves_of_seq(swap_seq(s, i, j)).add(leaves_of(s[j])).add(
                leaves_of(s[i]),
            ).count(n) == leaves_of_seq(s).add(leaves_of(s[j])).add(leaves_of(s[i])).count(n));
        }
    }
}

/// The upward walk moves nodes around without changing the leaves.
proof fn lemma_leaves_sift_up(s: Seq<Node>, idx: int)
    ensures
        leaves_of_seq(sift_up(s, idx)) =~= leaves_of_seq(s),
    decreases idx,
{
    broadcast use vstd::multiset::group_multiset_axioms;

    if 0 < idx < s.len() {
        let p = (idx - 1) / 2;
        if s[p].weight > s[idx].weight {
            lemma_leaves_swap(s, p, idx);
            lemma_leaves_sift_up(swap_seq(s, p, idx), p);
        }
    }
}

/// The downward walk moves nodes around without changing the leaves.
proof fn lemma_leaves_sift_down(s: Seq<Node>, idx: int)
    ensures
        leaves_of_seq(sift_down(s, idx)) =~= leaves_of_seq(s),
    decreases s.len() - idx,
{
    broadcast use vstd::multiset::group_multiset_axioms;

    if 0 <= idx < s.len() {
        let l = 2 * idx + 1;
        let r = 2 * idx + 2;
        if l < s.len() && s[l].weight < s[idx].weight {
            lemma_leaves_swap(s, idx, l);
            lemma_leaves_sift_down(swap_seq(s, idx, l), l);
        } else if r < s.len() && s[r].weight < s[idx].weight {
            lemma_leaves_swap(s, idx, r);
            lemma_leaves_sift_down(swap_seq(s, idx, r), r);
        }
    }
}

/// Taking the root out splits the leaves into the root's and the rest.
proof fn lemma_leaves_root_removed(s: Seq<Node>)
    requires
        s.len() >= 1,
    ensures
        leaves_of_seq(root_removed(s)).add(leaves_of(s[0])) =~= leaves_of_seq(s),
{
    broadcast use vstd::multiset::group_multiset_axioms;

    if s.len() == 1 {
        assert(root_removed(s) =~= s.drop_last());
        assert(leaves_of_seq(s.drop_last()) =~= Multiset::empty());
        assert(s.last() == s[0]);
    } else {
        let sw = swap_seq(s, 0, s.len() - 1);
        lemma_leaves_swap(s, 0, s.len() - 1);
        assert(sw.last() == s[0]);
        assert(root_removed(s) =~= sw.drop_last());
        assert(leaves_of_seq(sw) == leaves_of_seq(sw.drop_last()).add(leaves_of(sw.last())));
    }
}

/// A binary code tree, grown out of a heap of nodes.
#[derive(Debug)]
pub struct BTree {
    pub root: Node,
}

impl BTree {
    /// Builds the tree: repeatedly joins the two lightest nodes under a
    /// fresh internal node until one node is left; that node, whose
    /// weight is the sum of every weight the heap held, becomes the
    /// root. The heap is drained.
    pub fn new(heap: &mut Heap) -> (r: Self)
        requires
            old(heap).elems@.len() >= 1,
            weights_sum(old(heap).elems@) <= usize::MAX,
        ensures
            r.root.weight == weights_sum(old(heap).elems@),
            leaves_of(r.root) == leaves_of_seq(old(heap).elems@),
            final(heap).elems@.len() == 0,
    {
        let ghost total = weights_sum(old(heap).elems@);
        let ghost all_leaves = leaves_of_seq(old(heap).elems@);
        while heap.size() > 1
            invariant
                heap.elems@.len() >= 1,
                weights_sum(heap.elems@) == total,
                leaves_of_seq(heap.elems@) == all_leaves,
                total <= usize::MAX,
            decreases heap.elems@.len(),
        {
            let ghost pre1 = heap.elems@;
            let tmp1 = heap.delete();
            proof {
                lemma_leaves_sift_down(root_removed(pre1), 0);
                lemma_leaves_root_removed(pre1);
            }
            let ghost pre2 = heap.elems@;
            let tmp2 = heap.delete();
            proof {
                lemma_leaves_sift_down(root_removed(pre2), 0);
                lemma_leaves_root_removed(pre2);
                crate::heap::lemma_weights_sum_nonneg(heap.elems@);
            }
            let tmp3 = Node::new(
                tmp1.weight() + tmp2.weight(),
                None,
                Some(Box::new(tmp1)),
                Some(Box::new(tmp2)),
                false,
            );
            let ghost pre3 = heap.elems@;
            let ghost l1 = leaves_of(tmp1);
            let ghost l2 = leaves_of(tmp2);
            proof {
                broadcast use vstd::multiset::group_multiset_axioms;

                assert(leaves_of(tmp3) =~= l1.add(l2));
            }
            heap.insert(tmp3);
            proof {
                broadcast use vstd::multiset::group_multiset_axioms;

                lemma_leaves_sift_up(pre3.push(tmp3), pre3.len() as int);
                assert(leaves_of_seq(heap.elems@) =~= leaves_of_seq(pre3.push(tmp3))) by {
                    assert(heap.elems@ == sift_up(pre3.push(tmp3), pre3.len() as int));
                }
                assert(pre3.push(tmp3).drop_last() =~= pre3);
                assert(pre3.push(tmp3).last() == tmp3);
                assert(leaves_of_seq(pre3.push(tmp3)) == leaves_of_seq(pre3).add(
                    leaves_of(tmp3),
                ));
                assert forall|n: Node|
                    leaves_of_seq(heap.elems@).count(n) == all_leaves.count(n) by {
                    assert(leaves_of_seq(heap.elems@).count(n) == leaves_of_seq(pre3).count(n)
                        + l1.count(n) + l2.count(n));
                    assert(leaves_of_seq(pre3).count(n) + l2.count(n) == leaves_of_seq(
                        pre2,
                    ).count(n));
                    assert(leaves_of_seq(pre2).count(n) + l1.count(n) == all_leaves.count(n));
                }
                assert(leaves_of_seq(heap.elems@) =~= all_leaves);
            }
        }
        let ghost last_state = heap.elems@;
        let btree_root = heap.delete();
        proof {
            broadcast use vstd::multiset::group_multiset_axioms;

            lemma_leaves_sift_down(root_removed(last_state), 0);
            lemma_leaves_root_removed(last_state);
            assert(root_removed(last_state) =~= last_state.drop_last());
            assert(leaves_of_seq(heap.elems@) =~= Multiset::empty());
            assert(leaves_of(btree_root) =~= all_leaves);
        }
        BTree { root: btree_root }
    }
}

} // verus!
